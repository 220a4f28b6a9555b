//! Deckhand: a status board for several coding-agent sessions at once.
//! The verified core: the session state machine, the session registry,
//! and the pure decisions around them (which sessions to show, which
//! window to raise, when to restart, what a request is answered, and
//! the exact text of what is kept on disk).

pub mod contact;
pub mod decimal;
pub mod enumerate;
pub mod hook_status;
pub mod host;
pub mod http;
pub mod installer;
pub mod instance;
pub mod json;
pub mod persist;
pub mod registry;
pub mod runkey;
pub mod split;
pub mod state;
pub mod supersede;
pub mod text;
pub mod watchdog;
pub mod window;
pub mod window_match;
