# Deckhand

A status board for several coding-agent sessions at once: one row per
session with a live status colour, and a click that raises the
session's window.

The crate is in two parts.

- `src/` is the library, verified with Verus: the per-session state
  machine (`state`), the session list with its bindings, selection,
  liveness watches and supersession (`registry`, `supersede`), the
  readers for the agent's session listing and hook settings
  (`enumerate`, `hook_status`, `json`), the ingest endpoint's decisions
  (`http`), Reveal's window choice (`window_match`, `host`), window
  placement (`window`), the crash watchdog's policy and ledger
  (`watchdog`), the start-with-Windows value (`runkey`), the text of the
  files kept on disk (`persist`), and the shim's reading of the contact
  file (`contact`). Each public function states what it returns in its
  contract; the `law_*` proof functions state what holds across calls.
- `app/` is the Tauri application around it: the window, the threads,
  the loopback server, and every call into the operating system.

The application finds the agent's command line through
`DECKHAND_AGENT_CLI` (its program name) and the agent's per-user
directory through `DECKHAND_AGENT_HOME`, or `.<program name>` under the
user's profile.
