use deckhand::http::{hex_token, ingest_body, random_token, request_status, token_ok, tokens_equal, MAX_BODY_BYTES};
use deckhand::json::Json;

const TOKEN: &str = "0123456789abcdef0123456789abcdef0123456789abcdef0123456789abcdef";

fn headers(pairs: &[(&str, &str)]) -> Vec<(String, String)> {
    pairs.iter().map(|(k, v)| (k.to_string(), v.to_string())).collect()
}

/// What the ingest server answers one request, and the value it hands
/// on: the head decides first, and only a request it lets through has
/// its body read.
fn answer(hs: &[(String, String)], url: &str, body: &[u8]) -> (u16, Option<Json>) {
    match request_status(hs, url, Some(body.len()), TOKEN) {
        Some(code) => (code, None),
        None => ingest_body(body),
    }
}

fn field_u64(v: &Json, key: &str) -> Option<u64> {
    v.get(key).and_then(|x| x.as_u64())
}

#[test]
fn tokens_equal_accepts_the_same_string() {
    assert!(tokens_equal("abc123", "abc123"));
}

#[test]
fn tokens_equal_rejects_a_same_length_mismatch() {
    assert!(!tokens_equal("abc123", "abc124"));
}

#[test]
fn tokens_equal_rejects_different_lengths() {
    assert!(!tokens_equal("abc123", "abc1234"));
    assert!(!tokens_equal("abc1234", "abc123"));
}

#[test]
fn tokens_equal_rejects_empty_against_nonempty() {
    assert!(!tokens_equal("", "abc123"));
    assert!(tokens_equal("", ""));
}

#[test]
fn correct_token_hook_valid_json_gives_204_and_the_value_arrives() {
    let hs = headers(&[("X-Deckhand-Token", TOKEN)]);
    let (status, v) = answer(&hs, "/hook", br#"{"a":1}"#);
    assert_eq!(status, 204);
    assert_eq!(field_u64(&v.expect("the value arrives"), "a"), Some(1));
}

#[test]
fn missing_token_gives_401_and_nothing_arrives() {
    let hs = headers(&[("Content-Length", "7")]);
    let (status, v) = answer(&hs, "/hook", br#"{"a":1}"#);
    assert_eq!(status, 401);
    assert!(v.is_none(), "a rejected request must never reach the channel");
}

#[test]
fn wrong_token_gives_401() {
    let hs = headers(&[("X-Deckhand-Token", "not-the-token")]);
    assert_eq!(answer(&hs, "/hook", br#"{"a":1}"#).0, 401);
}

#[test]
fn correct_token_wrong_path_gives_404() {
    let hs = headers(&[("X-Deckhand-Token", TOKEN)]);
    assert_eq!(answer(&hs, "/other", br#"{"a":1}"#).0, 404);
}

#[test]
fn correct_token_invalid_json_gives_400() {
    let hs = headers(&[("X-Deckhand-Token", TOKEN)]);
    assert_eq!(answer(&hs, "/hook", b"not json").0, 400);
}

#[test]
fn a_leading_utf8_bom_is_accepted() {
    let hs = headers(&[("X-Deckhand-Token", TOKEN)]);
    let mut body = vec![0xEF, 0xBB, 0xBF];
    body.extend_from_slice(br#"{"a":2}"#);
    let (status, v) = answer(&hs, "/hook", &body);
    assert_eq!(status, 204);
    assert_eq!(field_u64(&v.expect("the BOM must be tolerated, not rejected"), "a"), Some(2));
}

#[test]
fn the_header_name_is_matched_case_insensitively() {
    let hs = headers(&[("X-DECKHAND-TOKEN", TOKEN)]);
    let (status, v) = answer(&hs, "/hook", br#"{"a":3}"#);
    assert_eq!(status, 204);
    assert!(v.is_some());
}

#[test]
fn a_body_over_the_cap_gives_413_and_nothing_arrives() {
    let oversized = vec![b'0'; (MAX_BODY_BYTES + 1) as usize];
    let (status, v) = ingest_body(&oversized);
    assert_eq!(status, 413);
    assert!(v.is_none(), "an oversized body must never reach the channel, even in part");
}

#[test]
fn a_chunked_body_gives_411_unread_and_nothing_arrives() {
    let hs = headers(&[("X-Deckhand-Token", TOKEN), ("Transfer-Encoding", "chunked")]);
    assert_eq!(request_status(&hs, "/hook", None, TOKEN), Some(411));
}

#[test]
fn a_declared_length_over_the_cap_gives_413_unread() {
    let hs = headers(&[("X-Deckhand-Token", TOKEN)]);
    assert_eq!(request_status(&hs, "/hook", Some(MAX_BODY_BYTES as usize + 1), TOKEN), Some(413));
}

#[test]
fn a_body_exactly_at_the_cap_is_still_accepted() {
    let json = br#"{"a":1}"#;
    let mut body = vec![b' '; MAX_BODY_BYTES as usize - json.len()];
    body.extend_from_slice(json);
    assert_eq!(body.len() as u64, MAX_BODY_BYTES);
    let hs = headers(&[("X-Deckhand-Token", TOKEN)]);
    let (status, v) = answer(&hs, "/hook", &body);
    assert_eq!(status, 204);
    assert!(v.is_some());
}

#[test]
fn two_sequential_posts_arrive_in_order() {
    let hs = headers(&[("X-Deckhand-Token", TOKEN)]);
    let mut arrived: Vec<Json> = Vec::new();
    for body in [br#"{"n":1}"#, br#"{"n":2}"#] {
        if let (204, Some(v)) = answer(&hs, "/hook", body) {
            arrived.push(v);
        }
    }
    assert_eq!(arrived.len(), 2);
    assert_eq!(field_u64(&arrived[0], "n"), Some(1));
    assert_eq!(field_u64(&arrived[1], "n"), Some(2));
}

// ---- beyond the scenarios above ----

#[test]
fn a_declared_length_at_the_cap_is_let_through_to_the_body() {
    let hs = headers(&[("x-deckhand-token", TOKEN)]);
    assert_eq!(request_status(&hs, "/hook", Some(MAX_BODY_BYTES as usize), TOKEN), None);
    assert_eq!(request_status(&hs, "/hook", None, TOKEN), None);
}

#[test]
fn the_token_is_checked_before_the_path() {
    let hs = headers(&[("X-Deckhand-Token", "wrong")]);
    assert_eq!(request_status(&hs, "/other", None, TOKEN), Some(401));
}

#[test]
fn any_one_matching_token_header_is_enough() {
    let hs = headers(&[("X-Deckhand-Token", "wrong"), ("x-deckhand-token", TOKEN)]);
    assert!(token_ok(&hs, TOKEN));
    assert!(!token_ok(&headers(&[("X-Other", TOKEN)]), TOKEN));
}

#[test]
fn several_boms_are_all_stripped() {
    let mut body = vec![0xEF, 0xBB, 0xBF, 0xEF, 0xBB, 0xBF];
    body.extend_from_slice(b"true");
    let (status, v) = ingest_body(&body);
    assert_eq!(status, 204);
    assert_eq!(v.and_then(|j| j.as_bool()), Some(true));
}

#[test]
fn hex_token_writes_two_lowercase_digits_per_byte() {
    assert_eq!(hex_token(&[0x00, 0x0f, 0xa5, 0xff]), "000fa5ff");
    assert_eq!(hex_token(&[]), "");
}

#[test]
fn a_random_token_is_sixty_four_lowercase_hex_digits() {
    let t = random_token();
    assert_eq!(t.len(), 64);
    assert!(t.chars().all(|c| c.is_ascii_digit() || ('a'..='f').contains(&c)));
    assert_ne!(random_token(), t, "two fresh tokens are different");
}
