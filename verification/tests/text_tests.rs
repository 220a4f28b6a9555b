use deckhand::decimal::{decimal_i64, decimal_u64, parse_i64, parse_u16};
use deckhand::json::{get_bool, get_str, parse_json, Json};
use deckhand::split::{split_lines, split_words};
use deckhand::text::{chars_of, contains, eq_ignore_ascii_case, same_text, string_of_range};

fn cs(s: &str) -> Vec<char> {
    s.chars().collect()
}

fn strings(v: Vec<Vec<char>>) -> Vec<String> {
    v.into_iter().map(|c| c.into_iter().collect()).collect()
}

#[test]
fn decimal_text_of_integers() {
    assert_eq!(decimal_u64(0), "0");
    assert_eq!(decimal_u64(18446744073709551615), "18446744073709551615");
    assert_eq!(decimal_i64(-9223372036854775808), "-9223372036854775808");
    assert_eq!(decimal_i64(42), "42");
}

#[test]
fn parse_i64_follows_str_parse() {
    assert_eq!(parse_i64(&cs("123")), Some(123));
    assert_eq!(parse_i64(&cs("-123")), Some(-123));
    assert_eq!(parse_i64(&cs("+5")), Some(5));
    assert_eq!(parse_i64(&cs("9223372036854775807")), Some(i64::MAX));
    assert_eq!(parse_i64(&cs("-9223372036854775808")), Some(i64::MIN));
    assert_eq!(parse_i64(&cs("9223372036854775808")), None);
    assert_eq!(parse_i64(&cs("")), None);
    assert_eq!(parse_i64(&cs("-")), None);
    assert_eq!(parse_i64(&cs("1a")), None);
}

#[test]
fn parse_u16_follows_str_parse() {
    assert_eq!(parse_u16(&cs("65535")), Some(65535));
    assert_eq!(parse_u16(&cs("65536")), None);
    assert_eq!(parse_u16(&cs("007")), Some(7));
    assert_eq!(parse_u16(&cs("-1")), None);
}

#[test]
fn lines_and_words_split_like_std() {
    assert_eq!(strings(split_lines(&cs("a\nb"))), vec!["a", "b"]);
    assert_eq!(strings(split_words(&cs("  x  y\tz "))), vec!["x", "y", "z"]);
    assert!(split_words(&cs("   ")).is_empty());
}

#[test]
fn text_helpers() {
    assert!(eq_ignore_ascii_case("DeckHand", "deckhand"));
    assert!(!eq_ignore_ascii_case("deckhand", "deckhan"));
    assert!(contains(&cs("hello world"), &cs("o w")));
    assert!(!contains(&cs("hello"), &cs("hello!")));
    assert!(same_text("a", "a"));
    assert_eq!(string_of_range(&cs("abcdef"), 1, 4), "bcd");
    assert_eq!(chars_of("xyz"), vec!['x', 'y', 'z']);
}

#[test]
fn json_lookups_take_the_first_matching_field() {
    let v: Json = parse_json(br#"{"a": "x", "b": true, "n": -3, "arr": [1, 2]}"#).unwrap();
    assert_eq!(get_str(&v, "a").map(|s| s.as_str()), Some("x"));
    assert_eq!(get_bool(&v, "b"), Some(true));
    assert_eq!(get_str(&v, "b"), None);
    assert_eq!(v.get("n").and_then(|n| n.as_i64()), Some(-3));
    assert_eq!(v.get("n").and_then(|n| n.as_u64()), None);
    assert_eq!(v.get("arr").and_then(|a| a.as_array()).map(|a| a.len()), Some(2));
    assert!(parse_json(b"{").is_none());
}
