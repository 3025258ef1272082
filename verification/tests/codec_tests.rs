use costore::codec::{decode_line, decode_meta, encode_meta};
use costore::error::StoreError;
use costore::record::ReviewMeta;

fn chars(s: &str) -> Vec<char> {
    s.chars().collect()
}

fn text(v: &[char]) -> String {
    v.iter().collect()
}

#[test]
fn encode_plain_record() {
    let m = ReviewMeta { id: 7, title: String::from("a"), body: String::from("b") };
    let line = encode_meta(&m);
    assert_eq!(text(&line), "{\"id\":7,\"title\":\"a\",\"body\":\"b\"}");
}

#[test]
fn encode_multi_digit_id() {
    let m = ReviewMeta { id: 1042, title: String::from("t"), body: String::from("b") };
    let line = encode_meta(&m);
    assert_eq!(text(&line), "{\"id\":1042,\"title\":\"t\",\"body\":\"b\"}");
}

#[test]
fn encode_escapes_quote_and_backslash() {
    let m = ReviewMeta { id: 0, title: String::from("a\"b"), body: String::from("c\\d") };
    let line = encode_meta(&m);
    assert_eq!(text(&line), "{\"id\":0,\"title\":\"a\\\"b\",\"body\":\"c\\\\d\"}");
}

#[test]
fn encode_escapes_control_chars() {
    let m = ReviewMeta { id: 1, title: String::from("a\nb"), body: String::from("c\td") };
    let line = encode_meta(&m);
    assert_eq!(text(&line), "{\"id\":1,\"title\":\"a\\u000ab\",\"body\":\"c\\u0009d\"}");
    assert!(!line.contains(&'\n'));
}

#[test]
fn encode_keeps_non_ascii_raw() {
    let m = ReviewMeta { id: 2, title: String::from("caf\u{e9}"), body: String::from("\u{1f600}") };
    let line = encode_meta(&m);
    assert_eq!(text(&line), "{\"id\":2,\"title\":\"caf\u{e9}\",\"body\":\"\u{1f600}\"}");
}

#[test]
fn round_trip_plain() {
    let m = ReviewMeta { id: 7, title: String::from("hello"), body: String::from("world") };
    let line = encode_meta(&m);
    let back = decode_meta(&line).expect("canonical line must decode");
    assert_eq!(back.id, 7);
    assert_eq!(back.title, "hello");
    assert_eq!(back.body, "world");
}

#[test]
fn round_trip_escapes_and_unicode() {
    let m = ReviewMeta {
        id: usize::MAX,
        title: String::from("a\"b\\c\nd\u{1}e"),
        body: String::from("caf\u{e9} \u{1f600}"),
    };
    let line = encode_meta(&m);
    let back = decode_meta(&line).expect("canonical line must decode");
    assert_eq!(back.id, usize::MAX);
    assert_eq!(back.title, m.title);
    assert_eq!(back.body, m.body);
}

#[test]
fn round_trip_empty_strings_rejected_only_by_validation_not_codec() {
    let m = ReviewMeta { id: 0, title: String::new(), body: String::new() };
    let line = encode_meta(&m);
    assert_eq!(text(&line), "{\"id\":0,\"title\":\"\",\"body\":\"\"}");
    let back = decode_meta(&line).expect("canonical line must decode");
    assert_eq!(back.title, "");
    assert_eq!(back.body, "");
}

#[test]
fn decode_rejects_malformed_lines() {
    assert!(decode_meta(&chars("")).is_none());
    assert!(decode_meta(&chars("{}")).is_none());
    assert!(decode_meta(&chars("not json at all")).is_none());
    // Non-canonical spacing is refused.
    assert!(decode_meta(&chars("{\"id\": 0,\"title\":\"a\",\"body\":\"b\"}")).is_none());
    // Leading zeros are not canonical digits of any id.
    assert!(decode_meta(&chars("{\"id\":00,\"title\":\"a\",\"body\":\"b\"}")).is_none());
    // A raw control character inside a string is refused.
    assert!(decode_meta(&chars("{\"id\":0,\"title\":\"a\nb\",\"body\":\"c\"}")).is_none());
    // Trailing garbage after the closing brace is refused.
    assert!(decode_meta(&chars("{\"id\":0,\"title\":\"a\",\"body\":\"b\"}x")).is_none());
    // A truncated line is refused.
    assert!(decode_meta(&chars("{\"id\":0,\"title\":\"a\",\"body\":\"b")).is_none());
}

#[test]
fn decode_line_reports_corrupt_data() {
    match decode_line(&chars("garbage")) {
        Err(StoreError::CorruptData) => {},
        other => panic!("expected CorruptData, got {:?}", other),
    }
    let ok = decode_line(&chars("{\"id\":3,\"title\":\"x\",\"body\":\"y\"}"))
        .expect("canonical line must decode");
    assert_eq!(ok.id, 3);
}
