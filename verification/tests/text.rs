use std::borrow::Cow;

use locale_forge::map::StringMap;
use locale_forge::order::{place, Place};
use locale_forge::terminal::escape_controls;
use locale_forge::text::{
    contains, is_blank, is_white, join5, replace_all, same_text, starts_with, to_decimal, to_lower,
};
use locale_forge::value::{parse_json, parse_json_bytes, Json};

#[test]
fn escapes_terminal_control_characters_only_when_needed() {
    assert_eq!(escape_controls("owner\nname"), "owner\\nname");
    assert!(matches!(escape_controls("owner"), Cow::Borrowed("owner")));
}

#[test]
fn escapes_each_kind_of_control_character() {
    assert_eq!(
        escape_controls("\0\t\r\n\u{1f}\u{7f}\u{85}\u{9f}\u{a0}é'\""),
        "\\u{0}\\t\\r\\n\\u{1f}\\u{7f}\\u{85}\\u{9f}\u{a0}é'\""
    );
    for code in 0..0x110000u32 {
        if let Some(c) = char::from_u32(code) {
            let text = c.to_string();
            let shown = escape_controls(&text);
            assert_eq!(matches!(shown, Cow::Borrowed(_)), !c.is_control());
            if c.is_control() {
                assert_eq!(shown, c.escape_default().to_string());
            }
        }
    }
}

#[test]
fn replaces_as_std_does() {
    for text in ["", "a", "aaa", "abab中ab", "ab"] {
        for part in ["", "a", "aa", "ab", "中", "x"] {
            assert_eq!(replace_all(text, part, "[b]"), text.replace(part, "[b]"));
            assert_eq!(contains(text, part), text.contains(part));
            assert_eq!(starts_with(text, part), text.starts_with(part));
            assert_eq!(same_text(text, part), text == part);
        }
    }
}

#[test]
fn replaced_parts_do_not_occur_any_more() {
    for text in ["", "key", "kkeyey", "a key, keykey\nb"] {
        assert!(!contains(&replace_all(text, "key", "[REDACTED]"), "key"));
    }
}

#[test]
fn orders_texts_as_std_does() {
    let texts = ["", "a", "ab", "b", "B", "中", "é", "\u{10000}", "\u{ffff}"];
    for a in texts {
        for b in texts {
            let expected = if a < b {
                Place::Before
            } else if a == b {
                Place::Same
            } else {
                Place::After
            };
            assert_eq!(place(a, b), expected);
        }
    }
}

#[test]
fn maps_keep_their_keys_in_order() {
    let mut map = StringMap::new();
    assert!(map.is_empty());
    for (key, value) in [("c", 1), ("a", 2), ("中", 3), ("b", 4)] {
        assert_eq!(map.insert(key.to_owned(), value), None);
    }
    assert_eq!(map.insert("a".to_owned(), 5), Some(2));
    assert_eq!(map.len(), 4);
    assert_eq!(map.key_at(1), "b");
    assert_eq!(map.value_at(0), &5);
    assert_eq!(map.remove("b"), Some(4));
    assert_eq!(map.remove("b"), None);
    assert!(!map.contains_key("b"));
    assert_eq!(map.get("中"), Some(&3));
    let mut other = StringMap::new();
    other.insert("c".to_owned(), 9);
    other.insert("d".to_owned(), 8);
    map.extend(other);
    let entries = map.into_entries();
    assert_eq!(
        entries,
        [("a".to_owned(), 5), ("c".to_owned(), 9), ("d".to_owned(), 8), ("中".to_owned(), 3)]
    );
}

#[test]
fn reads_and_writes_values() {
    let text = r#"{"b":[1,-2,0.25,1e+300,true,null,"x"],"a":{"b":1}}"#;
    let value = parse_json(text).unwrap();
    assert_eq!(value.to_compact(), text);
    assert!(value.same(&parse_json_bytes(text.as_bytes()).unwrap()));
    let reordered = parse_json(r#"{"a":{"b":1},"b":[1,-2,0.25,1e+300,true,null,"x"]}"#).unwrap();
    assert!(value.same(&reordered) && reordered.same(&value));
    assert!(!value.same(&parse_json(r#"{"a":{"b":2},"b":[]}"#).unwrap()));
    assert_eq!(value.copy().to_compact(), text);
    let Json::Object(members) = value else {
        panic!("the document is an object");
    };
    assert_eq!(members[0].0, "b");
    assert!(parse_json(&"[".repeat(200)).is_err());
    let deep = format!("{}{}", "[".repeat(127), "]".repeat(127));
    assert!(parse_json(&deep).is_ok());
    assert!(parse_json(&format!("[{deep}]")).is_err());
    assert_eq!(Json::integer(42).to_compact(), "42");
    assert_eq!(Json::text("4\"2").to_compact(), r#""4\"2""#);
}

#[test]
fn recognizes_blank_and_lower_case_texts() {
    assert!(is_blank(" \t\u{3000}"));
    assert!(is_blank(""));
    assert!(!is_blank(" x"));
    for code in 0..0x110000u32 {
        if let Some(c) = char::from_u32(code) {
            assert_eq!(is_white(c), c.is_whitespace());
        }
    }
    assert_eq!(to_lower("JSON-Ä"), "json-Ä");
    assert_eq!(to_decimal(u64::MAX), u64::MAX.to_string());
    assert_eq!(to_decimal(0), "0");
    assert_eq!(join5("a", "b", "c", "d", "e"), "abcde");
}
