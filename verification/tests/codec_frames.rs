//! The wire codec on its own: JSON string escaping, frame parsing, and
//! message-id strings.

use ovenauth::codec::{parse_control_ex, parse_incoming_ex, ulid_from_bytes, ulid_to_bytes};

fn b(s: &str) -> Vec<u8> {
    s.as_bytes().to_vec()
}

#[test]
fn incoming_frame_happy_paths() {
    let (c, r) = parse_incoming_ex(&b(r#"{"content":"hi","reply_to":null}"#)).unwrap();
    assert_eq!(c, b("hi"));
    assert_eq!(r, None);

    // reply_to may be omitted entirely.
    let (c, r) = parse_incoming_ex(&b(r#"{"content":"alone"}"#)).unwrap();
    assert_eq!(c, b("alone"));
    assert_eq!(r, None);

    // Any field order, with whitespace everywhere.
    let (c, r) = parse_incoming_ex(&b(
        " { \"reply_to\" : \"0000000000000000000000000Z\" , \"content\" : \"re\" } ",
    ))
    .unwrap();
    assert_eq!(c, b("re"));
    assert_eq!(r, Some(31), "Z is the highest base32 digit");
}

#[test]
fn incoming_frame_decodes_escapes() {
    let (c, _) =
        parse_incoming_ex(&b(r#"{"content":"a\"b\\c\/d\n\tA","reply_to":null}"#)).unwrap();
    assert_eq!(c, b("a\"b\\c/d\n\tA"));
    // Escaped code points decode to UTF-8, whatever their width; raw
    // UTF-8 passes through unchanged.
    let (c, _) = parse_incoming_ex(&b("{\"content\":\"\\u0041z\"}")).unwrap();
    assert_eq!(c, b("Az"));
    let (c, _) = parse_incoming_ex(&b("{\"content\":\"\\u00e9\"}")).unwrap();
    assert_eq!(c, "é".as_bytes().to_vec());
    let (c, _) = parse_incoming_ex(&b("{\"content\":\"\\u0141\"}")).unwrap();
    assert_eq!(c, "Ł".as_bytes().to_vec());
    let (c, _) = parse_incoming_ex(&b("{\"content\":\"\\u20ac\"}")).unwrap();
    assert_eq!(c, "€".as_bytes().to_vec());
    // A surrogate pair decodes to one four-byte character; a lone
    // surrogate half is malformed.
    let (c, _) = parse_incoming_ex(&b("{\"content\":\"\\ud83d\\ude00\"}")).unwrap();
    assert_eq!(c, "😀".as_bytes().to_vec());
    assert!(parse_incoming_ex(&b("{\"content\":\"\\ud800\"}")).is_none());
    assert!(parse_incoming_ex(&b("{\"content\":\"\\ude00x\"}")).is_none());
    let (c, _) = parse_incoming_ex(&b(r#"{"content":"héllo"}"#)).unwrap();
    assert_eq!(c, "héllo".as_bytes().to_vec());
}

#[test]
fn incoming_frame_rejects_bad_shapes() {
    for bad in [
        "",
        "[]",
        r#"{"content":"a"#,
        r#"{"content":"a" "reply_to":null}"#,
        r#"{"content":"a",}"#,
        r#"{"content":"\q"}"#,
        r#"{"content":"a","reply_to":"0000000000000000000000000"}"#,
        r#"{"content":"a","reply_to":"8ZZZZZZZZZZZZZZZZZZZZZZZZZ"}"#,
        r#"{"content":"a","reply_to":"0000000000000000000000000u"}"#,
    ] {
        assert!(parse_incoming_ex(&b(bad)).is_none(), "should reject: {bad}");
    }
}

#[test]
fn control_frame_parses_both_verbs() {
    let (sub, n) = parse_control_ex(&b(r#"{"Subscribe":{"channel_name":"p1"}}"#)).unwrap();
    assert!(sub);
    assert_eq!(n, b("p1"));
    let (sub, n) =
        parse_control_ex(&b(" { \"Unsubscribe\" : { \"channel_name\" : \"p2\" } } ")).unwrap();
    assert!(!sub);
    assert_eq!(n, b("p2"));
    assert!(parse_control_ex(&b(r#"{"Subscribe":{"channel_name":"p1"},"x":1}"#)).is_none());
}

#[test]
fn message_ids_round_trip_as_strings() {
    assert_eq!(ulid_to_bytes(0), b("00000000000000000000000000"));
    assert_eq!(ulid_to_bytes(5), b("00000000000000000000000005"));
    assert_eq!(ulid_to_bytes(u128::MAX), b("7ZZZZZZZZZZZZZZZZZZZZZZZZZ"));
    for x in [0u128, 1, 31, 32, 12345678901234567890, u128::MAX] {
        assert_eq!(ulid_from_bytes(&ulid_to_bytes(x)), Some(x));
    }
    // The value one past u128::MAX would start with '8'.
    assert_eq!(ulid_from_bytes(&b("80000000000000000000000000")), None);
    // Lowercase letters decode like their uppercase forms; the letters
    // the alphabet leaves out are refused in either case.
    assert_eq!(ulid_from_bytes(&b("0000000000000000000000000z")), Some(31));
    assert_eq!(ulid_from_bytes(&b("000000000000000000000000ah")), Some(10 * 32 + 17));
    assert_eq!(ulid_from_bytes(&b("0000000000000000000000000I")), None);
    assert_eq!(ulid_from_bytes(&b("0000000000000000000000000L")), None);
    assert_eq!(ulid_from_bytes(&b("0000000000000000000000000O")), None);
    assert_eq!(ulid_from_bytes(&b("0000000000000000000000000U")), None);
    assert_eq!(ulid_from_bytes(&b("0000000000000000000000000i")), None);
    assert_eq!(ulid_from_bytes(&b("0000000000000000000000000l")), None);
    assert_eq!(ulid_from_bytes(&b("0000000000000000000000000o")), None);
    assert_eq!(ulid_from_bytes(&b("0000000000000000000000000u")), None);
    assert_eq!(ulid_from_bytes(&b("short")), None);
}

#[test]
fn id_strings_sort_like_their_values() {
    // Time-ordered ids keep their order as strings.
    let mut strings: Vec<Vec<u8>> = [3u128, 700, 29, u128::MAX / 2]
        .iter()
        .map(|x| ulid_to_bytes(*x))
        .collect();
    strings.sort();
    assert_eq!(
        strings,
        vec![
            ulid_to_bytes(3),
            ulid_to_bytes(29),
            ulid_to_bytes(700),
            ulid_to_bytes(u128::MAX / 2)
        ]
    );
}
