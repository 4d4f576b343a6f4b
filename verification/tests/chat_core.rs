//! End-to-end behavior of the chat core: connect snapshots, message
//! flow, presence, history replay, and the wire encoding.

use ovenauth::chat::{snapshot_frames, ChatEnvelope, ChatMessage, ChatRegistry};
use ovenauth::error::CoreError;
use ovenauth::fanout::Recv;

fn b(s: &str) -> Vec<u8> {
    s.as_bytes().to_vec()
}

fn msg(id: u128, content: &str, author: &str, ts: &str, reply_to: Option<u128>) -> ChatMessage {
    ChatMessage {
        message_id: id,
        content: b(content),
        author: b(author),
        timestamp: b(ts),
        reply_to,
    }
}

#[test]
fn connect_first_user_sees_empty_room() {
    let mut reg = ChatRegistry::new();
    let info = reg.connect(&b("x"), Some(&b("A")));
    assert_eq!(info.join_count, Some(1));
    assert!(info.users.is_empty());
    assert!(info.history.is_empty());
    let frames = snapshot_frames(&info);
    assert_eq!(frames.len(), 1);
    assert_eq!(frames[0], b(r#"{"type":"connect","data":[]}"#));
}

#[test]
fn chat_scenario_two_users() {
    let mut reg = ChatRegistry::new();
    let room = b("x");

    // A connects and is told the room is empty.
    let a = reg.connect(&room, Some(&b("A")));
    assert_eq!(snapshot_frames(&a)[0], b(r#"{"type":"connect","data":[]}"#));
    reg.announce_join(&room, &b("A")).unwrap();
    match reg.outbound_step(&room, a.rid).unwrap() {
        Recv::Value(f) => assert_eq!(f, b(r#"{"type":"join","data":"A"}"#)),
        _ => panic!("expected A's own join envelope"),
    }

    // A sends "hi"; A receives it back as a msg envelope.
    reg.handle_inbound_frame(&room, &b("A"), &b(r#"{"content":"hi","reply_to":null}"#), 5, b("T"))
        .unwrap();
    let expected_msg = r#"{"type":"msg","data":{"message_id":"00000000000000000000000005","content":"hi","author":"A","timestamp":"T","reply_to":null}}"#;
    match reg.outbound_step(&room, a.rid).unwrap() {
        Recv::Value(f) => assert_eq!(f, b(expected_msg)),
        _ => panic!("expected the msg envelope"),
    }

    // B connects: sees A present and the buffered message, then nothing.
    let bb = reg.connect(&room, Some(&b("B")));
    let frames = snapshot_frames(&bb);
    assert_eq!(frames.len(), 2);
    assert_eq!(frames[0], b(r#"{"type":"connect","data":["A"]}"#));
    assert_eq!(
        frames[1],
        b(r#"{"type":"msg","data":{"message_id":"00000000000000000000000005","content":"hi","author":"A","timestamp":"T","reply_to":null}}"#)
    );
    match reg.outbound_step(&room, bb.rid).unwrap() {
        Recv::Empty => {}
        _ => panic!("B must see nothing further until new activity"),
    }

    // A disconnects: B receives the leave envelope.
    let left = reg.disconnect(&room, Some(&b("A")), a.rid).unwrap();
    assert!(left);
    match reg.outbound_step(&room, bb.rid).unwrap() {
        Recv::Value(f) => assert_eq!(f, b(r#"{"type":"leave","data":"A"}"#)),
        _ => panic!("expected the leave envelope"),
    }
}

#[test]
fn second_tab_joins_silently() {
    let mut reg = ChatRegistry::new();
    let room = b("x");
    let a1 = reg.connect(&room, Some(&b("A")));
    reg.announce_join(&room, &b("A")).unwrap();
    // Second connection of the same user: count goes to 2, no join envelope.
    let a2 = reg.connect(&room, Some(&b("A")));
    assert_eq!(a2.join_count, Some(2));
    assert_eq!(a2.users, vec![b("A")]);
    reg.announce_join(&room, &b("A")).unwrap();
    // a2 subscribed after the first join; nothing new was published since.
    match reg.outbound_step(&room, a2.rid).unwrap() {
        Recv::Empty => {}
        _ => panic!("no second join may be broadcast"),
    }
    // Closing one tab publishes no leave; closing the last one does.
    assert!(!reg.disconnect(&room, Some(&b("A")), a2.rid).unwrap());
    assert!(reg.disconnect(&room, Some(&b("A")), a1.rid).unwrap());
}

#[test]
fn history_keeps_last_fifty() {
    let mut reg = ChatRegistry::new();
    let room = b("r");
    let viewer = reg.connect(&room, None);
    assert_eq!(viewer.join_count, None);
    for i in 0..55u32 {
        let frame = format!(r#"{{"content":"m{}","reply_to":null}}"#, i);
        reg.handle_inbound_frame(&room, &b("A"), &b(&frame), i as u128, b("T"))
            .unwrap();
    }
    let late = reg.connect(&room, None);
    assert_eq!(late.history.len(), 50);
    // The oldest five were evicted: the buffer holds messages 5..=54.
    assert_eq!(late.history[0].message_id, 5);
    assert_eq!(late.history[0].content, b("m5"));
    assert_eq!(late.history[49].message_id, 54);
    assert_eq!(late.history[49].content, b("m54"));
}

#[test]
fn new_viewer_gets_no_duplicate_and_no_gap() {
    let mut reg = ChatRegistry::new();
    let room = b("r");
    reg.handle_inbound_frame(&room, &b("A"), &b(r#"{"content":"old","reply_to":null}"#), 1, b("T"))
        .err();
    // No room yet: publishing before any connect is an internal error.
    assert_eq!(
        reg.publish_message(&b("nowhere"), msg(9, "x", "A", "T", None)),
        Err(CoreError::EntryMissing)
    );
    let first = reg.connect(&room, None);
    reg.handle_inbound_frame(&room, &b("A"), &b(r#"{"content":"one","reply_to":null}"#), 1, b("T"))
        .unwrap();
    let second = reg.connect(&room, None);
    // `second` replays "one" in its snapshot and must not receive it again.
    assert_eq!(second.history.len(), 1);
    reg.handle_inbound_frame(&room, &b("A"), &b(r#"{"content":"two","reply_to":null}"#), 2, b("T"))
        .unwrap();
    let mut seen = Vec::new();
    loop {
        match reg.outbound_step(&room, second.rid).unwrap() {
            Recv::Value(f) => seen.push(f),
            Recv::Empty => break,
            Recv::Lagged => panic!("no lag expected"),
        }
    }
    assert_eq!(seen.len(), 1);
    assert!(String::from_utf8(seen[0].clone()).unwrap().contains("two"));
    // The earlier viewer saw both.
    let mut seen_first = 0;
    loop {
        match reg.outbound_step(&room, first.rid).unwrap() {
            Recv::Value(_) => seen_first += 1,
            Recv::Empty => break,
            Recv::Lagged => panic!("no lag expected"),
        }
    }
    assert_eq!(seen_first, 2);
}

#[test]
fn malformed_inbound_frame_is_rejected() {
    let mut reg = ChatRegistry::new();
    let room = b("r");
    reg.connect(&room, Some(&b("A")));
    for bad in [
        r#"{"content":42,"reply_to":null}"#,
        r#"{"reply_to":null}"#,
        r#"{"content":"hi","reply_to":"notanid"}"#,
        r#"{"content":"hi","extra":"x"}"#,
        r#"{"content":"hi"} trailing"#,
        r#"not json"#,
        r#"{"content":"hi","content":"again"}"#,
    ] {
        assert_eq!(
            reg.handle_inbound_frame(&room, &b("A"), &b(bad), 1, b("T")),
            Err(CoreError::MalformedFrame),
            "frame should be rejected: {bad}"
        );
    }
    // Field order and whitespace are free; a reply id echoes back.
    let id22 = "00000000000000000000000022";
    let frame = format!(r#" {{ "reply_to" : "{}" , "content" : "re" }} "#, id22);
    reg.handle_inbound_frame(&room, &b("A"), &b(&frame), 3, b("T")).unwrap();
    let late = reg.connect(&room, None);
    assert_eq!(late.history.last().unwrap().reply_to, Some(66), "digits 2,2 in base 32");
}

#[test]
fn stamped_message_carries_fresh_id_and_time() {
    let mut reg = ChatRegistry::new();
    let room = b("r");
    let viewer = reg.connect(&room, None);
    reg.inbound_message(&room, &b("A"), &b(r#"{"content":"now","reply_to":null}"#))
        .unwrap();
    assert_eq!(
        reg.inbound_message(&room, &b("A"), &b("nonsense")),
        Err(CoreError::MalformedFrame)
    );
    let frame = match reg.outbound_step(&room, viewer.rid).unwrap() {
        Recv::Value(f) => f,
        _ => panic!("expected the stamped message"),
    };
    let v: serde_json::Value = serde_json::from_slice(&frame).unwrap();
    assert_eq!(v["data"]["content"], "now");
    // The stamped id is a canonical 26-character string.
    let id = v["data"]["message_id"].as_str().unwrap();
    assert!(ovenauth::codec::ulid_from_bytes(&id.as_bytes().to_vec()).is_some());
    // The timestamp renders as RFC 3339 UTC text.
    let ts = v["data"]["timestamp"].as_str().unwrap();
    assert!(ts.contains('T') && ts.ends_with('Z'), "unexpected timestamp shape: {ts}");
}

#[test]
fn disconnect_of_unknown_user_is_an_error() {
    let mut reg = ChatRegistry::new();
    let room = b("r");
    let v = reg.connect(&room, None);
    assert_eq!(
        reg.disconnect(&room, Some(&b("ghostuser")), v.rid),
        Err(CoreError::UserMissing)
    );
    assert_eq!(reg.disconnect(&b("missing"), None, 0), Err(CoreError::EntryMissing));
}

#[test]
fn slow_viewer_is_cut_off_after_capacity() {
    let mut reg = ChatRegistry::new();
    let room = b("r");
    let viewer = reg.connect(&room, None);
    // The fanout retains 100 envelopes; publish 105 without reading.
    for i in 0..105u32 {
        let frame = format!(r#"{{"content":"m{}","reply_to":null}}"#, i);
        reg.handle_inbound_frame(&room, &b("A"), &b(&frame), i as u128, b("T"))
            .unwrap();
    }
    // The session treats the lag as fatal and tears itself down.
    match reg.outbound_step(&room, viewer.rid).unwrap() {
        Recv::Lagged => {}
        _ => panic!("the viewer fell behind the retained window"),
    }
    reg.disconnect(&room, None, viewer.rid).unwrap();
}

#[test]
fn abort_connect_rolls_presence_back() {
    let mut reg = ChatRegistry::new();
    let room = b("r");
    let a1 = reg.connect(&room, Some(&b("A")));
    assert_eq!(a1.join_count, Some(1));
    // The snapshot could not be delivered: roll back before any join.
    reg.abort_connect(&room, Some(&b("A")), a1.rid).unwrap();
    let a2 = reg.connect(&room, Some(&b("A")));
    assert_eq!(a2.join_count, Some(1), "the aborted connect must not linger");
    assert!(a2.users.is_empty());
}

#[test]
fn envelope_encoding_escapes_strings() {
    let e = ChatEnvelope::Join(b("a\"b\\c\nd"));
    let f = ovenauth::chat::encode_envelope(&e);
    assert_eq!(f, b(r#"{"type":"join","data":"a\"b\\c\nd"}"#));
    let e2 = ChatEnvelope::Msg(msg(0, "tab\tctl\u{1}", "A", "T", Some(5)));
    let f2 = ovenauth::chat::encode_envelope(&e2);
    assert_eq!(
        f2,
        b(r#"{"type":"msg","data":{"message_id":"00000000000000000000000000","content":"tab\tctl\u0001","author":"A","timestamp":"T","reply_to":"00000000000000000000000005"}}"#)
    );
}

#[test]
fn inbound_parser_agrees_with_a_general_json_parser() {
    // The same frame read by serde_json yields the same content bytes.
    let frame = "{\"content\":\"\\ud83d\\ude00 \\u20ac \\n ok\",\"reply_to\":null}";
    let (c, r) = ovenauth::codec::parse_incoming_ex(&frame.as_bytes().to_vec()).unwrap();
    assert_eq!(r, None);
    let v: serde_json::Value = serde_json::from_str(frame).unwrap();
    assert_eq!(c, v["content"].as_str().unwrap().as_bytes().to_vec());
}

#[test]
fn envelope_json_is_valid_json() {
    // Cross-check the hand-rolled encoder against a general JSON parser.
    let e = ChatEnvelope::Msg(msg(77, "hi \"there\"", "Ann", "2023-01-01T00:00:00Z", None));
    let f = ovenauth::chat::encode_envelope(&e);
    let v: serde_json::Value = serde_json::from_slice(&f).unwrap();
    assert_eq!(v["type"], "msg");
    assert_eq!(v["data"]["content"], "hi \"there\"");
    assert_eq!(v["data"]["author"], "Ann");
    assert_eq!(v["data"]["reply_to"], serde_json::Value::Null);
    let c = ChatEnvelope::Connect(vec![b("A"), b("B")]);
    let fc = ovenauth::chat::encode_envelope(&c);
    let vc: serde_json::Value = serde_json::from_slice(&fc).unwrap();
    assert_eq!(vc["data"][0], "A");
    assert_eq!(vc["data"][1], "B");
}
