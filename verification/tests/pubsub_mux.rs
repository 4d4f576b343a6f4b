//! Channel lifecycle of the publish/subscribe registry and the
//! multiplexer session driving it.

use ovenauth::error::CoreError;
use ovenauth::pubsub::{close_session, MergeStep, MuxSession, PubSub};

fn b(s: &str) -> Vec<u8> {
    s.as_bytes().to_vec()
}

#[test]
fn mux_scenario_subscribe_publish_unsubscribe() {
    let mut reg = PubSub::new();
    let mut session = MuxSession::new();

    // Subscribe to p1 through a control frame.
    session
        .handle_control(&mut reg, &b(r#"{"Subscribe":{"channel_name":"p1"}}"#))
        .unwrap();
    assert_eq!(reg.channels.len(), 1);

    // A publish on p1 comes out tagged with its channel.
    reg.send(&b("p1"), b("x"));
    match session.merge_step(&mut reg) {
        MergeStep::Frame(f) => assert_eq!(f, b(r#"{"channel_name":"p1","msg":"x"}"#)),
        _ => panic!("expected the p1 payload"),
    }
    match session.merge_step(&mut reg) {
        MergeStep::Idle => {}
        _ => panic!("nothing further pending"),
    }

    // Unsubscribing the last subscriber removes the channel entirely.
    session
        .handle_control(&mut reg, &b(r#"{"Unsubscribe":{"channel_name":"p1"}}"#))
        .unwrap();
    assert_eq!(reg.channels.len(), 0, "the registry no longer lists p1");

    // A later publish on p1 is a silent no-op and creates nothing.
    reg.send(&b("p1"), b("y"));
    assert_eq!(reg.channels.len(), 0);
    match session.merge_step(&mut reg) {
        MergeStep::Idle => {}
        _ => panic!("no subscription, no output"),
    }
}

#[test]
fn resubscribed_channel_has_no_memory() {
    let mut reg = PubSub::new();
    let s1 = reg.subscribe(&b("c"));
    reg.send(&b("c"), b("before"));
    s1.unsubscribe(&mut reg).unwrap();
    assert_eq!(reg.channels.len(), 0);
    // A fresh subscribe sees none of the prior payloads.
    let mut session = MuxSession::new();
    session
        .handle_control(&mut reg, &b(r#"{"Subscribe":{"channel_name":"c"}}"#))
        .unwrap();
    match session.merge_step(&mut reg) {
        MergeStep::Idle => {}
        _ => panic!("a fresh channel must start empty"),
    }
}

#[test]
fn both_subscribers_receive_every_payload() {
    let mut reg = PubSub::new();
    let mut sess1 = MuxSession::new();
    let mut sess2 = MuxSession::new();
    sess1
        .handle_control(&mut reg, &b(r#"{"Subscribe":{"channel_name":"c"}}"#))
        .unwrap();
    sess2
        .handle_control(&mut reg, &b(r#"{"Subscribe":{"channel_name":"c"}}"#))
        .unwrap();
    reg.send(&b("c"), b("one"));
    reg.send(&b("c"), b("two"));
    for sess in [&sess1, &sess2] {
        let mut got = Vec::new();
        loop {
            match sess.merge_step(&mut reg) {
                MergeStep::Frame(f) => got.push(f),
                MergeStep::Idle => break,
                MergeStep::Lagged => panic!("no lag expected"),
            }
        }
        assert_eq!(
            got,
            vec![
                b(r#"{"channel_name":"c","msg":"one"}"#),
                b(r#"{"channel_name":"c","msg":"two"}"#),
            ]
        );
    }
}

#[test]
fn duplicate_subscribe_is_ignored_and_close_releases_all() {
    let mut reg = PubSub::new();
    let mut session = MuxSession::new();
    session
        .handle_control(&mut reg, &b(r#"{"Subscribe":{"channel_name":"a"}}"#))
        .unwrap();
    session
        .handle_control(&mut reg, &b(r#"{"Subscribe":{"channel_name":"a"}}"#))
        .unwrap();
    assert_eq!(session.subs.len(), 1, "one subscription per channel");
    session
        .handle_control(&mut reg, &b(r#"{"Subscribe":{"channel_name":"b"}}"#))
        .unwrap();
    // Another session keeps b alive after this one closes.
    let other = reg.subscribe(&b("b"));
    close_session(&mut reg, session);
    assert_eq!(reg.channels.len(), 1);
    assert_eq!(reg.channels[0].0, b("b"));
    other.unsubscribe(&mut reg).unwrap();
    assert_eq!(reg.channels.len(), 0);
}

#[test]
fn malformed_control_frame_is_rejected() {
    let mut reg = PubSub::new();
    let mut session = MuxSession::new();
    for bad in [
        r#"{"Subscribe":{"channel":"p1"}}"#,
        r#"{"Sub":{"channel_name":"p1"}}"#,
        r#"{"Subscribe":"p1"}"#,
        r#"{"Subscribe":{"channel_name":null}}"#,
        r#"{}"#,
        r#"[1,2]"#,
    ] {
        assert_eq!(
            session.handle_control(&mut reg, &b(bad)),
            Err(CoreError::MalformedFrame),
            "control frame should be rejected: {bad}"
        );
    }
    // Unsubscribing a channel the session does not hold is a no-op.
    session
        .handle_control(&mut reg, &b(r#"{"Unsubscribe":{"channel_name":"p1"}}"#))
        .unwrap();
    assert_eq!(reg.channels.len(), 0);
}

#[test]
fn slow_subscriber_lags_past_capacity() {
    let mut reg = PubSub::new();
    let mut session = MuxSession::new();
    session
        .handle_control(&mut reg, &b(r#"{"Subscribe":{"channel_name":"c"}}"#))
        .unwrap();
    // The channel keeps the last 100 payloads; publish 105 without reading.
    for i in 0..105u32 {
        reg.send(&b("c"), b(&format!("p{}", i)));
    }
    match session.merge_step(&mut reg) {
        MergeStep::Lagged => {}
        _ => panic!("the subscriber fell behind the retained window"),
    }
    // After skipping ahead it resumes with the oldest retained payload.
    match session.merge_step(&mut reg) {
        MergeStep::Frame(f) => assert_eq!(f, b(r#"{"channel_name":"c","msg":"p5"}"#)),
        _ => panic!("expected the oldest retained payload"),
    }
}
