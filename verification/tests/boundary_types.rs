//! The plain boundary types: webhook decisions and settings payloads.

use ovenauth::options::{PublicOptions, StreamOptions, UpdateStreamOptions};
use ovenauth::user::{LoginCredentials, RegisterCreds};
use ovenauth::webhook::WebhookResponse;

#[test]
fn webhook_decisions() {
    let a = WebhookResponse::allowed();
    assert!(a.allowed);
    assert_eq!(a.new_url, None);
    assert_eq!(a.lifetime, None);
    assert_eq!(a.reason, None);

    let r = WebhookResponse::redirect("rtmp://host/app/streamer".to_string());
    assert!(r.allowed);
    assert_eq!(r.new_url.as_deref(), Some("rtmp://host/app/streamer"));
    assert_eq!(r.reason, None);

    let d = WebhookResponse::denied("Unknown Application".to_string());
    assert!(!d.allowed);
    assert_eq!(d.new_url, None);
    assert_eq!(d.reason.as_deref(), Some("Unknown Application"));

    let n = WebhookResponse::new(true, None, Some(60), None);
    assert!(n.allowed);
    assert_eq!(n.lifetime, Some(60));

    let z = WebhookResponse::default();
    assert!(!z.allowed);
    assert_eq!(z.reason, None);
}

#[test]
fn settings_payloads_carry_their_fields() {
    let p = PublicOptions::default();
    assert_eq!(p.name, None);
    assert_eq!(p.emote_id, None);

    let s = StreamOptions {
        name: Some("main".to_string()),
        emote_id: None,
        token: "SECRET-REDACTED".to_string(),
        public: true,
    };
    assert_eq!(s.name.as_deref(), Some("main"));
    assert!(s.public);

    let u = UpdateStreamOptions { name: None, emote_id: None, token: true, public: Some(false) };
    assert!(u.token);
    assert_eq!(u.public, Some(false));

    let l = LoginCredentials { username: "ann".to_string(), password: "pw".to_string() };
    assert_eq!(l.username, "ann");

    let r = RegisterCreds {
        username: "bob".to_string(),
        password: "pw".to_string(),
        password_confirmation: "pw".to_string(),
        secret_code: "code".to_string(),
    };
    assert_eq!(r.password, r.password_confirmation);
}
