//! The answer the media server's authorization webhook sends back: let
//! the request through, redirect it, or refuse it with a reason.

use vstd::prelude::*;

verus! {

/// Decision on one ingest or playback request.
#[derive(Debug)]
pub struct WebhookResponse {
    pub allowed: bool,
    pub new_url: Option<String>,
    pub lifetime: Option<u64>,
    pub reason: Option<String>,
}

impl Default for WebhookResponse {
    /// The all-absent decision: not allowed, no redirect, no reason.
    fn default() -> (r: Self)
        ensures
            !r.allowed,
            r.new_url is None,
            r.lifetime is None,
            r.reason is None,
    {
        WebhookResponse { allowed: false, new_url: None, lifetime: None, reason: None }
    }
}

impl WebhookResponse {
    /// A decision with every field chosen.
    pub fn new(
        allowed: bool,
        new_url: Option<String>,
        lifetime: Option<u64>,
        reason: Option<String>,
    ) -> (r: Self)
        ensures
            r.allowed == allowed,
            r.new_url == new_url,
            r.lifetime == lifetime,
            r.reason == reason,
    {
        Self { allowed, new_url, lifetime, reason }
    }

    /// Let the request through unchanged.
    pub fn allowed() -> (r: Self)
        ensures
            r.allowed,
            r.new_url is None,
            r.lifetime is None,
            r.reason is None,
    {
        Self::new(true, None, None, None)
    }

    /// Let the request through, rewritten to `new_url`.
    pub fn redirect(new_url: String) -> (r: Self)
        ensures
            r.allowed,
            r.new_url == Some(new_url),
            r.lifetime is None,
            r.reason is None,
    {
        Self::new(true, Some(new_url), None, None)
    }

    /// Refuse the request, with the reason sent back.
    pub fn denied(reason: String) -> (r: Self)
        ensures
            !r.allowed,
            r.new_url is None,
            r.lifetime is None,
            r.reason == Some(reason),
    {
        Self::new(false, None, None, Some(reason))
    }
}

} // verus!
