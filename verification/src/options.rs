//! Per-account stream settings as they cross the core's boundary. The
//! persistent store that fills and updates them is an external
//! collaborator; the core only carries the values.

use vstd::prelude::*;

verus! {

/// The publicly visible part of a stream's settings.
#[derive(Debug)]
pub struct PublicOptions {
    pub name: Option<String>,
    pub emote_id: Option<String>,
}

impl Default for PublicOptions {
    /// Empty settings: nothing chosen yet.
    fn default() -> (r: Self)
        ensures
            r.name is None,
            r.emote_id is None,
    {
        PublicOptions { name: None, emote_id: None }
    }
}

/// A stream's full settings, including its ingest token.
#[derive(Debug)]
pub struct StreamOptions {
    pub name: Option<String>,
    pub emote_id: Option<String>,
    pub token: String,
    pub public: bool,
}

/// A requested settings change: absent fields keep their value, and
/// `token` asks for the ingest token to be rotated.
#[derive(Debug)]
pub struct UpdateStreamOptions {
    pub name: Option<String>,
    pub emote_id: Option<String>,
    pub token: bool,
    pub public: Option<bool>,
}

} // verus!
