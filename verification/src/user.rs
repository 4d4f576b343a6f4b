//! Credential payloads as they cross the core's boundary. Verifying
//! them against the persistent store is an external collaborator's job;
//! the core only consumes an already-authenticated identity.

use vstd::prelude::*;

verus! {

/// What a returning user presents.
#[derive(Debug)]
pub struct LoginCredentials {
    pub username: String,
    pub password: String,
}

/// What a new user presents: the password twice, and the instance's
/// registration code.
#[derive(Debug)]
pub struct RegisterCreds {
    pub username: String,
    pub password: String,
    pub password_confirmation: String,
    pub secret_code: String,
}

} // verus!
