//! Stored authentication data: the bearer tokens and the user profile they
//! were issued to.

use vstd::prelude::*;

verus! {

/// The stored user profile.
#[derive(Debug, Clone, PartialEq)]
pub struct UserData {
    pub id: Option<String>,
    pub username: String,
    pub avatar_url: Option<String>,
}

/// The stored bearer credentials.
#[derive(Debug, Clone)]
pub struct AuthTokens {
    pub access_token: String,
    pub refresh_token: Option<String>,
    pub expires_at: Option<u64>,
    pub user: Option<UserData>,
}

} // verus!
