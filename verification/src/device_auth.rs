//! Response shapes of the device authorisation endpoints, as the library
//! consumes them; the HTTP calls themselves happen outside.

use vstd::prelude::*;

verus! {

/// The server's device-code challenge.
#[derive(Debug, Clone)]
pub struct DeviceCodeResponse {
    pub device_code: String,
    pub user_code: String,
    pub verification_uri: String,
    pub expires_in: u64,
    pub interval: u64,
}

/// The authorised user's profile.
#[derive(Debug, Clone)]
pub struct UserData {
    pub id: String,
    pub username: String,
    pub avatar_url: String,
}

/// A completed authorisation: the tokens and the user they belong to.
#[derive(Debug, Clone)]
pub struct AuthResponse {
    pub access_token: String,
    pub refresh_token: String,
    pub token_type: String,
    pub expires_in: u64,
    pub user: UserData,
}

/// An error answer from the authorisation endpoints.
#[derive(Debug, Clone)]
pub struct ErrorResponse {
    pub error: String,
    pub message: Option<String>,
}

} // verus!
