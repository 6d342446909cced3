//! The application's lifecycle state, from folder detection through
//! authentication.

use vstd::prelude::*;

verus! {

/// The phases the application moves through.
#[derive(Debug, Clone)]
pub enum AppState {
    /// Looking for the game's replay folders.
    DetectingFolder,
    /// A replay folder was found.
    FolderFound { path: String },
    /// The user must authenticate.
    NeedsAuth,
    /// Showing the device code for the user to enter.
    ShowingCode {
        user_code: String,
        device_code: String,
        verification_uri: String,
        expires_at: u64,
    },
    /// Waiting for the authorisation to complete.
    Polling { device_code: String },
    /// The user is authenticated.
    Authenticated { username: String, avatar_url: String },
    /// Something went wrong.
    Error { message: String },
}

} // verus!
