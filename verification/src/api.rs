//! The wire contract with the remote service: request and response shapes
//! for the hash check, the upload, the manifest version, the user settings
//! and the device authorisation flow, plus the small decisions made on them.

use vstd::prelude::*;

verus! {

/// Request to learn which replay hashes the server does not yet hold.
#[derive(Debug, Clone)]
pub struct CheckHashesRequest {
    pub hashes: Vec<HashInfo>,
}

/// One replay named by content hash, filename and size.
#[derive(Debug, Clone)]
#[verifier::ext_equal]
pub struct HashInfo {
    pub hash: String,
    pub filename: String,
    pub filesize: u64,
}

/// The server's answer: which hashes are new, how many already exist.
#[derive(Debug, Clone)]
pub struct CheckHashesResponse {
    pub new_hashes: Vec<String>,
    pub existing_count: usize,
    pub total_submitted: usize,
    pub manifest_version: String,
}

/// A replay as stored by the server.
#[derive(Debug, Clone)]
pub struct StoredReplay {
    pub id: String,
    pub discord_user_id: String,
    pub uploaded_at: String,
    pub filename: String,
    pub fingerprint: Option<ReplayFingerprint>,
}

/// The server's summary of an analysed replay.
#[derive(Debug, Clone)]
pub struct ReplayFingerprint {
    pub matchup: String,
    pub race: String,
    pub result: String,
    pub player_name: String,
    pub all_players: Vec<PlayerInfo>,
}

/// A player as the server reports it.
#[derive(Debug, Clone)]
pub struct PlayerInfo {
    pub name: String,
    pub race: String,
    pub result: String,
}

/// A successful upload answer.
#[derive(Debug, Clone)]
pub struct UploadReplaySuccess {
    pub success: bool,
    pub replay: StoredReplay,
}

/// A failed upload answer.
#[derive(Debug, Clone)]
pub struct UploadReplayError {
    pub success: bool,
    pub error: UploadError,
}

/// The error detail of a failed upload.
#[derive(Debug, Clone)]
pub struct UploadError {
    pub code: String,
    pub message: String,
    pub retryable: bool,
}

/// The two shapes an upload answer takes.
#[derive(Debug, Clone)]
pub enum UploadReplayResponse {
    Success(UploadReplaySuccess),
    Error(UploadReplayError),
}

impl UploadReplayResponse {
    pub fn is_success(&self) -> (r: bool)
        ensures
            r == (self is Success),
    {
        match self {
            UploadReplayResponse::Success(_) => true,
            UploadReplayResponse::Error(_) => false,
        }
    }

    /// The stored replay of a successful answer.
    pub fn replay(&self) -> (r: Option<&StoredReplay>)
        ensures
            match self {
                UploadReplayResponse::Success(s) => r == Some(&s.replay),
                UploadReplayResponse::Error(_) => r is None,
            },
    {
        match self {
            UploadReplayResponse::Success(s) => Some(&s.replay),
            UploadReplayResponse::Error(_) => None,
        }
    }

    /// The error of a failed answer.
    pub fn error(&self) -> (r: Option<&UploadError>)
        ensures
            match self {
                UploadReplayResponse::Success(_) => r is None,
                UploadReplayResponse::Error(e) => r == Some(&e.error),
            },
    {
        match self {
            UploadReplayResponse::Success(_) => None,
            UploadReplayResponse::Error(e) => Some(&e.error),
        }
    }
}

/// The answer when listing the user's stored replays.
#[derive(Debug, Clone)]
pub struct GetReplaysResponse {
    pub replays: Vec<StoredReplay>,
}

/// A bare error answer from the service.
#[derive(Debug, Clone)]
pub struct ErrorResponse {
    pub error: String,
}

/// The answer of the manifest version endpoint.
#[derive(Debug, Clone)]
pub struct ManifestVersionResponse {
    pub manifest_version: String,
    pub checked_at: String,
}

/// Request opening a device authorisation.
#[derive(Debug, Clone)]
pub struct DeviceAuthRequest {
    pub client_id: String,
}

/// The server's device authorisation challenge.
#[derive(Debug, Clone)]
pub struct DeviceAuthResponse {
    pub device_code: String,
    pub user_code: String,
    pub verification_uri: String,
    pub expires_in: u32,
    pub interval: u32,
}

/// The authorised user, as the service reports it.
#[derive(Debug, Clone)]
pub struct UserInfo {
    pub id: String,
    pub username: String,
    pub avatar_url: Option<String>,
}

/// The states a device authorisation poll can report.
#[derive(Debug, Clone)]
pub enum DevicePollResponse {
    Pending,
    Expired,
    Denied,
    Success {
        access_token: String,
        refresh_token: String,
        token_type: String,
        expires_in: u32,
        user: Option<UserInfo>,
    },
}

impl DevicePollResponse {
    pub fn is_success(&self) -> (r: bool)
        ensures
            r == (self is Success),
    {
        match self {
            DevicePollResponse::Success { .. } => true,
            _ => false,
        }
    }

    /// The access and refresh tokens of a completed authorisation.
    pub fn tokens(&self) -> (r: Option<(&str, &str)>)
        ensures
            match self {
                DevicePollResponse::Success { access_token, refresh_token, .. } => match r {
                    Some(t) => t.0@ == access_token@ && t.1@ == refresh_token@,
                    None => false,
                },
                _ => r is None,
            },
    {
        match self {
            DevicePollResponse::Success { access_token, refresh_token, .. } => Some(
                (access_token.as_str(), refresh_token.as_str()),
            ),
            _ => None,
        }
    }
}

/// The settings endpoint's answer.
#[derive(Debug, Clone)]
pub struct UserSettingsResponse {
    pub settings: UserSettings,
}

/// The user's stored settings; the possible player names come with the count
/// of replays each was seen in.
#[derive(Debug, Clone)]
pub struct UserSettings {
    pub discord_user_id: String,
    pub default_race: Option<String>,
    pub favorite_builds: Vec<String>,
    pub confirmed_player_names: Vec<String>,
    pub possible_player_names: Vec<(String, u32)>,
    pub created_at: String,
    pub updated_at: String,
}

/// The player names a scan filters by: the confirmed names followed by the
/// possible ones.
pub fn merge_player_names(settings: &UserSettings) -> (r: Vec<String>)
    ensures
        r@.len() == settings.confirmed_player_names@.len()
            + settings.possible_player_names@.len(),
        forall|i: int|
            0 <= i < settings.confirmed_player_names@.len() ==> #[trigger] r@[i]@
                == settings.confirmed_player_names@[i]@,
        forall|i: int|
            0 <= i < settings.possible_player_names@.len() ==> #[trigger] r@[settings.confirmed_player_names@.len() + i]@ == settings.possible_player_names@[i].0@,
{
    let mut r: Vec<String> = Vec::new();
    let mut i: usize = 0;
    while i < settings.confirmed_player_names.len()
        invariant
            i <= settings.confirmed_player_names@.len(),
            r@.len() == i,
            forall|j: int|
                0 <= j < i ==> #[trigger] r@[j]@ == settings.confirmed_player_names@[j]@,
        decreases settings.confirmed_player_names@.len() - i,
    {
        r.push(settings.confirmed_player_names[i].clone());
        i += 1;
    }
    let mut k: usize = 0;
    while k < settings.possible_player_names.len()
        invariant
            k <= settings.possible_player_names@.len(),
            r@.len() == settings.confirmed_player_names@.len() + k,
            forall|j: int|
                0 <= j < settings.confirmed_player_names@.len() ==> #[trigger] r@[j]@
                    == settings.confirmed_player_names@[j]@,
            forall|j: int|
                0 <= j < k ==> #[trigger] r@[settings.confirmed_player_names@.len() + j]@
                    == settings.possible_player_names@[j].0@,
        decreases settings.possible_player_names@.len() - k,
    {
        r.push(settings.possible_player_names[k].0.clone());
        k += 1;
    }
    r
}

} // verus!
