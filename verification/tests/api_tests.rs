use ladder_legends_uploader::api::{UploadReplayResponse, UploadReplaySuccess, UploadReplayError,
    UploadError, StoredReplay, DevicePollResponse, UserSettings, merge_player_names};
use ladder_legends_uploader::config::config_file_path;
use ladder_legends_uploader::detector::build_replay_folders;
use ladder_legends_uploader::device_auth::{DeviceCodeResponse, UserData, AuthResponse};
use ladder_legends_uploader::state::AppState;
use ladder_legends_uploader::types::{AuthTokens, UserData as StoredUserData};
use ladder_legends_uploader::tracker::TrackedReplay;

fn stored_replay() -> StoredReplay {
    StoredReplay {
        id: "abc123".to_string(),
        discord_user_id: "123456".to_string(),
        uploaded_at: "2024-01-01T00:00:00Z".to_string(),
        filename: "test.SC2Replay".to_string(),
        fingerprint: None,
    }
}

#[test]
fn test_upload_response_success_accessors() {
    let response = UploadReplayResponse::Success(UploadReplaySuccess {
        success: true,
        replay: stored_replay(),
    });
    assert!(response.is_success());
    assert_eq!(response.replay().unwrap().id, "abc123");
    assert!(response.error().is_none());
}

#[test]
fn test_upload_response_error_accessors() {
    let response = UploadReplayResponse::Error(UploadReplayError {
        success: false,
        error: UploadError {
            code: "REPLAY_DUPLICATE".to_string(),
            message: "This replay has already been uploaded".to_string(),
            retryable: false,
        },
    });
    assert!(!response.is_success());
    assert!(response.replay().is_none());
    assert_eq!(response.error().unwrap().code, "REPLAY_DUPLICATE");
}

#[test]
fn test_device_poll_accessors() {
    let pending = DevicePollResponse::Pending;
    assert!(!pending.is_success());
    assert!(pending.tokens().is_none());

    let success = DevicePollResponse::Success {
        access_token: "token123".to_string(),
        refresh_token: "refresh456".to_string(),
        token_type: "Bearer".to_string(),
        expires_in: 3600,
        user: None,
    };
    assert!(success.is_success());
    let (access, refresh) = success.tokens().unwrap();
    assert_eq!(access, "token123");
    assert_eq!(refresh, "refresh456");
}

#[test]
fn test_merge_player_names() {
    let settings = UserSettings {
        discord_user_id: "1".to_string(),
        default_race: None,
        favorite_builds: vec![],
        confirmed_player_names: vec!["Lotus".to_string()],
        possible_player_names: vec![("LotusAlt".to_string(), 3)],
        created_at: "2024-01-01T00:00:00Z".to_string(),
        updated_at: "2024-01-01T00:00:00Z".to_string(),
    };
    let names = merge_player_names(&settings);
    assert_eq!(names, vec!["Lotus".to_string(), "LotusAlt".to_string()]);
}

#[test]
fn test_config_file_path_includes_filename() {
    let result = config_file_path("test.json");
    assert!(result.is_ok());
    let path = result.unwrap();
    assert!(path.contains("test.json"));
    assert!(path.contains("ladder-legends-uploader"));
}

#[test]
fn test_device_code_response_clone() {
    let response = DeviceCodeResponse {
        device_code: "test-code".to_string(),
        user_code: "ABCD-1234".to_string(),
        verification_uri: "https://example.com".to_string(),
        expires_in: 900,
        interval: 5,
    };

    let cloned = response.clone();
    assert_eq!(response.device_code, cloned.device_code);
    assert_eq!(response.user_code, cloned.user_code);
    assert_eq!(response.expires_in, cloned.expires_in);
}

#[test]
fn device_auth_test_user_data_clone() {
    let user = UserData {
        id: "123".to_string(),
        username: "Test".to_string(),
        avatar_url: "https://example.com".to_string(),
    };

    let cloned = user.clone();
    assert_eq!(user.id, cloned.id);
    assert_eq!(user.username, cloned.username);
    assert_eq!(user.avatar_url, cloned.avatar_url);
}

#[test]
fn test_auth_response_clone() {
    let response = AuthResponse {
        access_token: "access".to_string(),
        refresh_token: "refresh".to_string(),
        token_type: "Bearer".to_string(),
        expires_in: 3600,
        user: UserData {
            id: "123".to_string(),
            username: "Test".to_string(),
            avatar_url: "https://example.com".to_string(),
        },
    };

    let cloned = response.clone();
    assert_eq!(response.access_token, cloned.access_token);
    assert_eq!(response.user.id, cloned.user.id);
}

#[test]
fn test_auth_tokens_clone() {
    let auth_tokens = AuthTokens {
        access_token: "test-access-token".to_string(),
        refresh_token: Some("test-refresh-token".to_string()),
        expires_at: Some(1234567890),
        user: Some(StoredUserData {
            id: None,
            username: "TestUser".to_string(),
            avatar_url: Some("https://example.com/avatar.png".to_string()),
        }),
    };

    let cloned = auth_tokens.clone();
    assert_eq!(auth_tokens.access_token, cloned.access_token);
    assert_eq!(auth_tokens.refresh_token, cloned.refresh_token);
    assert_eq!(auth_tokens.expires_at, cloned.expires_at);
    assert_eq!(auth_tokens.user.as_ref().unwrap().username, cloned.user.as_ref().unwrap().username);
}

#[test]
fn types_test_user_data_clone() {
    let user_data = StoredUserData {
        id: None,
        username: "TestUser".to_string(),
        avatar_url: Some("https://example.com/avatar.png".to_string()),
    };

    let cloned = user_data.clone();
    assert_eq!(user_data.username, cloned.username);
    assert_eq!(user_data.avatar_url, cloned.avatar_url);
}

#[test]
fn test_app_state_clone() {
    let state1 = AppState::FolderFound { path: "/test/path".to_string() };
    let state2 = state1.clone();
    match state2 {
        AppState::FolderFound { path } => assert_eq!(path, "/test/path"),
        _ => panic!("expected the folder-found state"),
    }
}

#[test]
fn test_sc2_replay_folder_clone() {
    let listing = vec![("12345678".to_string(), vec![("1-S2-1-123456".to_string(), true)])];
    let folders = build_replay_folders("/Accounts", &listing);
    assert_eq!(folders.len(), 1);

    let folder = &folders[0];
    let cloned = folder.clone();
    assert_eq!(folder.path, cloned.path);
    assert_eq!(folder.account_id, cloned.account_id);
    assert_eq!(folder.region, cloned.region);
    assert_eq!(folder.region_code, cloned.region_code);
}

#[test]
fn test_build_replay_folders_layout() {
    let listing = vec![
        ("11111111".to_string(), vec![
            ("1-S2-1-111111".to_string(), true),
            ("2-S2-1-222222".to_string(), false),
        ]),
        ("22222222".to_string(), vec![("2-S2-1-222222".to_string(), true)]),
    ];
    let folders = build_replay_folders("/Accounts", &listing);
    assert_eq!(folders.len(), 2, "Only regions with a multiplayer directory are yielded");
    assert_eq!(folders[0].account_id, "11111111");
    assert_eq!(folders[0].region, "NA");
    assert_eq!(folders[0].region_code, "1-S2-1-111111");
    assert_eq!(folders[0].path, "/Accounts/11111111/1-S2-1-111111/Replays/Multiplayer");
    assert_eq!(folders[1].account_id, "22222222");
    assert_eq!(folders[1].region, "EU");
}

#[test]
fn test_build_replay_folders_empty() {
    let listing: Vec<(String, Vec<(String, bool)>)> = vec![];
    assert!(build_replay_folders("/Accounts", &listing).is_empty());

    let no_multiplayer = vec![("12345678".to_string(), vec![("1-S2-1-123456".to_string(), false)])];
    assert!(build_replay_folders("/Accounts", &no_multiplayer).is_empty());
}

#[test]
fn test_tracked_replay_fields() {
    let replay = TrackedReplay {
        hash: "h".to_string(),
        filename: "f.SC2Replay".to_string(),
        filesize: 1,
        uploaded_at: 2,
        filepath: "/f".to_string(),
    };
    let shown = format!("{:?}", replay);
    assert!(shown.contains("f.SC2Replay"));
}
