use ladder_legends_uploader::replay_path::{is_sc2_replay, parse_region_from_folder,
    extract_region_from_path};

#[test]
fn test_is_sc2_replay() {
    assert!(is_sc2_replay("game.SC2Replay"));
    assert!(is_sc2_replay("game.sc2replay"));
    assert!(is_sc2_replay("game.SC2REPLAY"));
    assert!(!is_sc2_replay("game.txt"));
    assert!(!is_sc2_replay("game"));
}

#[test]
fn test_is_sc2_replay_standard_extension() {
    assert!(is_sc2_replay("game.SC2Replay"));
    assert!(is_sc2_replay("/path/to/game.SC2Replay"));
    assert!(is_sc2_replay("C:\\Users\\Player\\Replays\\game.SC2Replay"));
}

#[test]
fn test_is_sc2_replay_case_insensitive() {
    // Windows may have different casing
    assert!(is_sc2_replay("game.sc2replay"));
    assert!(is_sc2_replay("game.SC2REPLAY"));
    assert!(is_sc2_replay("game.Sc2Replay"));
    assert!(is_sc2_replay("game.sC2rEpLaY"));
}

#[test]
fn test_is_sc2_replay_non_replay_files() {
    assert!(!is_sc2_replay("game.txt"));
    assert!(!is_sc2_replay("game.mp4"));
    assert!(!is_sc2_replay("SC2Replay.txt"));
    assert!(!is_sc2_replay("game"));
    assert!(!is_sc2_replay("/path/to/folder/"));
}

#[test]
fn test_is_sc2_replay_edge_cases() {
    assert!(!is_sc2_replay(""));
    assert!(!is_sc2_replay("."));
    assert!(!is_sc2_replay(".SC2Replay"));  // Hidden file, no name
    assert!(is_sc2_replay("a.SC2Replay"));  // Minimal valid name
}

#[test]
fn test_parse_region_from_folder() {
    assert_eq!(parse_region_from_folder("1-S2-1-123456"), "NA");
    assert_eq!(parse_region_from_folder("2-S2-1-123456"), "EU");
    assert_eq!(parse_region_from_folder("3-S2-1-123456"), "KR");
    assert_eq!(parse_region_from_folder("5-S2-1-123456"), "CN");
    assert_eq!(parse_region_from_folder("unknown-format"), "Unknown");
}

#[test]
fn test_extract_region_na() {
    let path = "/Users/test/StarCraft II/Accounts/123/1-S2-1-802768/Replays/test.SC2Replay";
    assert_eq!(extract_region_from_path(path), Some("NA".to_string()));

    let path2 = "/Users/test/1-S2-2-123456/replay.SC2Replay";
    assert_eq!(extract_region_from_path(path2), Some("NA".to_string()));
}

#[test]
fn test_extract_region_eu() {
    let path = "/Users/test/StarCraft II/Accounts/123/2-S2-1-802768/Replays/test.SC2Replay";
    assert_eq!(extract_region_from_path(path), Some("EU".to_string()));
}

#[test]
fn test_extract_region_kr() {
    let path = "/Users/test/StarCraft II/Accounts/123/3-S2-1-802768/Replays/test.SC2Replay";
    assert_eq!(extract_region_from_path(path), Some("KR".to_string()));
}

#[test]
fn test_extract_region_cn() {
    let path = "/Users/test/StarCraft II/Accounts/123/5-S2-1-802768/Replays/test.SC2Replay";
    assert_eq!(extract_region_from_path(path), Some("CN".to_string()));
}

#[test]
fn test_extract_region_none() {
    let path = "/Users/test/Documents/replays/test.SC2Replay";
    assert_eq!(extract_region_from_path(path), None);
}
