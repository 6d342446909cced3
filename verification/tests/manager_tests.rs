use ladder_legends_uploader::manager::{group_replays_by_type_and_player, ReplayMapEntry};
use ladder_legends_uploader::tracker::ReplayFileInfo;
use ladder_legends_uploader::watcher::get_file_processing_delay_ms;

fn entry(hash: &str, filename: &str, game_type: &str, player: &str) -> ReplayMapEntry {
    (
        hash.to_string(),
        (
            ReplayFileInfo {
                path: format!("/replays/{}", filename),
                filename: filename.to_string(),
                filesize: 5,
                modified_time: 0,
            },
            game_type.to_string(),
            player.to_string(),
        ),
    )
}

#[test]
fn test_group_replays_by_type_and_player_empty() {
    let hashes: Vec<String> = vec![];
    let replay_map: Vec<ReplayMapEntry> = vec![];

    let groups = group_replays_by_type_and_player(&hashes, &replay_map);

    assert_eq!(groups.len(), 0, "Empty input should produce no groups");
}

#[test]
fn test_group_replays_by_type_and_player_single_group() {
    let hashes = vec!["hash1".to_string(), "hash2".to_string()];
    let replay_map = vec![
        entry("hash1", "replay1.SC2Replay", "1v1-ladder", "lotus"),
        entry("hash2", "replay2.SC2Replay", "1v1-ladder", "lotus"),
    ];

    let groups = group_replays_by_type_and_player(&hashes, &replay_map);

    assert_eq!(groups.len(), 1, "Should have one group for same type/player");
    assert_eq!(groups[0].game_type, "1v1-ladder");
    assert_eq!(groups[0].player_name, "lotus");
    assert_eq!(groups[0].hashes.len(), 2);
    assert!(groups[0].hashes.contains(&"hash1".to_string()));
    assert!(groups[0].hashes.contains(&"hash2".to_string()));
}

#[test]
fn test_group_replays_by_type_and_player_multiple_players() {
    let hashes = vec!["hash1".to_string(), "hash2".to_string()];
    let replay_map = vec![
        entry("hash1", "replay1.SC2Replay", "1v1-ladder", "lotus"),
        entry("hash2", "replay2.SC2Replay", "1v1-ladder", "lotusAlt"),
    ];

    let groups = group_replays_by_type_and_player(&hashes, &replay_map);

    assert_eq!(groups.len(), 2, "Should have two groups for different players");
    // Groups should be sorted by player name
    assert_eq!(groups[0].player_name, "lotus");
    assert_eq!(groups[1].player_name, "lotusAlt");
    assert_eq!(groups[0].hashes.len(), 1);
    assert_eq!(groups[1].hashes.len(), 1);
}

#[test]
fn test_group_replays_by_type_and_player_multiple_types() {
    let hashes = vec!["hash1".to_string(), "hash2".to_string()];
    let replay_map = vec![
        entry("hash1", "replay1.SC2Replay", "1v1-ladder", "lotus"),
        entry("hash2", "replay2.SC2Replay", "2v2-ladder", "lotus"),
    ];

    let groups = group_replays_by_type_and_player(&hashes, &replay_map);

    assert_eq!(groups.len(), 2, "Should have two groups for different types");
    // Groups should be sorted by game type
    assert_eq!(groups[0].game_type, "1v1-ladder");
    assert_eq!(groups[1].game_type, "2v2-ladder");
    assert_eq!(groups[0].hashes.len(), 1);
    assert_eq!(groups[1].hashes.len(), 1);
}

#[test]
fn test_group_replays_by_type_and_player_complex() {
    let hashes = vec![
        "hash1".to_string(),
        "hash2".to_string(),
        "hash3".to_string(),
        "hash4".to_string(),
    ];
    let replay_map = vec![
        entry("hash1", "replay1.SC2Replay", "1v1-ladder", "lotus"),
        entry("hash2", "replay2.SC2Replay", "1v1-ladder", "lotusAlt"),
        entry("hash3", "replay3.SC2Replay", "2v2-ladder", "lotus"),
        entry("hash4", "replay4.SC2Replay", "2v2-ladder", "lotusAlt"),
    ];

    let groups = group_replays_by_type_and_player(&hashes, &replay_map);

    assert_eq!(groups.len(), 4, "Should have four groups (2 types x 2 players)");

    // Verify sorting: 1v1-ladder < 2v2-ladder, then lotus < lotusAlt
    assert_eq!(groups[0].game_type, "1v1-ladder");
    assert_eq!(groups[0].player_name, "lotus");
    assert_eq!(groups[1].game_type, "1v1-ladder");
    assert_eq!(groups[1].player_name, "lotusAlt");
    assert_eq!(groups[2].game_type, "2v2-ladder");
    assert_eq!(groups[2].player_name, "lotus");
    assert_eq!(groups[3].game_type, "2v2-ladder");
    assert_eq!(groups[3].player_name, "lotusAlt");
}

#[test]
fn test_group_replays_by_type_and_player_missing_hash() {
    let hashes = vec!["hash1".to_string(), "hash_missing".to_string()];
    let replay_map = vec![entry("hash1", "replay1.SC2Replay", "1v1-ladder", "lotus")];

    let groups = group_replays_by_type_and_player(&hashes, &replay_map);

    assert_eq!(groups.len(), 1, "Should skip missing hash and create one group");
    assert_eq!(groups[0].hashes.len(), 1);
    assert_eq!(groups[0].hashes[0], "hash1");
}

#[test]
fn test_group_keeps_scanner_order_within_group() {
    let hashes = vec!["h3".to_string(), "h1".to_string(), "h2".to_string()];
    let replay_map = vec![
        entry("h1", "a.SC2Replay", "1v1-ladder", "lotus"),
        entry("h2", "b.SC2Replay", "1v1-ladder", "lotus"),
        entry("h3", "c.SC2Replay", "1v1-ladder", "lotus"),
    ];
    let groups = group_replays_by_type_and_player(&hashes, &replay_map);
    assert_eq!(groups.len(), 1);
    assert_eq!(groups[0].hashes, vec!["h3".to_string(), "h1".to_string(), "h2".to_string()]);
}

#[test]
fn test_get_file_processing_delay_ms() {
    let delay = get_file_processing_delay_ms();
    assert_eq!(delay, 500, "The settle delay is half a second");
}
