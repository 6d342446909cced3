use ladder_legends_uploader::game::{GameType, PlayerInfo};
use ladder_legends_uploader::manager::group_replays_by_type_and_player;
use ladder_legends_uploader::scanner::{get_recent_replays, find_user_in_game, filter_candidates,
    dedup_hashed, select_new_replays, ParsedReplay, Candidate};
use ladder_legends_uploader::tracker::{ReplayTracker, ReplayFileInfo, TrackedReplay};

fn info(name: &str, size: u64, modified: u64) -> ReplayFileInfo {
    ReplayFileInfo {
        path: format!("/Accounts/123/1-S2-1-802768/Replays/Multiplayer/{}", name),
        filename: name.to_string(),
        filesize: size,
        modified_time: modified,
    }
}

fn parsed(game_type: GameType, names: &[&str]) -> ParsedReplay {
    ParsedReplay {
        game_type,
        players: names.iter().map(
            |n| PlayerInfo { name: n.to_string(), is_observer: false },
        ).collect(),
    }
}

#[test]
fn test_get_recent_replays_ordering() {
    let replays = vec![info("old.SC2Replay", 100, 0), info("new.SC2Replay", 200, 1_700_000_000)];

    let recent = get_recent_replays(replays, 10);
    assert_eq!(recent.len(), 2);
    assert_eq!(recent[0].filename, "new.SC2Replay"); // Newest first
}

#[test]
fn test_get_recent_replays_limit() {
    let replays: Vec<ReplayFileInfo> = (0..10).map(
        |i| info(&format!("replay{}.SC2Replay", i), i as u64, 0),
    ).collect();

    let recent = get_recent_replays(replays, 3);
    assert_eq!(recent.len(), 3);
}

#[test]
fn test_find_user_in_game_active_only() {
    let players = vec![
        PlayerInfo { name: "Watcher".to_string(), is_observer: true },
        PlayerInfo { name: "Lotus".to_string(), is_observer: false },
    ];
    let names = vec!["Lotus".to_string(), "Watcher".to_string()];
    // The observer does not count, even though the name matches.
    assert_eq!(find_user_in_game(&players, &names), Some("Lotus".to_string()));

    let only_observer = vec![PlayerInfo { name: "Lotus".to_string(), is_observer: true }];
    assert_eq!(find_user_in_game(&only_observer, &names), None);
}

#[test]
fn test_filter_candidates_empty_input() {
    // An empty folder list yields nothing to hash and nothing to send.
    let candidates: Vec<Candidate> = vec![];
    let tracker = ReplayTracker::new();
    let names = vec!["Lotus".to_string()];
    let out = filter_candidates(&candidates, &tracker, &names);
    assert_eq!(out.to_hash.len(), 0);
    assert_eq!(out.parse_failed_count, 0);
    assert_eq!(out.local_duplicate_count, 0);
}

#[test]
fn test_filter_candidates_practice_not_hashed() {
    // A practice game is dropped before any hash is computed.
    let candidates = vec![
        (info("practice.SC2Replay", 10, 5), Some(parsed(GameType::Practice, &["Lotus", "Foe"]))),
    ];
    let tracker = ReplayTracker::new();
    let names = vec!["Lotus".to_string()];
    let out = filter_candidates(&candidates, &tracker, &names);
    assert_eq!(out.to_hash.len(), 0);
    assert_eq!(out.non_competitive_count, 1);
}

#[test]
fn test_filter_candidates_parse_failure_skipped() {
    // A replay whose parse fails is skipped, aborts nothing, and is not
    // counted as a duplicate.
    let candidates = vec![
        (info("broken.SC2Replay", 10, 5), None),
        (info("good.SC2Replay", 11, 6), Some(parsed(GameType::Ladder1v1, &["Lotus", "Foe"]))),
    ];
    let tracker = ReplayTracker::new();
    let names = vec!["Lotus".to_string()];
    let out = filter_candidates(&candidates, &tracker, &names);
    assert_eq!(out.parse_failed_count, 1);
    assert_eq!(out.local_duplicate_count, 0);
    assert_eq!(out.to_hash.len(), 1);
    assert_eq!(out.to_hash[0].0.filename, "good.SC2Replay");
    assert_eq!(out.to_hash[0].1, "1v1-ladder");
    assert_eq!(out.to_hash[0].2, "Lotus");
}

#[test]
fn test_filter_candidates_user_must_play() {
    // Only replays in which one of the user's names plays actively go on.
    let candidates = vec![
        (info("other.SC2Replay", 10, 5), Some(parsed(GameType::Ladder1v1, &["Foo", "Bar"]))),
        (info("mine.SC2Replay", 11, 6), Some(parsed(GameType::Ladder1v1, &["Lotus", "Foe"]))),
    ];
    let tracker = ReplayTracker::new();
    let names = vec!["Lotus".to_string()];
    let out = filter_candidates(&candidates, &tracker, &names);
    assert_eq!(out.observer_game_count, 1);
    assert_eq!(out.to_hash.len(), 1);
    assert_eq!(out.to_hash[0].2, "Lotus");
}

#[test]
fn test_filter_candidates_metadata_duplicate() {
    let mut tracker = ReplayTracker::new();
    tracker.add_replay(TrackedReplay {
        hash: "h".to_string(),
        filename: "seen.SC2Replay".to_string(),
        filesize: 10,
        uploaded_at: 1,
        filepath: "/x/seen.SC2Replay".to_string(),
    });
    let candidates = vec![
        (info("seen.SC2Replay", 10, 5), Some(parsed(GameType::Ladder1v1, &["Lotus", "Foe"]))),
    ];
    let names = vec!["Lotus".to_string()];
    let out = filter_candidates(&candidates, &tracker, &names);
    assert_eq!(out.local_duplicate_count, 1);
    assert_eq!(out.to_hash.len(), 0);
}

#[test]
fn test_dedup_hashed_drops_known_hashes() {
    let mut tracker = ReplayTracker::new();
    tracker.add_replay(TrackedReplay {
        hash: "known".to_string(),
        filename: "old.SC2Replay".to_string(),
        filesize: 9,
        uploaded_at: 1,
        filepath: "/x/old.SC2Replay".to_string(),
    });
    let hashed = vec![
        (info("a.SC2Replay", 10, 5), "1v1-ladder".to_string(), "Lotus".to_string(),
            "fresh".to_string()),
        (info("b.SC2Replay", 11, 6), "1v1-ladder".to_string(), "Lotus".to_string(),
            "known".to_string()),
    ];
    let out = dedup_hashed(&hashed, &tracker);
    assert_eq!(out.hash_infos.len(), 1);
    assert_eq!(out.hash_infos[0].hash, "fresh");
    assert_eq!(out.hash_infos[0].filename, "a.SC2Replay");
    assert_eq!(out.hash_infos[0].filesize, 10);
    assert_eq!(out.local_duplicate_count, 1);
    assert_eq!(out.replay_map.len(), 1);
    assert_eq!(out.replay_map[0].0, "fresh");
}

#[test]
fn test_select_new_replays_no_new_hashes() {
    // Every replay already on the server: nothing to upload.
    let hashed = vec![
        (info("a.SC2Replay", 10, 5), "1v1-ladder".to_string(), "Lotus".to_string(),
            "h1".to_string()),
    ];
    let tracker = ReplayTracker::new();
    let out = dedup_hashed(&hashed, &tracker);
    let selected = select_new_replays(&out.replay_map, &vec![], 5);
    assert_eq!(selected.len(), 0);
}

#[test]
fn test_select_new_replays_respects_limit_and_map() {
    let hashed = vec![
        (info("a.SC2Replay", 10, 5), "1v1-ladder".to_string(), "Lotus".to_string(),
            "h1".to_string()),
        (info("b.SC2Replay", 11, 6), "1v1-ladder".to_string(), "Lotus".to_string(),
            "h2".to_string()),
        (info("c.SC2Replay", 12, 7), "1v1-ladder".to_string(), "Lotus".to_string(),
            "h3".to_string()),
    ];
    let tracker = ReplayTracker::new();
    let out = dedup_hashed(&hashed, &tracker);
    let new_hashes = vec!["h3".to_string(), "stranger".to_string(), "h1".to_string()];
    let selected = select_new_replays(&out.replay_map, &new_hashes, 2);
    // The first two new hashes are taken; the unknown one is dropped.
    assert_eq!(selected.len(), 1);
    assert_eq!(selected[0].hash, "h3");
    assert_eq!(selected[0].file_info.filename, "c.SC2Replay");

    let selected_all = select_new_replays(&out.replay_map, &new_hashes, 10);
    assert_eq!(selected_all.len(), 2);
    assert_eq!(selected_all[0].hash, "h3");
    assert_eq!(selected_all[1].hash, "h1");
}

#[test]
fn test_competitive_ladder_first_upload_flow() {
    // One competitive ladder replay, hint `Lotus`, the server calls its hash
    // new: one prepared upload, attributed and grouped deterministically.
    let file = info("ladder.SC2Replay", 1234, 42);
    let candidates = vec![(file, Some(parsed(GameType::Ladder1v1, &["Lotus", "Foe"])))];
    let tracker = ReplayTracker::new();
    let names = vec!["Lotus".to_string()];

    let filtered = filter_candidates(&candidates, &tracker, &names);
    assert_eq!(filtered.to_hash.len(), 1);

    let (fi, gt, pn) = filtered.to_hash[0].clone();
    let hash = ReplayTracker::calculate_hash(b"replay bytes");
    let hashed = vec![(fi, gt, pn, hash.clone())];
    let out = dedup_hashed(&hashed, &tracker);
    assert_eq!(out.hash_infos.len(), 1);

    let selected = select_new_replays(&out.replay_map, &vec![hash.clone()], 10);
    assert_eq!(selected.len(), 1);
    assert_eq!(selected[0].game_type, "1v1-ladder");
    assert_eq!(selected[0].player_name, "Lotus");

    let hashes: Vec<String> = selected.iter().map(|p| p.hash.clone()).collect();
    let groups = group_replays_by_type_and_player(&hashes, &out.replay_map);
    assert_eq!(groups.len(), 1);
    assert_eq!(groups[0].game_type, "1v1-ladder");
    assert_eq!(groups[0].player_name, "Lotus");
    assert_eq!(groups[0].hashes, vec![hash]);
}
