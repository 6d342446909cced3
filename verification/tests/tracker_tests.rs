use ladder_legends_uploader::tracker::{ReplayTracker, TrackedReplay};
use ladder_legends_uploader::codec::{serialize_tracker, parse_tracker_str,
    load_tracker_from_contents};

fn sample_replay(hash: &str) -> TrackedReplay {
    TrackedReplay {
        hash: hash.to_string(),
        filename: "test.SC2Replay".to_string(),
        filesize: 1000,
        uploaded_at: 123456789,
        filepath: "/test/path".to_string(),
    }
}

#[test]
fn test_tracker_new() {
    let tracker = ReplayTracker::new();
    assert_eq!(tracker.total_uploaded, 0);
    assert!(tracker.get_all().is_empty());
}

#[test]
fn test_is_uploaded() {
    let mut tracker = ReplayTracker::new();
    let hash = "abc123";

    assert!(!tracker.is_uploaded(hash));

    tracker.add_replay(TrackedReplay {
        hash: hash.to_string(),
        filename: "test.SC2Replay".to_string(),
        filesize: 1000,
        uploaded_at: 123456789,
        filepath: "/test/path".to_string(),
    });

    assert!(tracker.is_uploaded(hash));
}

#[test]
fn test_exists_by_metadata() {
    let mut tracker = ReplayTracker::new();

    tracker.add_replay(TrackedReplay {
        hash: "hash1".to_string(),
        filename: "replay1.SC2Replay".to_string(),
        filesize: 5000,
        uploaded_at: 123456789,
        filepath: "/test/replay1.SC2Replay".to_string(),
    });

    assert!(tracker.exists_by_metadata("replay1.SC2Replay", 5000));
    assert!(!tracker.exists_by_metadata("replay1.SC2Replay", 6000)); // Different size
    assert!(!tracker.exists_by_metadata("replay2.SC2Replay", 5000)); // Different name
}

#[test]
fn test_add_replay() {
    let mut tracker = ReplayTracker::new();

    let replay = TrackedReplay {
        hash: "hash1".to_string(),
        filename: "test.SC2Replay".to_string(),
        filesize: 1000,
        uploaded_at: 123456789,
        filepath: "/test/path".to_string(),
    };

    tracker.add_replay(replay.clone());
    assert_eq!(tracker.total_uploaded, 1);
    assert_eq!(tracker.get_by_hash("hash1"), Some(&replay));

    // Adding same hash again should not increase count
    tracker.add_replay(replay.clone());
    assert_eq!(tracker.total_uploaded, 1);
}

#[test]
fn test_get_all() {
    let mut tracker = ReplayTracker::new();

    tracker.add_replay(TrackedReplay {
        hash: "hash1".to_string(),
        filename: "replay1.SC2Replay".to_string(),
        filesize: 1000,
        uploaded_at: 123456789,
        filepath: "/test/replay1".to_string(),
    });

    tracker.add_replay(TrackedReplay {
        hash: "hash2".to_string(),
        filename: "replay2.SC2Replay".to_string(),
        filesize: 2000,
        uploaded_at: 123456790,
        filepath: "/test/replay2".to_string(),
    });

    let all = tracker.get_all();
    assert_eq!(all.len(), 2);
}

#[test]
fn test_tracked_replay_equality() {
    let replay1 = TrackedReplay {
        hash: "hash1".to_string(),
        filename: "test.SC2Replay".to_string(),
        filesize: 1000,
        uploaded_at: 123456789,
        filepath: "/test/path".to_string(),
    };

    let replay2 = TrackedReplay {
        hash: "hash1".to_string(),
        filename: "test.SC2Replay".to_string(),
        filesize: 1000,
        uploaded_at: 123456789,
        filepath: "/test/path".to_string(),
    };

    assert_eq!(replay1, replay2);
}

#[test]
fn test_manifest_version_default() {
    let tracker = ReplayTracker::new();
    assert_eq!(tracker.get_manifest_version(), "", "New tracker should have empty version");
}

#[test]
fn test_manifest_version_set_get() {
    let mut tracker = ReplayTracker::new();
    tracker.set_manifest_version("2025-11-30T12:00:00.000Z".to_string());
    assert_eq!(
        tracker.get_manifest_version(),
        "2025-11-30T12:00:00.000Z",
        "Should be able to set and get version"
    );
}

#[test]
fn test_clear_preserves_manifest_version() {
    let mut tracker = ReplayTracker::new();

    // Add some replays and set version
    tracker.add_replay(TrackedReplay {
        hash: "hash1".to_string(),
        filename: "test.SC2Replay".to_string(),
        filesize: 1000,
        uploaded_at: 123456789,
        filepath: "/test/path".to_string(),
    });
    tracker.set_manifest_version("2025-11-30T12:00:00.000Z".to_string());

    assert_eq!(tracker.total_uploaded, 1);
    assert_eq!(tracker.get_manifest_version(), "2025-11-30T12:00:00.000Z");

    // Clear should remove replays but not change version
    tracker.clear();

    assert_eq!(tracker.total_uploaded, 0, "Should have no replays after clear");
    assert!(!tracker.is_uploaded("hash1"), "Should not find cleared replay");
    // Note: version is preserved but will be updated by sync logic
    assert_eq!(
        tracker.get_manifest_version(),
        "2025-11-30T12:00:00.000Z",
        "Version should be preserved"
    );
}

#[test]
fn test_calculate_hash() {
    let contents = b"test content";
    let hash = ReplayTracker::calculate_hash(contents);
    assert_eq!(hash.len(), 64); // SHA-256 produces 64 hex characters

    // Same content should produce same hash
    let hash2 = ReplayTracker::calculate_hash(contents);
    assert_eq!(hash, hash2);
}

#[test]
fn test_calculate_hash_different_content() {
    let hash1 = ReplayTracker::calculate_hash(b"content1");
    let hash2 = ReplayTracker::calculate_hash(b"content2");
    assert_ne!(hash1, hash2);
}

#[test]
fn test_calculate_hash_known_digest() {
    // The well-known SHA-256 of "abc".
    let hash = ReplayTracker::calculate_hash(b"abc");
    assert_eq!(hash, "ba7816bf8f01cfea414140de5dae2223b00361a396177a9cb410ff61f20015ad");
}

#[test]
fn test_serialize_deserialize() {
    let mut tracker = ReplayTracker::new();

    tracker.add_replay(TrackedReplay {
        hash: "hash1".to_string(),
        filename: "test.SC2Replay".to_string(),
        filesize: 1000,
        uploaded_at: 123456789,
        filepath: "/test/path".to_string(),
    });

    let json = serialize_tracker(&tracker);
    let deserialized = parse_tracker_str(&json).expect("Document should parse");

    assert_eq!(tracker.total_uploaded, deserialized.total_uploaded);
    assert_eq!(tracker.get_all().len(), deserialized.get_all().len());
}

#[test]
fn test_manifest_version_serialization() {
    let mut tracker = ReplayTracker::new();
    tracker.set_manifest_version("2025-11-30T12:00:00.000Z".to_string());
    tracker.add_replay(sample_replay("hash1"));

    let json = serialize_tracker(&tracker);
    assert!(json.contains("manifest_version"), "JSON should contain manifest_version");
    assert!(json.contains("2025-11-30T12:00:00.000Z"), "JSON should contain the version value");

    let deserialized = parse_tracker_str(&json).expect("Document should parse");
    assert_eq!(
        deserialized.get_manifest_version(),
        "2025-11-30T12:00:00.000Z",
        "Deserialized version should match"
    );
    assert_eq!(deserialized.total_uploaded, 1, "Deserialized should have 1 replay");
}

#[test]
fn test_round_trip_deep_equality() {
    let mut tracker = ReplayTracker::new();
    tracker.set_manifest_version("2025-11-30T12:00:00.000Z".to_string());
    let replay = TrackedReplay {
        hash: "abc123".to_string(),
        filename: "game.SC2Replay".to_string(),
        filesize: 2048,
        uploaded_at: 1700000000,
        filepath: "/replays/game.SC2Replay".to_string(),
    };
    tracker.add_replay(replay.clone());

    let saved = serialize_tracker(&tracker);
    let loaded = parse_tracker_str(&saved).expect("Round trip should parse");
    assert_eq!(loaded.total_uploaded, 1, "Round-trip total_uploaded should match");
    assert_eq!(
        loaded.get_manifest_version(),
        "2025-11-30T12:00:00.000Z",
        "Round-trip manifest_version should match"
    );
    let loaded_replay = loaded.get_by_hash("abc123").expect(
        "Round-trip replay should be present by hash",
    );
    assert_eq!(*loaded_replay, replay, "Round-trip replay data should match exactly");
}

#[test]
fn test_round_trip_escapes_and_unicode() {
    let mut tracker = ReplayTracker::new();
    tracker.set_manifest_version("v\"quoted\"\\slash\n".to_string());
    tracker.add_replay(TrackedReplay {
        hash: "h1".to_string(),
        filename: "홍길동의 경기.SC2Replay".to_string(),
        filesize: u64::MAX,
        uploaded_at: 0,
        filepath: "C:\\Users\\홍길동\\replay.SC2Replay".to_string(),
    });

    let saved = serialize_tracker(&tracker);
    let loaded = parse_tracker_str(&saved).expect("Escaped document should parse");
    assert_eq!(loaded.get_manifest_version(), "v\"quoted\"\\slash\n");
    let r = loaded.get_by_hash("h1").unwrap();
    assert_eq!(r.filename, "홍길동의 경기.SC2Replay");
    assert_eq!(r.filesize, u64::MAX);
    assert_eq!(r.filepath, "C:\\Users\\홍길동\\replay.SC2Replay");
}

#[test]
fn test_save_load_converges_after_one_cycle() {
    let mut tracker = ReplayTracker::new();
    tracker.add_replay(sample_replay("hash1"));
    let first_save = serialize_tracker(&tracker);
    let first_load = parse_tracker_str(&first_save).unwrap();
    let second_save = serialize_tracker(&first_load);
    assert_eq!(first_save, second_save, "Saving the loaded tracker changes nothing");
    let second_load = parse_tracker_str(&second_save).unwrap();
    assert_eq!(second_load.total_uploaded, first_load.total_uploaded);
    assert_eq!(second_load.get_manifest_version(), first_load.get_manifest_version());
}

#[test]
fn test_manifest_version_backward_compatibility() {
    // Old tracker files may lack manifest_version entirely.
    let json_content = r#"{
            "replays": {
                "hash1": {
                    "hash": "hash1",
                    "filename": "test.SC2Replay",
                    "filesize": 1000,
                    "uploaded_at": 123456789,
                    "filepath": "/test/path"
                }
            },
            "total_uploaded": 1
        }"#;

    let tracker = parse_tracker_str(json_content).expect("Old format should parse");
    assert_eq!(tracker.get_manifest_version(), "", "Old format should default to empty version");
    assert_eq!(tracker.total_uploaded, 1, "Should still load replays");
}

#[test]
fn test_legacy_integer_manifest_version() {
    // Historical documents store the version as an integer: it normalises to
    // the empty string so the next server check forces a re-sync.
    let json_content = r#"{
            "replays": {
                "hash1": {
                    "hash": "hash1",
                    "filename": "test.SC2Replay",
                    "filesize": 1000,
                    "uploaded_at": 123456789,
                    "filepath": "/test/path"
                }
            },
            "total_uploaded": 1,
            "manifest_version": 0
        }"#;

    let tracker = parse_tracker_str(json_content).expect("Legacy format should parse");
    assert_eq!(tracker.get_manifest_version(), "");
    assert_eq!(tracker.total_uploaded, 1);
    assert!(tracker.is_uploaded("hash1"));

    let nonzero = json_content.replace("\"manifest_version\": 0", "\"manifest_version\": 7");
    let tracker2 = parse_tracker_str(&nonzero).expect("Nonzero legacy version should parse");
    assert_eq!(tracker2.get_manifest_version(), "");
}

#[test]
fn test_corrupted_tracker_falls_back_to_empty() {
    let tracker = load_tracker_from_contents(Some("{\"replays\": {broken json"));
    assert_eq!(tracker.total_uploaded, 0, "Corrupted tracker should fall back to empty");
    assert_eq!(tracker.get_manifest_version(), "");
}

#[test]
fn test_load_nonexistent_tracker() {
    // An absent file loads as the empty tracker.
    let tracker = load_tracker_from_contents(None);
    assert_eq!(tracker.total_uploaded, 0);
    assert_eq!(tracker.get_manifest_version(), "");
}

#[test]
fn test_total_uploaded_mismatch_rejected() {
    // A document whose stored total disagrees with its entries falls back to
    // the empty tracker.
    let json_content = r#"{"replays":{},"total_uploaded":3,"manifest_version":""}"#;
    let tracker = load_tracker_from_contents(Some(json_content));
    assert_eq!(tracker.total_uploaded, 0);
}
