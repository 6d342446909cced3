use ladder_legends_uploader::game::{GameType, PlayerInfo, ReplaySlot, classify_game_type,
    classify_replay, players_from_slots};

#[test]
fn test_player_info_equality() {
    let player1 = PlayerInfo { name: "TestPlayer".to_string(), is_observer: false };

    let player2 = PlayerInfo { name: "TestPlayer".to_string(), is_observer: false };

    let player3 = PlayerInfo {
        name: "TestPlayer".to_string(),
        is_observer: true, // Different observer status
    };

    assert_eq!(player1, player2, "Players with same data should be equal");
    assert_ne!(player1, player3, "Players with different observer status should not be equal");
}

#[test]
fn test_player_info_debug() {
    let player = PlayerInfo { name: "TestPlayer".to_string(), is_observer: false };

    let debug_str = format!("{:?}", player);
    assert!(debug_str.contains("TestPlayer"));
    assert!(debug_str.contains("false"));
}

#[test]
fn test_uploadable_game_types() {
    // Exactly the 1v1 and 2v2 variants, without games against the computer
    // and practice, are uploadable.
    assert!(GameType::Ladder1v1.should_upload());
    assert!(GameType::Unranked1v1.should_upload());
    assert!(GameType::Private1v1.should_upload());
    assert!(GameType::Obs1v1.should_upload());
    assert!(GameType::Ladder2v2.should_upload());
    assert!(GameType::Unranked2v2.should_upload());
    assert!(GameType::Private2v2.should_upload());
    assert!(GameType::Obs2v2.should_upload());
    assert!(!GameType::VsAI1v1.should_upload());
    assert!(!GameType::TeamGame.should_upload());
    assert!(!GameType::Arcade.should_upload());
    assert!(!GameType::Practice.should_upload());
    assert!(!GameType::Other.should_upload());
}

#[test]
fn test_game_type_tags() {
    assert_eq!(GameType::Ladder1v1.as_str(), "1v1-ladder");
    assert_eq!(GameType::Unranked1v1.as_str(), "1v1-unranked");
    assert_eq!(GameType::Private1v1.as_str(), "1v1-private");
    assert_eq!(GameType::Obs1v1.as_str(), "1v1-obs");
    assert_eq!(GameType::VsAI1v1.as_str(), "1vAI");
    assert_eq!(GameType::Ladder2v2.as_str(), "2v2-ladder");
    assert_eq!(GameType::Unranked2v2.as_str(), "2v2-unranked");
    assert_eq!(GameType::Private2v2.as_str(), "2v2-private");
    assert_eq!(GameType::Obs2v2.as_str(), "2v2-obs");
    assert_eq!(GameType::TeamGame.as_str(), "team-game");
    assert_eq!(GameType::Arcade.as_str(), "arcade");
    assert_eq!(GameType::Practice.as_str(), "practice");
    assert_eq!(GameType::Other.as_str(), "other");
}

#[test]
fn test_classify_ladder_1v1() {
    let t = classify_game_type(&vec![1, 1], 2, 0, 0, true, true, false);
    assert_eq!(t, GameType::Ladder1v1);
}

#[test]
fn test_classify_variants() {
    assert_eq!(classify_game_type(&vec![1, 1], 2, 0, 0, true, false, false), GameType::Unranked1v1);
    assert_eq!(classify_game_type(&vec![1, 1], 2, 0, 0, false, false, false), GameType::Private1v1);
    assert_eq!(classify_game_type(&vec![1, 1], 2, 1, 0, true, true, false), GameType::Obs1v1);
    assert_eq!(classify_game_type(&vec![1, 1], 2, 0, 1, true, true, false), GameType::VsAI1v1);
    assert_eq!(classify_game_type(&vec![1], 1, 0, 1, false, false, false), GameType::VsAI1v1);
    assert_eq!(classify_game_type(&vec![2, 2], 4, 0, 0, true, true, false), GameType::Ladder2v2);
    assert_eq!(classify_game_type(&vec![2, 2], 4, 0, 0, true, false, false), GameType::Unranked2v2);
    assert_eq!(classify_game_type(&vec![2, 2], 4, 0, 0, false, false, false), GameType::Private2v2);
    assert_eq!(classify_game_type(&vec![2, 2], 4, 1, 0, true, true, false), GameType::Obs2v2);
    assert_eq!(classify_game_type(&vec![3, 3], 6, 0, 0, true, true, false), GameType::TeamGame);
    assert_eq!(classify_game_type(&vec![3, 3], 6, 0, 0, false, false, false), GameType::TeamGame);
    assert_eq!(classify_game_type(&vec![5], 5, 0, 0, false, false, false), GameType::Arcade);
    assert_eq!(classify_game_type(&vec![], 0, 0, 0, true, true, false), GameType::Other);
    // Practice wins over everything else.
    assert_eq!(classify_game_type(&vec![1, 1], 2, 0, 0, true, true, true), GameType::Practice);
}

fn slot(name: &str, team: u8, observe: u8, control: u8) -> ReplaySlot {
    ReplaySlot { name: name.to_string(), team_id: team, observe, control }
}

#[test]
fn test_classify_replay_competitive_ladder() {
    // Two active humans on opposing teams, matchmade and competitive: a
    // ladder game.
    let slots = vec![slot("Lotus", 0, 0, 2), slot("Foe", 1, 0, 2)];
    let t = classify_replay(&slots, true, true, false);
    assert_eq!(t, GameType::Ladder1v1);
    assert_eq!(t.as_str(), "1v1-ladder");
}

#[test]
fn test_classify_replay_practice_flag() {
    let slots = vec![slot("Lotus", 0, 0, 2), slot("Partner", 1, 0, 2)];
    let t = classify_replay(&slots, true, true, true);
    assert_eq!(t, GameType::Practice);
    assert!(!t.should_upload());
}

#[test]
fn test_classify_replay_with_observer_and_ai() {
    let with_obs = vec![slot("A", 0, 0, 2), slot("B", 1, 0, 2), slot("Caster", 0, 1, 2)];
    assert_eq!(classify_replay(&with_obs, true, true, false), GameType::Obs1v1);

    let vs_ai = vec![slot("A", 0, 0, 2), slot("Computer", 1, 0, 3)];
    assert_eq!(classify_replay(&vs_ai, false, false, false), GameType::VsAI1v1);
}

#[test]
fn test_players_from_slots_omits_ai() {
    let slots = vec![
        slot("Lotus", 0, 0, 2),
        slot("Computer", 1, 0, 3),
        slot("Watcher", 0, 1, 2),
    ];
    let players = players_from_slots(&slots);
    assert_eq!(players.len(), 2);
    assert_eq!(players[0].name, "Lotus");
    assert!(!players[0].is_observer);
    assert_eq!(players[1].name, "Watcher");
    assert!(players[1].is_observer);
}
