use ladder_legends_uploader::inference::detect_user_player_names;

#[test]
fn test_detect_user_player_names_empty() {
    let replays = vec![];
    let detected = detect_user_player_names(&replays);
    assert_eq!(detected.len(), 0, "Should return empty vec for no replays");
}

#[test]
fn test_detect_user_player_names_single_player_1v1() {
    // User plays 1v1 against different opponents
    let replays = vec![
        ("replay1".to_string(), vec![("Lotus".to_string(), false), ("Opponent1".to_string(), false)]),
        ("replay2".to_string(), vec![("Lotus".to_string(), false), ("Opponent2".to_string(), false)]),
        ("replay3".to_string(), vec![("Lotus".to_string(), false), ("Opponent3".to_string(), false)]),
        ("replay4".to_string(), vec![("Lotus".to_string(), false), ("Opponent4".to_string(), false)]),
    ];

    let detected = detect_user_player_names(&replays);

    assert_eq!(detected.len(), 1, "Should detect one user");
    assert_eq!(detected[0], "Lotus", "Should detect 'Lotus' as the user");
}

#[test]
fn test_detect_user_player_names_filters_practice_partner() {
    // User plays 1v1, but has a frequent practice partner
    let replays = vec![
        ("replay1".to_string(), vec![("Lotus".to_string(), false), ("PracticePartner".to_string(), false)]),
        ("replay2".to_string(), vec![("Lotus".to_string(), false), ("PracticePartner".to_string(), false)]),
        ("replay3".to_string(), vec![("Lotus".to_string(), false), ("PracticePartner".to_string(), false)]),
        ("replay4".to_string(), vec![("Lotus".to_string(), false), ("Opponent1".to_string(), false)]),
        ("replay5".to_string(), vec![("Lotus".to_string(), false), ("Opponent2".to_string(), false)]),
    ];

    let detected = detect_user_player_names(&replays);

    assert_eq!(detected.len(), 1, "Should detect one user");
    assert_eq!(detected[0], "Lotus", "Should detect 'Lotus' as the user, not practice partner");
    assert!(!detected.contains(&"PracticePartner".to_string()), "Should filter out practice partner");
}

#[test]
fn test_detect_user_player_names_2v2_filters_teammate() {
    // User plays 2v2 with a frequent teammate
    let replays = vec![
        ("replay1".to_string(), vec![
            ("Lotus".to_string(), false),
            ("FrequentTeammate".to_string(), false),
            ("Enemy1".to_string(), false),
            ("Enemy2".to_string(), false),
        ]),
        ("replay2".to_string(), vec![
            ("Lotus".to_string(), false),
            ("FrequentTeammate".to_string(), false),
            ("Enemy3".to_string(), false),
            ("Enemy4".to_string(), false),
        ]),
        ("replay3".to_string(), vec![
            ("Lotus".to_string(), false),
            ("FrequentTeammate".to_string(), false),
            ("Enemy5".to_string(), false),
            ("Enemy6".to_string(), false),
        ]),
        ("replay4".to_string(), vec![
            ("Lotus".to_string(), false),
            ("RandomTeammate".to_string(), false),
            ("Enemy7".to_string(), false),
            ("Enemy8".to_string(), false),
        ]),
    ];

    let detected = detect_user_player_names(&replays);

    assert_eq!(detected.len(), 1, "Should detect one user");
    assert_eq!(detected[0], "Lotus", "Should detect 'Lotus' as the user");
    assert!(!detected.contains(&"FrequentTeammate".to_string()), "Should filter out frequent teammate");
}

#[test]
fn test_detect_user_player_names_multiple_smurfs() {
    // User has multiple accounts (smurfs)
    let replays = vec![
        ("replay1".to_string(), vec![("Lotus".to_string(), false), ("Opponent1".to_string(), false)]),
        ("replay2".to_string(), vec![("Lotus".to_string(), false), ("Opponent2".to_string(), false)]),
        ("replay3".to_string(), vec![("Lotus".to_string(), false), ("Opponent3".to_string(), false)]),
        ("replay4".to_string(), vec![("LotusAlt".to_string(), false), ("Opponent4".to_string(), false)]),
        ("replay5".to_string(), vec![("LotusAlt".to_string(), false), ("Opponent5".to_string(), false)]),
    ];

    let detected = detect_user_player_names(&replays);

    assert_eq!(detected.len(), 2, "Should detect two user accounts");
    assert_eq!(detected[0], "Lotus", "Should detect 'Lotus' as primary account (highest frequency)");
    assert_eq!(detected[1], "LotusAlt", "Should detect 'LotusAlt' as secondary account");
}

#[test]
fn test_detect_user_player_names_ignores_observers() {
    // Some replays have observers, should ignore them
    let replays = vec![
        ("replay1".to_string(), vec![
            ("Lotus".to_string(), false),
            ("Opponent1".to_string(), false),
            ("Observer1".to_string(), true),
        ]),
        ("replay2".to_string(), vec![
            ("Lotus".to_string(), false),
            ("Opponent2".to_string(), false),
            ("Observer2".to_string(), true),
            ("Observer3".to_string(), true),
        ]),
        ("replay3".to_string(), vec![
            ("Lotus".to_string(), false),
            ("Opponent3".to_string(), false),
        ]),
    ];

    let detected = detect_user_player_names(&replays);

    assert_eq!(detected.len(), 1, "Should detect one user");
    assert_eq!(detected[0], "Lotus", "Should detect 'Lotus' as the user");
    assert!(!detected.contains(&"Observer1".to_string()), "Should not detect observers");
    assert!(!detected.contains(&"Observer2".to_string()), "Should not detect observers");
}

#[test]
fn test_detect_user_player_names_complex_scenario() {
    // Mix of 1v1 and 2v2 games with multiple accounts
    let replays = vec![
        // 1v1 games on main account
        ("1v1_1".to_string(), vec![("Lotus".to_string(), false), ("Opponent1".to_string(), false)]),
        ("1v1_2".to_string(), vec![("Lotus".to_string(), false), ("Opponent2".to_string(), false)]),
        ("1v1_3".to_string(), vec![("Lotus".to_string(), false), ("Opponent3".to_string(), false)]),
        // 2v2 games on main account with frequent teammate
        ("2v2_1".to_string(), vec![
            ("Lotus".to_string(), false),
            ("FrequentTeammate".to_string(), false),
            ("Enemy1".to_string(), false),
            ("Enemy2".to_string(), false),
        ]),
        ("2v2_2".to_string(), vec![
            ("Lotus".to_string(), false),
            ("FrequentTeammate".to_string(), false),
            ("Enemy3".to_string(), false),
            ("Enemy4".to_string(), false),
        ]),
        // 1v1 games on alt account
        ("1v1_alt_1".to_string(), vec![("LotusAlt".to_string(), false), ("Opponent4".to_string(), false)]),
        ("1v1_alt_2".to_string(), vec![("LotusAlt".to_string(), false), ("Opponent5".to_string(), false)]),
    ];

    let detected = detect_user_player_names(&replays);

    assert_eq!(detected.len(), 2, "Should detect two user accounts");
    assert_eq!(detected[0], "Lotus", "Should detect 'Lotus' as primary");
    assert_eq!(detected[1], "LotusAlt", "Should detect 'LotusAlt' as secondary");
    assert!(!detected.contains(&"FrequentTeammate".to_string()), "Should filter out frequent teammate");
}

#[test]
fn test_detect_user_player_names_all_observers() {
    // Edge case: all players are observers
    let replays = vec![
        ("replay1".to_string(), vec![
            ("Observer1".to_string(), true),
            ("Observer2".to_string(), true),
        ]),
    ];

    let detected = detect_user_player_names(&replays);

    assert_eq!(detected.len(), 0, "Should return empty for all-observer games");
}

#[test]
fn test_detect_user_player_names_filters_single_occurrence() {
    // Players who appear only once should be filtered out
    let replays = vec![
        ("replay1".to_string(), vec![("Lotus".to_string(), false), ("Opponent1".to_string(), false)]),
        ("replay2".to_string(), vec![("Lotus".to_string(), false), ("Opponent2".to_string(), false)]),
        ("replay3".to_string(), vec![("Lotus".to_string(), false), ("Opponent3".to_string(), false)]),
    ];

    let detected = detect_user_player_names(&replays);

    assert_eq!(detected.len(), 1, "Should detect one user");
    assert_eq!(detected[0], "Lotus", "Should detect 'Lotus' as the user");
    assert!(!detected.contains(&"Opponent1".to_string()), "Should filter out single-occurrence players");
    assert!(!detected.contains(&"Opponent2".to_string()), "Should filter out single-occurrence players");
    assert!(!detected.contains(&"Opponent3".to_string()), "Should filter out single-occurrence players");
}

#[test]
fn test_detect_user_player_names_filters_ai_players() {
    // AI player names should be filtered out
    let replays = vec![
        ("ai1".to_string(), vec![("Lotus".to_string(), false), ("Computer".to_string(), false)]),
        ("ai2".to_string(), vec![("Lotus".to_string(), false), ("Computer".to_string(), false)]),
        ("ai3".to_string(), vec![("Lotus".to_string(), false), ("Computer".to_string(), false)]),
        ("ai4".to_string(), vec![("Lotus".to_string(), false), ("A.I.".to_string(), false)]),
        ("ai5".to_string(), vec![("Lotus".to_string(), false), ("Bot".to_string(), false)]),
    ];

    let detected = detect_user_player_names(&replays);

    assert_eq!(detected.len(), 1, "Should detect one user");
    assert_eq!(detected[0], "Lotus", "Should detect 'Lotus' as the user");
    assert!(!detected.contains(&"Computer".to_string()), "Should filter out 'Computer' AI name");
    assert!(!detected.contains(&"A.I.".to_string()), "Should filter out 'A.I.' AI name");
    assert!(!detected.contains(&"Bot".to_string()), "Should filter out 'Bot' AI name");
}

#[test]
fn test_detect_user_player_names_practice_partner_rates() {
    // Frequencies: Lotus 5, Partner 3 (always with Lotus: rate 1.0), two
    // single-game opponents. Only Lotus survives.
    let replays = vec![
        ("r1".to_string(), vec![("Lotus".to_string(), false), ("Partner".to_string(), false)]),
        ("r2".to_string(), vec![("Lotus".to_string(), false), ("Partner".to_string(), false)]),
        ("r3".to_string(), vec![("Lotus".to_string(), false), ("Partner".to_string(), false)]),
        ("r4".to_string(), vec![("Lotus".to_string(), false), ("O1".to_string(), false)]),
        ("r5".to_string(), vec![("Lotus".to_string(), false), ("O2".to_string(), false)]),
    ];

    let detected = detect_user_player_names(&replays);
    assert_eq!(detected, vec!["Lotus".to_string()]);
}
