use quake_log::errors::LogError;
use quake_log::game::{Game, KillMode, ModeMap, ScoreMap, WORLD};
use quake_log::player::Player;

#[test]
fn test_new_player() {
    let mut game = Game::new();
    game.new_player(1);
    game.new_player(2);
    game.new_player(3);

    let expected_player_list = vec!["".to_string(), "".to_string(), "".to_string()];
    let expected_players = vec![
        Player {
            name: "".to_string(),
            id: 1,
            joined: false,
        },
        Player {
            name: "".to_string(),
            id: 2,
            joined: false,
        },
        Player {
            name: "".to_string(),
            id: 3,
            joined: false,
        },
    ];

    assert_eq!(game.players.len(), 3);
    assert_eq!(game.player_list, expected_player_list);
    assert_eq!(game.players, expected_players);
}

#[test]
fn test_add_kill() -> Result<(), LogError> {
    let mut game = Game::new();
    game.new_player(1);
    game.new_player(2);

    game.add_kill(1, 2, 1)?;
    game.add_kill(2, 1, 1)?;
    game.add_kill(WORLD, 1, 1)?;

    let expected_players = vec![
        Player {
            name: "".to_string(),
            id: 1,
            joined: false,
        },
        Player {
            name: "".to_string(),
            id: 2,
            joined: false,
        },
    ];

    assert_eq!(game.players.len(), 2);
    assert_eq!(game.players, expected_players);
    assert_eq!(game.total_kills, 3);
    Ok(())
}

#[test]
fn test_kill_modes() -> Result<(), LogError> {
    let mut game = Game::new();
    game.new_player(1);
    game.new_player(2);

    game.add_kill(1, 2, 1)?;
    game.add_kill(2, 1, 1)?;
    game.add_kill(WORLD, 1, 0)?;

    let expected_modes = ModeMap {
        entries: vec![(KillMode::ModShotgun, 2), (KillMode::ModUnknown, 1)],
    };

    assert_eq!(game.means_of_death, expected_modes);
    Ok(())
}

#[test]
fn self_kill_changes_no_score() {
    let mut game = Game::new();
    game.new_player(1);
    game.rename_player(1, "Solo".to_string()).unwrap();
    game.new_player(2);
    game.add_kill(1, 2, 6).unwrap();
    let before = game.kill_score.clone();

    game.add_kill(1, 1, 5).unwrap();

    assert_eq!(game.kill_score, before);
    assert_eq!(game.total_kills, 2);
    assert_eq!(game.means_of_death.get(KillMode::ModGrenadeSplash), Some(1));
}

#[test]
fn world_kill_decrements_victim_only() {
    let mut game = Game::new();
    game.new_player(1);
    game.rename_player(1, "Faller".to_string()).unwrap();
    game.new_player(2);
    game.rename_player(2, "Bystander".to_string()).unwrap();
    game.add_kill(2, 1, 1).unwrap();

    game.add_kill(WORLD, 1, 19).unwrap();
    game.add_kill(WORLD, 1, 19).unwrap();

    assert_eq!(game.kill_score.get("Faller"), Some(-2));
    assert_eq!(game.kill_score.get("Bystander"), Some(1));
    assert_eq!(game.total_kills, 3);
    assert_eq!(game.means_of_death.get(KillMode::ModFalling), Some(2));
}

#[test]
fn first_contribution_is_the_delta() {
    let mut game = Game::new();
    game.new_player(7);
    game.rename_player(7, "Fresh".to_string()).unwrap();
    game.add_kill(WORLD, 7, 22).unwrap();
    assert_eq!(
        game.kill_score,
        ScoreMap {
            entries: vec![("Fresh".to_string(), -1)],
        }
    );
}

#[test]
fn rename_attributes_later_kills_to_new_name() {
    let mut game = Game::new();
    game.new_player(1);
    game.rename_player(1, "Before".to_string()).unwrap();
    game.new_player(2);
    game.rename_player(2, "Victim".to_string()).unwrap();

    game.add_kill(1, 2, 1).unwrap();
    game.rename_player(1, "After".to_string()).unwrap();
    game.add_kill(1, 2, 1).unwrap();

    assert_eq!(game.kill_score.get("Before"), Some(1));
    assert_eq!(game.kill_score.get("After"), Some(1));
    assert_eq!(game.player_list, vec!["After".to_string(), "Victim".to_string()]);
}

#[test]
fn kill_modes_map_to_the_fixed_enumeration() {
    assert_eq!(KillMode::from_u32(0), KillMode::ModUnknown);
    assert_eq!(KillMode::from_u32(1), KillMode::ModShotgun);
    assert_eq!(KillMode::from_u32(7), KillMode::ModRocketSplash);
    assert_eq!(KillMode::from_u32(10), KillMode::ModRailgun);
    assert_eq!(KillMode::from_u32(28), KillMode::ModGrapple);
    assert_eq!(KillMode::from_u32(29), KillMode::ModUnknown);
    assert_eq!(KillMode::from_u32(4_000_000_000), KillMode::ModUnknown);
}

#[test]
fn disconnect_keeps_the_roster_slot() {
    let mut game = Game::new();
    game.new_player(1);
    game.rename_player(1, "Quitter".to_string()).unwrap();
    game.new_player(2);
    let action = quake_log::actions::Action::ClientDisconnect(1);
    action.parse(&mut game).unwrap();
    assert_eq!(game.players.len(), 2);
    assert_eq!(
        game.player_list,
        vec!["Quitter".to_string(), "".to_string()]
    );
}
