use quake_log::actions::Action;
use quake_log::errors::LogError;
use quake_log::game::{Game, WORLD};
use quake_log::player::Player;

#[test]
fn test_parse_init_game() {
    let mut game = Game::new();
    let action = Action::InitGame;
    assert_eq!(action.parse(&mut game), Ok(()));
}

#[test]
fn test_parse_client_connect() {
    let mut game = Game::new();
    let action = Action::ClientConnect(1);
    action.parse(&mut game).unwrap();
    assert_eq!(game.players.len(), 1);
    assert_eq!(game.players[0].id, 1);
}

#[test]
fn test_parse_kill() {
    let mut game = Game::new();
    game.new_player(1);
    game.player_joined(1).unwrap();
    game.rename_player(1, "Test".to_string()).unwrap();
    game.new_player(2);
    game.player_joined(2).unwrap();
    let action = Action::Kill(1, 2, 0);
    action.parse(&mut game).unwrap();
    assert_eq!(game.kill_score.get("Test"), Some(1));
}

#[test]
fn test_parse_client_userinfo_changed() {
    let mut game = Game::new();
    game.new_player(1);
    let action = Action::ClientUserinfoChanged(1, "n\\Test\\t".to_string());
    action.parse(&mut game).unwrap();
    assert_eq!(game.players[0].name, "Test");
}

#[test]
fn test_parse_client_begin() {
    let mut game = Game::new();
    game.new_player(1);
    let action = Action::ClientBegin(1);
    action.parse(&mut game).unwrap();
    assert_eq!(game.players[0].joined, true);
}

#[test]
fn test_to_game() {
    let actions = vec![
        Action::InitGame,
        Action::ClientConnect(2),
        Action::ClientConnect(3),
        Action::ClientConnect(4),
        Action::ClientUserinfoChanged(2, "n\\Testing\\t".to_string()),
        Action::ClientUserinfoChanged(3, "n\\Test\\t".to_string()),
        Action::ClientBegin(2),
        Action::ClientBegin(3),
        Action::Kill(2, 3, 1),
        Action::Kill(WORLD, 3, 1),
        Action::ShutdownGame,
    ];

    let expected_players = vec![
        Player {
            name: "Testing".to_string(),
            id: 2,
            joined: true,
        },
        Player {
            name: "Test".to_string(),
            id: 3,
            joined: true,
        },
        Player {
            name: "".to_string(),
            id: 4,
            joined: false,
        },
    ];
    let expected_player_list =
        vec!["Testing".to_string(), "Test".to_string(), "".to_string()];

    let game = Action::parse_game(actions).unwrap();
    assert_eq!(game.players, expected_players);
    assert_eq!(game.player_list, expected_player_list);
}

#[test]
#[should_panic]
fn test_invalid_game() {
    let actions = vec![
        Action::InitGame,
        Action::ClientConnect(2),
        Action::Kill(3, 2, 1),
        Action::ShutdownGame,
    ];

    Action::parse_game(actions).unwrap();
}

#[test]
fn unknown_attacker_is_fatal() {
    let actions = vec![
        Action::InitGame,
        Action::ClientConnect(2),
        Action::Kill(3, 2, 1),
        Action::ShutdownGame,
    ];
    assert_eq!(Action::parse_game(actions), Err(LogError::UnknownAttacker));
}

#[test]
fn unknown_victim_is_fatal() {
    let actions = vec![
        Action::InitGame,
        Action::ClientConnect(2),
        Action::Kill(WORLD, 3, 1),
        Action::ShutdownGame,
    ];
    assert_eq!(Action::parse_game(actions), Err(LogError::UnknownVictim));
}

#[test]
fn unknown_player_on_begin_is_fatal() {
    let actions = vec![Action::InitGame, Action::ClientBegin(9)];
    assert_eq!(Action::parse_game(actions), Err(LogError::UnknownPlayer));
}

#[test]
fn unknown_player_on_rename_is_fatal() {
    let actions = vec![
        Action::InitGame,
        Action::ClientUserinfoChanged(9, "n\\Ghost\\t".to_string()),
    ];
    assert_eq!(Action::parse_game(actions), Err(LogError::UnknownPlayer));
}

#[test]
fn malformed_identity_is_fatal() {
    let actions = vec![
        Action::InitGame,
        Action::ClientConnect(2),
        Action::ClientUserinfoChanged(2, "no backslashes here".to_string()),
    ];
    assert_eq!(Action::parse_game(actions), Err(LogError::MalformedIdentity));
}

#[test]
fn error_messages_name_the_condition() {
    assert_eq!(LogError::MalformedLine.message(), "malformed log line");
    assert_eq!(LogError::MalformedIdentity.message(), "could not parse user info");
    assert_eq!(LogError::UnknownPlayer.message(), "player not found");
    assert_eq!(LogError::UnknownAttacker.message(), "killer player not found");
    assert_eq!(LogError::UnknownVictim.message(), "killed player not found");
}
