use quake_log::actions::Action;
use quake_log::errors::LogError;
use quake_log::game::{Game, KillMode, ModeMap, ScoreMap};
use quake_log::parser::{group_by_game, parse, parse_into_actions};
use quake_log::player::Player;

#[test]
fn test_parse_into_actions() {
    let input = vec![
        "  0:00 ------------------------------------------------------------".to_string(),
        "  0:00 InitGame: ".to_string(),
        "  0:00 ClientConnect: 2".to_string(),
        "  0:00 ClientUserinfoChanged: 2 n\\Isgalamido\\t\\0\\model\\uriel/zael\\hmodel\\uriel/zael\\g_redteam\\g_redteam\\g_blue".to_string(),
        "  0:00 ClientConnect: 3".to_string(),
        "  0:00 ClientUserinfoChanged: 3 n\\Dono da Bola\\t\\0\\model\\sarge/krusade\\hmodel\\sarge/krusade\\g_redteam\\g_redteam\\g_blu".to_string(),
        "  0:00 Kill: 2 3 7: Isgalamido killed Dono da Bola by MOD_ROCKET".to_string(),
        "  0:00 ShutdownGame: ".to_string(),
        "  0:00 ------------------------------------------------------------".to_string(),
        "  0:00 ClientConnect: 3".to_string(),
        "  0:00 ClientUserinfoChanged: 3 n\\Dono da Bola\\t\\0\\model\\sarge/krusade\\hmodel\\sarge/krusade\\g_redteam\\g_redteam\\g_blu".to_string(),
        "  0:00 Kill: 2 3 7: Isgalamido killed Dono da Bola by MOD_ROCKET".to_string(),
        "  0:00 ShutdownGame: ".to_string(),
        "  0:00 ------------------------------------------------------------".to_string(),
    ];
    let expected = vec![
        Action::InitGame,
        Action::ClientConnect(2),
        Action::ClientUserinfoChanged(2, "n\\Isgalamido\\t\\0\\model\\uriel/zael\\hmodel\\uriel/zael\\g_redteam\\g_redteam\\g_blue".to_string()),
        Action::ClientConnect(3),
        Action::ClientUserinfoChanged(3, "n\\Dono da Bola\\t\\0\\model\\sarge/krusade\\hmodel\\sarge/krusade\\g_redteam\\g_redteam\\g_blu".to_string()),
        Action::Kill(2, 3, 7),
        Action::ShutdownGame,
        Action::ClientConnect(3),
        Action::ClientUserinfoChanged(3, "n\\Dono da Bola\\t\\0\\model\\sarge/krusade\\hmodel\\sarge/krusade\\g_redteam\\g_redteam\\g_blu".to_string()),
        Action::Kill(2, 3, 7),
        Action::ShutdownGame,
    ];
    assert_eq!(parse_into_actions(input).unwrap(), expected);
}

#[test]
fn test_group() {
    let given = vec![
        Action::InitGame,
        Action::ClientConnect(2),
        Action::ClientUserinfoChanged(2, "n\\Isgalamido\\t\\0\\model\\uriel/zael\\hmodel\\uriel/zael\\g_redteam\\g_redteam\\g_blue".to_string()),
        Action::ClientConnect(3),
        Action::ClientUserinfoChanged(3, "n\\Dono da Bola\\t\\0\\model\\sarge/krusade\\hmodel\\sarge/krusade\\g_redteam\\g_redteam\\g_blu".to_string()),
        Action::Kill(2, 3, 7),
        Action::ShutdownGame,
        Action::ClientConnect(3),
        Action::ClientUserinfoChanged(3, "n\\Dono da Bola\\t\\0\\model\\sarge/krusade\\hmodel\\sarge/krusade\\g_redteam\\g_redteam\\g_blu".to_string()),
        Action::Kill(2, 3, 7),
        Action::ShutdownGame,
    ];
    let expected = vec![
        vec![
            Action::InitGame,
            Action::ClientConnect(2),
            Action::ClientUserinfoChanged(2, "n\\Isgalamido\\t\\0\\model\\uriel/zael\\hmodel\\uriel/zael\\g_redteam\\g_redteam\\g_blue".to_string()),
            Action::ClientConnect(3),
            Action::ClientUserinfoChanged(3, "n\\Dono da Bola\\t\\0\\model\\sarge/krusade\\hmodel\\sarge/krusade\\g_redteam\\g_redteam\\g_blu".to_string()),
            Action::Kill(2, 3, 7),
            Action::ShutdownGame,
        ],
        vec![
            Action::ClientConnect(3),
            Action::ClientUserinfoChanged(3, "n\\Dono da Bola\\t\\0\\model\\sarge/krusade\\hmodel\\sarge/krusade\\g_redteam\\g_redteam\\g_blu".to_string()),
            Action::Kill(2, 3, 7),
            Action::ShutdownGame,
        ],
    ];

    assert_eq!(group_by_game(given), expected);
}

#[test]
fn test_parse() {
    let given = vec![
        "  0:00 ------------------------------------------------------------".to_string(),
        "  0:00 InitGame: ".to_string(),
        "  0:00 ClientConnect: 2".to_string(),
        "  0:00 ClientUserinfoChanged: 2 n\\Isgalamido\\t\\0\\model\\uriel/zael\\hmodel\\uriel/zael\\g_redteam\\g_redteam\\g_blue".to_string(),
        "  0:00 ClientBegin: 2".to_string(),
        "  0:00 ClientConnect: 3".to_string(),
        "  0:00 ClientUserinfoChanged: 3 n\\Dono da Bola\\t\\0\\model\\sarge/krusade\\hmodel\\sarge/krusade\\g_redteam\\g_redteam\\g_blu".to_string(),
        "  0:00 ClientBegin: 3".to_string(),
        "  0:00 Kill: 2 3 7: Isgalamido killed Dono da Bola by MOD_ROCKET".to_string(),
        "  0:00 ShutdownGame: ".to_string(),
        "  0:00 ------------------------------------------------------------".to_string(),
    ];
    let mut means_of_death = ModeMap { entries: Vec::new() };
    means_of_death.entries.push((KillMode::ModRocketSplash, 1));
    let mut kill_score = ScoreMap { entries: Vec::new() };
    kill_score.entries.push(("Isgalamido".to_string(), 1));

    let expected = vec![Game {
        total_kills: 1,
        players: vec![
            Player {
                id: 2,
                name: "Isgalamido".to_string(),
                joined: true,
            },
            Player {
                id: 3,
                name: "Dono da Bola".to_string(),
                joined: true,
            },
        ],
        player_list: vec!["Isgalamido".to_string(), "Dono da Bola".to_string()],
        kill_score,
        means_of_death,
    }];

    assert_eq!(parse(given).unwrap(), expected);
}

#[test]
fn scenario_two_players_and_a_world_kill() {
    let given = vec![
        "  0:00 InitGame: ".to_string(),
        "  0:00 ClientConnect: 2".to_string(),
        "  0:00 ClientUserinfoChanged: 2 n\\Alice\\t\\0\\model\\x".to_string(),
        "  0:00 ClientConnect: 3".to_string(),
        "  0:00 ClientUserinfoChanged: 3 n\\Bob\\t\\0\\model\\y".to_string(),
        "  0:00 Kill: 2 3 1: Alice killed Bob by MOD_SHOTGUN".to_string(),
        "  0:00 Kill: 1022 3 1: <world> killed Bob by MOD_SHOTGUN".to_string(),
        "  0:00 ShutdownGame: ".to_string(),
    ];
    let games = parse(given).unwrap();
    assert_eq!(games.len(), 1);
    let game = &games[0];
    assert_eq!(game.total_kills, 2);
    assert_eq!(game.player_list, vec!["Alice".to_string(), "Bob".to_string()]);
    assert_eq!(game.kill_score.get("Alice"), Some(1));
    assert_eq!(game.kill_score.get("Bob"), Some(-1));
    assert_eq!(
        game.means_of_death,
        ModeMap {
            entries: vec![(KillMode::ModShotgun, 2)],
        }
    );
}

#[test]
fn scenario_two_blocks_reset_state() {
    let given = vec![
        " 0:00 InitGame: ".to_string(),
        " 0:00 ClientConnect: 2".to_string(),
        " 0:00 ClientUserinfoChanged: 2 n\\Ana\\t\\0".to_string(),
        " 0:00 ClientConnect: 3".to_string(),
        " 0:00 ClientUserinfoChanged: 3 n\\Bea\\t\\0".to_string(),
        " 0:00 Kill: 2 3 6: x".to_string(),
        " 0:00 ShutdownGame: ".to_string(),
        " 0:01 InitGame: ".to_string(),
        " 0:01 ClientConnect: 4".to_string(),
        " 0:01 ClientUserinfoChanged: 4 n\\Cy\\t\\0".to_string(),
        " 0:01 ShutdownGame: ".to_string(),
    ];
    let games = parse(given).unwrap();
    assert_eq!(games.len(), 2);
    assert_eq!(games[0].total_kills, 1);
    assert_eq!(games[0].player_list, vec!["Ana".to_string(), "Bea".to_string()]);
    assert_eq!(games[0].kill_score.get("Ana"), Some(1));
    assert_eq!(games[1].total_kills, 0);
    assert_eq!(games[1].player_list, vec!["Cy".to_string()]);
    assert_eq!(games[1].kill_score.get("Ana"), None);
    assert_eq!(games[1].kill_score.get("Cy"), None);
}

#[test]
fn scenario_short_kill_line_is_fatal() {
    let given = vec![
        " 0:00 InitGame: ".to_string(),
        " 0:00 ClientConnect: 2".to_string(),
        " 0:00 Kill: 2 3".to_string(),
        " 0:00 ShutdownGame: ".to_string(),
    ];
    assert_eq!(parse(given), Err(LogError::MalformedLine));
}

#[test]
fn total_kills_counts_every_kill_line() {
    let given = vec![
        " 0:00 InitGame: ".to_string(),
        " 0:00 ClientConnect: 2".to_string(),
        " 0:00 ClientConnect: 3".to_string(),
        " 0:00 Kill: 2 3 1: a".to_string(),
        " 0:00 Kill: 3 2 2: b".to_string(),
        " 0:00 Kill: 2 2 3: self".to_string(),
        " 0:00 Kill: 1022 2 19: world".to_string(),
        " 0:00 ShutdownGame: ".to_string(),
    ];
    let games = parse(given).unwrap();
    assert_eq!(games.len(), 1);
    assert_eq!(games[0].total_kills, 4);
}

#[test]
fn rerunning_the_pipeline_is_byte_identical() {
    let given = vec![
        " 0:00 InitGame: ".to_string(),
        " 0:00 ClientConnect: 2".to_string(),
        " 0:00 ClientUserinfoChanged: 2 n\\Ada\\t\\0".to_string(),
        " 0:00 ClientConnect: 3".to_string(),
        " 0:00 ClientUserinfoChanged: 3 n\\Ben\\t\\0".to_string(),
        " 0:00 Kill: 2 3 10: r".to_string(),
        " 0:00 Kill: 1022 2 16: lava".to_string(),
        " 0:00 ShutdownGame: ".to_string(),
    ];
    let first = parse(given.clone()).unwrap();
    let second = parse(given).unwrap();
    assert_eq!(first, second);
    assert_eq!(
        format!("{:?}", first[0].kill_score),
        format!("{:?}", second[0].kill_score)
    );
}

#[test]
fn unterminated_trailing_segment_is_dropped() {
    let given = vec![
        " 0:00 InitGame: ".to_string(),
        " 0:00 ClientConnect: 2".to_string(),
        " 0:00 ShutdownGame: ".to_string(),
        " 0:01 InitGame: ".to_string(),
        " 0:01 ClientConnect: 3".to_string(),
    ];
    let games = parse(given).unwrap();
    assert_eq!(games.len(), 1);
    assert_eq!(games[0].players.len(), 1);
}

#[test]
fn unrecognized_and_short_lines_are_skipped() {
    let given = vec![
        "".to_string(),
        "  0:00 ------------------------------------------------------------".to_string(),
        " 0:00 InitGame: ".to_string(),
        " 0:00 Item: 2 weapon_rocketlauncher".to_string(),
        " 0:00 Exit: Timelimit hit.".to_string(),
        " lonely".to_string(),
        " 0:00 ShutdownGame: ".to_string(),
    ];
    let games = parse(given).unwrap();
    assert_eq!(games.len(), 1);
    assert_eq!(games[0].total_kills, 0);
    assert_eq!(games[0].players.len(), 0);
}

#[test]
fn unparseable_connect_id_is_skipped_silently() {
    let given = vec![
        " 0:00 InitGame: ".to_string(),
        " 0:00 ClientConnect: abc".to_string(),
        " 0:00 ClientBegin: abc".to_string(),
        " 0:00 ShutdownGame: ".to_string(),
    ];
    let games = parse(given).unwrap();
    assert_eq!(games.len(), 1);
    assert_eq!(games[0].players.len(), 0);
}

#[test]
fn unparseable_userinfo_id_is_fatal() {
    let given = vec![
        " 0:00 InitGame: ".to_string(),
        " 0:00 ClientUserinfoChanged: abc n\\X\\t".to_string(),
        " 0:00 ShutdownGame: ".to_string(),
    ];
    assert_eq!(parse(given), Err(LogError::MalformedLine));
}

#[test]
fn unparseable_disconnect_id_is_fatal() {
    let given = vec![
        " 0:00 InitGame: ".to_string(),
        " 0:00 ClientDisconnect: abc".to_string(),
        " 0:00 ShutdownGame: ".to_string(),
    ];
    assert_eq!(parse(given), Err(LogError::MalformedLine));
}

#[test]
fn unparseable_kill_fields_are_fatal() {
    let bad_killer = vec![" 0:00 Kill: x 3 7: y".to_string()];
    assert_eq!(parse(bad_killer), Err(LogError::MalformedLine));
    let bad_killed = vec![" 0:00 Kill: 2 x 7: y".to_string()];
    assert_eq!(parse(bad_killed), Err(LogError::MalformedLine));
    let bad_cause = vec![" 0:00 Kill: 2 3 x: y".to_string()];
    assert_eq!(parse(bad_cause), Err(LogError::MalformedLine));
}

#[test]
fn fatal_error_aborts_later_segments() {
    let given = vec![
        " 0:00 InitGame: ".to_string(),
        " 0:00 ClientConnect: 2".to_string(),
        " 0:00 ShutdownGame: ".to_string(),
        " 0:01 InitGame: ".to_string(),
        " 0:01 Kill: 5 6 7: unknown attacker".to_string(),
        " 0:01 ShutdownGame: ".to_string(),
    ];
    assert_eq!(parse(given), Err(LogError::UnknownAttacker));
}

#[test]
fn segment_without_start_marker_is_kept() {
    let given = vec![
        " 0:00 ClientConnect: 2".to_string(),
        " 0:00 ClientUserinfoChanged: 2 n\\Solo\\t\\0".to_string(),
        " 0:00 ShutdownGame: ".to_string(),
    ];
    let games = parse(given).unwrap();
    assert_eq!(games.len(), 1);
    assert_eq!(games[0].player_list, vec!["Solo".to_string()]);
}

#[test]
fn empty_input_yields_no_summaries() {
    let games = parse(Vec::new()).unwrap();
    assert_eq!(games.len(), 0);
}
