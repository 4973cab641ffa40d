use quake_log::text::{join_from, parse_u32, split_char, splitn3, str_eq, trim, trim_colons};

#[test]
fn trim_removes_surrounding_whitespace() {
    assert_eq!(trim("  0:00 InitGame:  "), "0:00 InitGame:");
    assert_eq!(trim("\t x \r\n"), "x");
    assert_eq!(trim("   "), "");
    assert_eq!(trim(""), "");
    assert_eq!(trim("inner  spaces stay"), "inner  spaces stay");
}

#[test]
fn trim_colons_strips_both_ends() {
    assert_eq!(trim_colons("7:"), "7");
    assert_eq!(trim_colons("::a:b::"), "a:b");
    assert_eq!(trim_colons("::"), "");
    assert_eq!(trim_colons("plain"), "plain");
}

#[test]
fn split_keeps_empty_pieces() {
    assert_eq!(split_char("a b", ' '), vec!["a", "b"]);
    assert_eq!(split_char("a  b", ' '), vec!["a", "", "b"]);
    assert_eq!(split_char("", ' '), vec![""]);
    assert_eq!(split_char(" x ", ' '), vec!["", "x", ""]);
}

#[test]
fn splitn3_stops_after_two_splits() {
    assert_eq!(splitn3("n\\Name\\t\\0\\model", '\\'), vec!["n", "Name", "t\\0\\model"]);
    assert_eq!(splitn3("no seps", '\\'), vec!["no seps"]);
    assert_eq!(splitn3("a\\b", '\\'), vec!["a", "b"]);
    assert_eq!(splitn3("", '\\'), vec![""]);
}

#[test]
fn join_from_rejoins_with_single_spaces() {
    let parts = vec![
        "0:00".to_string(),
        "ClientUserinfoChanged:".to_string(),
        "2".to_string(),
        "n\\Dono".to_string(),
        "da".to_string(),
        "Bola\\t".to_string(),
    ];
    assert_eq!(join_from(&parts, 3), "n\\Dono da Bola\\t");
    assert_eq!(join_from(&parts, 5), "Bola\\t");
    assert_eq!(join_from(&parts, 6), "");
}

#[test]
fn parse_u32_matches_std_acceptance() {
    assert_eq!(parse_u32("0"), Some(0));
    assert_eq!(parse_u32("123"), Some(123));
    assert_eq!(parse_u32("+7"), Some(7));
    assert_eq!(parse_u32("007"), Some(7));
    assert_eq!(parse_u32("4294967295"), Some(u32::MAX));
    assert_eq!(parse_u32("4294967296"), None);
    assert_eq!(parse_u32("99999999999999999999"), None);
    assert_eq!(parse_u32(""), None);
    assert_eq!(parse_u32("+"), None);
    assert_eq!(parse_u32("-1"), None);
    assert_eq!(parse_u32("12a"), None);
    assert_eq!(parse_u32(" 12"), None);
}

#[test]
fn str_eq_compares_by_characters() {
    assert!(str_eq("Kill:", "Kill:"));
    assert!(!str_eq("Kill:", "Kill"));
    assert!(!str_eq("", "x"));
    assert!(str_eq("", ""));
}
