use rs_ping::resolver::{
    get_target_worlds, is_known_world, parse_world_token, select_mode, ResolveError, SelectionMode,
};
use rs_ping::worlds::{ftp_worlds, member_worlds};

fn tokens(ts: &[&str]) -> Vec<String> {
    ts.iter().map(|t| t.to_string()).collect()
}

#[test]
fn explicit_list_with_bad_token_fails() {
    let r = get_target_worlds(&SelectionMode::Explicit(tokens(&["1", "999", "abc"])));
    assert_eq!(r, Err(ResolveError::InvalidWorldToken(2)));
}

#[test]
fn explicit_list_skips_unknown_worlds() {
    let r = get_target_worlds(&SelectionMode::Explicit(tokens(&["1", "999", "20", "1"])));
    assert_eq!(r, Ok((vec![1, 20, 1], vec![999])));
}

#[test]
fn explicit_list_of_unknown_worlds_is_empty() {
    let r = get_target_worlds(&SelectionMode::Explicit(tokens(&["0", "-4", "1000"])));
    assert_eq!(r, Ok((vec![], vec![0, -4, 1000])));
    let r = get_target_worlds(&SelectionMode::Explicit(vec![]));
    assert_eq!(r, Ok((vec![], vec![])));
}

#[test]
fn whole_list_modes() {
    let members = member_worlds();
    let ftp = ftp_worlds();
    assert_eq!(members.len(), 92);
    assert_eq!(ftp.len(), 26);
    assert_eq!(get_target_worlds(&SelectionMode::MembersOnly), Ok((members.clone(), vec![])));
    assert_eq!(get_target_worlds(&SelectionMode::FreeToPlayOnly), Ok((ftp.clone(), vec![])));
    let mut all = members.clone();
    all.extend(ftp.iter());
    assert_eq!(get_target_worlds(&SelectionMode::AllWorlds), Ok((all, vec![])));
}

#[test]
fn known_worlds() {
    assert!(is_known_world(1));
    assert!(is_known_world(141));
    assert!(is_known_world(120));
    assert!(!is_known_world(13));
    assert!(!is_known_world(-1));
}

#[test]
fn mode_selection() {
    assert!(matches!(select_mode(false, false, None), Ok(SelectionMode::AllWorlds)));
    assert!(matches!(select_mode(true, false, None), Ok(SelectionMode::MembersOnly)));
    assert!(matches!(select_mode(false, true, None), Ok(SelectionMode::FreeToPlayOnly)));
    match select_mode(false, false, Some(tokens(&["3"]))) {
        Ok(SelectionMode::Explicit(t)) => assert_eq!(t, tokens(&["3"])),
        _ => panic!("expected an explicit list"),
    }
    assert_eq!(select_mode(true, true, None).err(), Some(ResolveError::ConflictingModes));
    assert_eq!(select_mode(true, false, Some(vec![])).err(), Some(ResolveError::ConflictingModes));
    assert_eq!(select_mode(false, true, Some(vec![])).err(), Some(ResolveError::ConflictingModes));
}

#[test]
fn parses_world_tokens() {
    assert_eq!(parse_world_token("1"), Some(1));
    assert_eq!(parse_world_token("+7"), Some(7));
    assert_eq!(parse_world_token("-5"), Some(-5));
    assert_eq!(parse_world_token("0042"), Some(42));
    assert_eq!(parse_world_token("9223372036854775807"), Some(i64::MAX));
    assert_eq!(parse_world_token("-9223372036854775808"), Some(i64::MIN));
    assert_eq!(parse_world_token("9223372036854775808"), None);
    assert_eq!(parse_world_token("-9223372036854775809"), None);
    assert_eq!(parse_world_token(""), None);
    assert_eq!(parse_world_token("-"), None);
    assert_eq!(parse_world_token("+"), None);
    assert_eq!(parse_world_token("abc"), None);
    assert_eq!(parse_world_token("1 "), None);
    assert_eq!(parse_world_token("--1"), None);
}
