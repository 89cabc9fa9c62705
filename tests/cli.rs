use teal::arguments::{parse_args, parse_ids, ArgumentsError};

fn words(ws: &[&str]) -> Vec<String> {
    ws.iter().map(|w| w.to_string()).collect()
}

#[test]
fn parse_ids_takes_last_dotted_part() {
    let ids = words(&["2.3.17", "5", "-4", "+8"]);
    assert_eq!(parse_ids(Some(&ids)), Ok(vec![17, 5, -4, 8]));
}

#[test]
fn parse_ids_reports_first_invalid_id() {
    let ids = words(&["1", "1.x", "zz"]);
    assert_eq!(parse_ids(Some(&ids)), Err("Invalid task id: 1.x".to_string()));
    let trailing = words(&["3."]);
    assert_eq!(parse_ids(Some(&trailing)), Err("Invalid task id: 3.".to_string()));
}

#[test]
fn parse_ids_without_list() {
    assert_eq!(parse_ids(None), Err("No task ids provided".to_string()));
}

#[test]
fn parse_ids_out_of_range() {
    let ids = words(&["9223372036854775808"]);
    assert!(parse_ids(Some(&ids)).is_err());
    let max = words(&["9223372036854775807"]);
    assert_eq!(parse_ids(Some(&max)), Ok(vec![i64::MAX]));
}

#[test]
fn parse_args_needs_command() {
    assert_eq!(parse_args(&Vec::new()).err(), Some(ArgumentsError::MissingCommand));
}

#[test]
fn parse_args_splits_subcommand_options_and_flags() {
    let line = words(&["teal", "add", "--name", "buy", "milk", "--raw", "--parent", "1.2"]);
    let parsed = parse_args(&line).ok().unwrap();
    assert_eq!(parsed.command, "teal");
    assert_eq!(parsed.subcommand, vec!["add".to_string()]);
    assert_eq!(parsed.get("name"), Some(&words(&["buy", "milk"])));
    assert_eq!(parsed.get("parent"), Some(&words(&["1.2"])));
    assert_eq!(parsed.get("raw"), None);
    assert!(parsed.has_flag("raw"));
    assert!(!parsed.has_flag("name"));
    assert_eq!(parsed.args.len(), 2);
    assert_eq!(parsed.args[0].0, "name");
    assert_eq!(parsed.args[1].0, "parent");
}

#[test]
fn parse_args_short_letters_are_separate_options() {
    let line = words(&["teal", "rm", "-ri", "4"]);
    let parsed = parse_args(&line).ok().unwrap();
    assert!(parsed.has_flag("r"));
    assert_eq!(parsed.get("i"), Some(&words(&["4"])));
    assert_eq!(parsed.flags, words(&["r"]));
}

#[test]
fn parse_args_option_met_again_keeps_values() {
    let line = words(&["teal", "--tag", "a", "-x", "--tag", "b"]);
    let parsed = parse_args(&line).ok().unwrap();
    assert_eq!(parsed.get("tag"), Some(&words(&["a", "b"])));
    assert!(parsed.has_flag("x"));
}

#[test]
fn parse_args_no_prefix_removes_option() {
    let line = words(&["teal", "--raw", "--name", "x", "--no-raw", "--no-name", "ls"]);
    let parsed = parse_args(&line).ok().unwrap();
    assert!(!parsed.has_flag("raw"));
    assert_eq!(parsed.get("name"), None);
    assert_eq!(parsed.subcommand, words(&["ls"]));
}

#[test]
fn parse_args_splits_short_options_by_grapheme() {
    let line = words(&["teal", "-e\u{301}x", "v"]);
    let parsed = parse_args(&line).ok().unwrap();
    assert!(parsed.has_flag("e\u{301}"));
    assert_eq!(parsed.get("x"), Some(&words(&["v"])));
    assert_eq!(parsed.flags.len(), 1);
}

#[test]
fn parse_args_with_given_graphemes() {
    let line = words(&["teal", "-ab", "1", "rest"]);
    let letters = vec![vec![], words(&["a", "b"]), vec![], vec![]];
    let parsed = teal::arguments::parse_args_with_graphemes(&line, &letters)
        .ok()
        .unwrap();
    assert!(parsed.has_flag("a"));
    assert_eq!(parsed.get("b"), Some(&words(&["1", "rest"])));
    assert!(parsed.subcommand.is_empty());
}
