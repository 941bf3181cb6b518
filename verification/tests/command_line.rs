use agent_harness::cli::{fetch_steps, ls_remote_args, parse_command, remote_main_revision, usage, CliError, Command};

fn args(xs: &[&str]) -> Vec<String> {
    xs.iter().map(|x| x.to_string()).collect()
}

#[test]
fn parses_each_subcommand() {
    assert_eq!(parse_command(&args(&["init"])), Ok(Command::Init { revision: None }));
    assert_eq!(
        parse_command(&args(&["init", "--revision", "abc"])),
        Ok(Command::Init { revision: Some("abc".to_string()) })
    );
    assert_eq!(parse_command(&args(&["update"])), Ok(Command::Update { revision: None }));
    assert_eq!(parse_command(&args(&["update", "r1"])), Ok(Command::Update { revision: Some("r1".to_string()) }));
    assert_eq!(parse_command(&args(&["sync"])), Ok(Command::Sync { source: None, check: false }));
    assert_eq!(
        parse_command(&args(&["check", "--source", "."])),
        Ok(Command::Sync { source: Some(".".to_string()), check: true })
    );
}

#[test]
fn refuses_unknown_and_malformed_command_lines() {
    assert_eq!(parse_command(&args(&[])), Err(CliError::UnknownCommand));
    assert_eq!(parse_command(&args(&["help"])), Err(CliError::UnknownCommand));
    assert_eq!(parse_command(&args(&["init", "abc"])), Err(CliError::BadArguments));
    assert_eq!(parse_command(&args(&["init", "--rev", "abc"])), Err(CliError::BadArguments));
    assert_eq!(parse_command(&args(&["update", "a", "b"])), Err(CliError::BadArguments));
    assert_eq!(parse_command(&args(&["sync", "--source"])), Err(CliError::BadArguments));
    assert_eq!(parse_command(&args(&["check", "--target", "x"])), Err(CliError::BadArguments));
}

#[test]
fn usage_lists_the_subcommands() {
    let u = usage();
    assert!(u.starts_with("使い方:\n"));
    for c in ["init", "update", "sync", "check"] {
        assert!(u.contains(&format!("agent-harness {c}")));
    }
}

#[test]
fn reads_main_revision_from_ls_remote() {
    assert_eq!(
        remote_main_revision("3f2a9c0d\trefs/heads/main\n"),
        Some("3f2a9c0d".to_string())
    );
    assert_eq!(remote_main_revision("  \n abc def"), Some("abc".to_string()));
    assert_eq!(remote_main_revision(""), None);
    assert_eq!(remote_main_revision(" \n\t "), None);
}

#[test]
fn fetch_takes_four_git_steps() {
    let steps = fetch_steps("https://example.com/r.git", "deadbeef");
    let expected: Vec<Vec<String>> = vec![
        args(&["init", "--quiet"]),
        args(&["remote", "add", "origin", "https://example.com/r.git"]),
        args(&["fetch", "--quiet", "--depth", "1", "origin", "deadbeef"]),
        args(&["checkout", "--quiet", "FETCH_HEAD"]),
    ];
    assert_eq!(steps, expected);
    assert_eq!(ls_remote_args("u"), args(&["ls-remote", "u", "refs/heads/main"]));
}
