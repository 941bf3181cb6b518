use agent_harness::env::{
    cred_keys, credentials_available, credentials_file_text, global_env_file, home_dir, parse_env_file,
    prompt_answer, EnvFile,
};

#[test]
fn parses_assignments_comments_and_blank_lines() {
    let vars = parse_env_file("# comment\n A = 1 \n\nB=x=y\r\nnoequals\n  # C=3\nA=2");
    assert_eq!(vars.get("A"), Some("2".to_string()));
    assert_eq!(vars.get("B"), Some("x=y".to_string()));
    assert!(!vars.contains_key("C"));
    assert!(!vars.contains_key("noequals"));
    assert!(!vars.contains_key("# C"));
}

#[test]
fn empty_key_is_a_key() {
    let vars = parse_env_file("=v\n");
    assert_eq!(vars.get(""), Some("v".to_string()));
}

#[test]
fn saved_credentials_are_read_back() {
    let text = credentials_file_text("12", "34", "/home/me/key.pem");
    assert_eq!(text, "BOT_GH_APP_ID=12\nBOT_GH_INSTALLATION_ID=34\nBOT_GH_APP_KEY=/home/me/key.pem\n");
    let vars = parse_env_file(&text);
    assert_eq!(vars.get("BOT_GH_APP_ID"), Some("12".to_string()));
    assert_eq!(vars.get("BOT_GH_INSTALLATION_ID"), Some("34".to_string()));
    assert_eq!(vars.get("BOT_GH_APP_KEY"), Some("/home/me/key.pem".to_string()));
    assert!(credentials_available(&vec![], &EnvFile::empty(), &vars));
}

#[test]
fn credentials_may_come_from_three_places() {
    let local = parse_env_file("BOT_GH_APP_ID=1\n");
    let global = parse_env_file("BOT_GH_APP_KEY=k\n");
    assert!(!credentials_available(&vec![], &local, &global));
    assert!(credentials_available(&vec!["BOT_GH_INSTALLATION_ID".to_string()], &local, &global));
    assert!(!credentials_available(&vec![], &EnvFile::empty(), &EnvFile::empty()));
}

#[test]
fn credential_keys() {
    assert_eq!(cred_keys(), vec!["BOT_GH_APP_ID", "BOT_GH_INSTALLATION_ID", "BOT_GH_APP_KEY"]);
}

#[test]
fn prompt_answers_are_trimmed_and_blank_is_asked_again() {
    assert_eq!(prompt_answer("  42 \n"), Some("42".to_string()));
    assert_eq!(prompt_answer(" \n"), None);
    assert_eq!(prompt_answer(""), None);
}

#[test]
fn home_directory_fallbacks() {
    assert_eq!(home_dir(Some("/h".to_string()), Some("/u".to_string())), "/h");
    assert_eq!(home_dir(None, Some("/u".to_string())), "/u");
    assert_eq!(home_dir(None, None), ".");
}

#[test]
fn global_env_file_joins_paths() {
    assert_eq!(global_env_file("/home/me", '/'), "/home/me/.config/agent-harness/env");
    assert_eq!(global_env_file("/home/me/", '/'), "/home/me/.config/agent-harness/env");
    assert_eq!(global_env_file("", '/'), ".config/agent-harness/env");
    assert_eq!(global_env_file(".", '/'), "./.config/agent-harness/env");
}

#[test]
fn global_env_file_uses_the_platform_separator() {
    assert_eq!(global_env_file("C:\\Users\\me", '\\'), "C:\\Users\\me\\.config/agent-harness/env");
    assert_eq!(global_env_file("C:\\Users\\me\\", '\\'), "C:\\Users\\me\\.config/agent-harness/env");
    assert_eq!(global_env_file("C:", '\\'), "C:.config/agent-harness/env");
    assert_eq!(global_env_file("C:", '/'), "C:/.config/agent-harness/env");
}
