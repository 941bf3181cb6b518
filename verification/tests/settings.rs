use agent_harness::generated::{claude_deny_rules, claude_hook_entries, codex_hook_entries, hook_entry};
use agent_harness::hooks::merged_hook_config;
use agent_harness::json::Json;
use agent_harness::pin::{pin_from_json, pin_json, Pin, PinError};

fn s(x: &str) -> Json {
    Json::Str(x.to_string())
}

fn obj(es: Vec<(&str, Json)>) -> Json {
    Json::Object(es.into_iter().map(|(k, v)| (k.to_string(), v)).collect())
}

fn get<'a>(j: &'a Json, key: &str) -> Option<&'a Json> {
    match j {
        Json::Object(es) => es.iter().find(|(k, _)| k == key).map(|(_, v)| v),
        _ => None,
    }
}

#[test]
fn hook_config_from_nothing() {
    let out = merged_hook_config(None, codex_hook_entries(), None);
    let expected = obj(vec![("hooks", obj(vec![("PreToolUse", Json::Array(codex_hook_entries()))]))]);
    assert_eq!(out, expected);
}

#[test]
fn hook_config_keeps_project_settings_and_own_hooks() {
    let own_hook = obj(vec![
        ("matcher", s("Read")),
        ("hooks", Json::Array(vec![obj(vec![("type", s("command")), ("command", s("node scripts/mine.mjs"))])])),
    ]);
    let old_managed = hook_entry("Bash", "node harness/scripts/hooks/old.mjs");
    let existing = obj(vec![
        ("model", s("opus")),
        ("count", Json::Number(serde_json::Number::from(3))),
        ("hooks", obj(vec![("PreToolUse", Json::Array(vec![old_managed, own_hook]))])),
    ]);
    let out = merged_hook_config(Some(existing), codex_hook_entries(), None);
    assert_eq!(get(&out, "model"), Some(&s("opus")));
    assert_eq!(get(&out, "count"), Some(&Json::Number(serde_json::Number::from(3))));
    let pre = get(get(&out, "hooks").unwrap(), "PreToolUse").unwrap();
    let mut expected = codex_hook_entries();
    expected.push(obj(vec![
        ("matcher", s("Read")),
        ("hooks", Json::Array(vec![obj(vec![("type", s("command")), ("command", s("node scripts/mine.mjs"))])])),
    ]));
    assert_eq!(pre, &Json::Array(expected));
}

#[test]
fn hook_config_adds_deny_rules_once() {
    let existing = obj(vec![("permissions", obj(vec![("deny", Json::Array(vec![s("Bash(gh:*)"), s("Bash(rm:*)")]))]))]);
    let deny = claude_deny_rules();
    let out = merged_hook_config(Some(existing), claude_hook_entries(), Some(&deny));
    let list = get(get(&out, "permissions").unwrap(), "deny").unwrap();
    assert_eq!(
        list,
        &Json::Array(vec![
            s("Bash(gh:*)"),
            s("Bash(rm:*)"),
            s("Bash(git commit:*)"),
            s("Bash(git merge --continue:*)"),
        ])
    );
}

#[test]
fn hook_config_replaces_non_object_parts() {
    let existing = obj(vec![("permissions", s("none")), ("hooks", Json::Array(vec![]))]);
    let deny = claude_deny_rules();
    let out = merged_hook_config(Some(existing), claude_hook_entries(), Some(&deny));
    let list = get(get(&out, "permissions").unwrap(), "deny").unwrap();
    assert_eq!(list, &Json::Array(deny.iter().map(|d| s(d)).collect()));
    let pre = get(get(&out, "hooks").unwrap(), "PreToolUse").unwrap();
    assert_eq!(pre, &Json::Array(claude_hook_entries()));
}

#[test]
fn hook_config_of_non_object_document_starts_empty() {
    let out = merged_hook_config(Some(Json::Array(vec![s("x")])), codex_hook_entries(), None);
    assert_eq!(out, merged_hook_config(None, codex_hook_entries(), None));
}

#[test]
fn hook_config_merge_is_idempotent_on_example() {
    let deny = claude_deny_rules();
    let existing = obj(vec![("env", obj(vec![("A", s("1"))]))]);
    let once = merged_hook_config(Some(existing), claude_hook_entries(), Some(&deny));
    let once_again = merged_hook_config(Some(obj(vec![("env", obj(vec![("A", s("1"))]))])), claude_hook_entries(), Some(&deny));
    let twice = merged_hook_config(Some(once), claude_hook_entries(), Some(&deny));
    assert_eq!(twice, once_again);
}

#[test]
fn pin_written_is_read_back() {
    let doc = pin_json("https://example.com/h.git", "abc123");
    assert_eq!(
        pin_from_json(&doc),
        Ok(Pin { repository: "https://example.com/h.git".to_string(), revision: "abc123".to_string() })
    );
}

#[test]
fn pin_errors_name_the_missing_field() {
    assert_eq!(pin_from_json(&obj(vec![("revision", s("r"))])), Err(PinError::MissingRepository));
    assert_eq!(pin_from_json(&obj(vec![("repository", s("u"))])), Err(PinError::MissingRevision));
    assert_eq!(
        pin_from_json(&obj(vec![("repository", s("u")), ("revision", Json::Bool(true))])),
        Err(PinError::MissingRevision)
    );
    assert_eq!(pin_from_json(&Json::Null), Err(PinError::MissingRepository));
}

#[test]
fn hook_config_text_is_the_pretty_document() {
    let text = agent_harness::hooks::hook_config_text(None, codex_hook_entries(), None);
    assert_eq!(
        text,
        "{\n  \"hooks\": {\n    \"PreToolUse\": [\n      {\n        \"hooks\": [\n          {\n            \"command\": \"node harness/scripts/hooks/harness-edit-guard.mjs\",\n            \"type\": \"command\"\n          }\n        ],\n        \"matcher\": \"Edit|Write|apply_patch\"\n      },\n      {\n        \"hooks\": [\n          {\n            \"command\": \"node harness/scripts/hooks/bash-wrapper-guard.mjs\",\n            \"type\": \"command\"\n          }\n        ],\n        \"matcher\": \"Bash\"\n      }\n    ]\n  }\n}\n"
    );
}

#[test]
fn hook_config_text_keeps_numbers_and_sorts_keys() {
    let existing = obj(vec![
        ("z", Json::Number(serde_json::Number::from_f64(1.5).unwrap())),
        ("a", Json::Array(vec![Json::Null, Json::Bool(false)])),
    ]);
    let text = agent_harness::hooks::hook_config_text(Some(existing), Vec::new(), None);
    assert_eq!(
        text,
        "{\n  \"a\": [\n    null,\n    false\n  ],\n  \"hooks\": {\n    \"PreToolUse\": []\n  },\n  \"z\": 1.5\n}\n"
    );
}

#[test]
fn pin_text_is_the_pretty_pin() {
    assert_eq!(
        agent_harness::pin::pin_text("https://example.com/h.git", "abc"),
        "{\n  \"repository\": \"https://example.com/h.git\",\n  \"revision\": \"abc\"\n}\n"
    );
}

#[test]
fn hook_config_from_text_parses_and_merges() {
    let text = agent_harness::hooks::hook_config_from_text(Some("{\"z\": 1.5, \"a\": [null, false]}"), Vec::new(), None);
    assert_eq!(
        text,
        "{\n  \"a\": [\n    null,\n    false\n  ],\n  \"hooks\": {\n    \"PreToolUse\": []\n  },\n  \"z\": 1.5\n}\n"
    );
}

#[test]
fn hook_config_from_text_treats_broken_or_missing_text_as_empty() {
    let none = agent_harness::hooks::hook_config_from_text(None, codex_hook_entries(), None);
    let broken = agent_harness::hooks::hook_config_from_text(Some("{ not json"), codex_hook_entries(), None);
    assert_eq!(broken, none);
}

#[test]
fn hook_config_from_text_is_stable_on_its_own_output() {
    let deny = claude_deny_rules();
    let once = agent_harness::hooks::hook_config_from_text(
        Some("{\"model\": \"x\", \"hooks\": {\"PreToolUse\": [{\"matcher\": \"Bash\", \"hooks\": []}]}}"),
        claude_hook_entries(),
        Some(&deny),
    );
    let twice = agent_harness::hooks::hook_config_from_text(Some(&once), claude_hook_entries(), Some(&deny));
    assert_eq!(twice, once);
}

#[test]
fn pin_from_text_reads_the_written_pin() {
    let text = agent_harness::pin::pin_text("https://example.com/h.git", "abc");
    assert_eq!(
        agent_harness::pin::pin_from_text(&text),
        Ok(Pin { repository: "https://example.com/h.git".to_string(), revision: "abc".to_string() })
    );
}

#[test]
fn pin_from_text_errors() {
    assert!(matches!(
        agent_harness::pin::pin_from_text("{ broken"),
        Err(agent_harness::pin::PinReadError::BrokenJson(_))
    ));
    assert_eq!(
        agent_harness::pin::pin_from_text("{\"revision\": \"abc\"}"),
        Err(agent_harness::pin::PinReadError::Incomplete(PinError::MissingRepository))
    );
    assert_eq!(
        agent_harness::pin::pin_from_text("[1]"),
        Err(agent_harness::pin::PinReadError::Incomplete(PinError::MissingRepository))
    );
    assert_eq!(
        agent_harness::pin::pin_from_text("{\"repository\": \"r\", \"revision\": 3}"),
        Err(agent_harness::pin::PinReadError::Incomplete(PinError::MissingRevision))
    );
}

#[test]
fn pin_from_text_takes_the_last_of_repeated_keys() {
    assert_eq!(
        agent_harness::pin::pin_from_text("{\"repository\": \"a\", \"repository\": \"b\", \"revision\": \"r\"}"),
        Ok(Pin { repository: "b".to_string(), revision: "r".to_string() })
    );
}
