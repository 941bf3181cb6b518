use agent_harness::names::sorted_unique;
use agent_harness::sync::{file_drifted, opencode_plugin, project_md_template, stale_skills, sync_succeeded};
use agent_harness::sync::{check_drift, CheckItem};
use agent_harness::tree::{diff_dir, Node};

fn file(b: &[u8]) -> Node {
    Node::File(Some(b.to_vec()))
}

fn dir(es: Vec<(&str, Node)>) -> Node {
    Node::Dir(es.into_iter().map(|(k, v)| (k.to_string(), v)).collect())
}

fn names(xs: &[&str]) -> Vec<String> {
    xs.iter().map(|x| x.to_string()).collect()
}

#[test]
fn sorts_names_in_string_order_without_repeats() {
    assert_eq!(
        sorted_unique(&names(&["b", "a", "B", "ab", "a", "é", "z"])),
        names(&["B", "a", "ab", "b", "z", "é"])
    );
    assert_eq!(sorted_unique(&names(&[])), names(&[]));
}

#[test]
fn identical_trees_do_not_differ() {
    let t = || dir(vec![("x", file(b"1")), ("sub", dir(vec![("y", file(b"2"))]))]);
    let mut drift = Vec::new();
    diff_dir(&t(), &t(), "harness", &mut drift);
    assert!(drift.is_empty());
}

#[test]
fn reports_each_kind_of_difference_in_name_order() {
    let a = dir(vec![
        ("same", file(b"s")),
        ("changed", file(b"1")),
        ("only_a", file(b"a")),
        ("kind", file(b"k")),
        ("sub", dir(vec![("deep", file(b"1"))])),
    ]);
    let b = dir(vec![
        ("sub", dir(vec![("deep", file(b"2"))])),
        ("kind", dir(vec![])),
        ("only_b", file(b"b")),
        ("changed", file(b"2")),
        ("same", file(b"s")),
    ]);
    let mut drift = vec!["before".to_string()];
    diff_dir(&a, &b, "r", &mut drift);
    assert_eq!(drift, names(&["before", "r/changed", "r/kind", "r/only_a", "r/only_b", "r/sub/deep"]));
}

#[test]
fn trees_listed_in_another_order_do_not_differ() {
    let a = dir(vec![("x", file(b"1")), ("sub", dir(vec![("y", file(b"2")), ("z", file(b"3"))]))]);
    let b = dir(vec![("sub", dir(vec![("z", file(b"3")), ("y", file(b"2"))])), ("x", file(b"1"))]);
    let mut drift = Vec::new();
    diff_dir(&a, &b, "harness", &mut drift);
    assert!(drift.is_empty());
}

#[test]
fn reports_roots_of_different_kinds() {
    let mut drift = Vec::new();
    diff_dir(&dir(vec![]), &file(b"x"), "harness", &mut drift);
    assert_eq!(drift, names(&["harness"]));
    let mut back = Vec::new();
    diff_dir(&file(b"x"), &dir(vec![("y", file(b"1"))]), "harness", &mut back);
    assert_eq!(back, names(&["harness"]));
}

#[test]
fn reports_root_files_whose_bytes_differ() {
    let mut drift = Vec::new();
    diff_dir(&file(b"1"), &file(b"2"), "a.txt", &mut drift);
    assert_eq!(drift, names(&["a.txt"]));
    let mut same = Vec::new();
    diff_dir(&file(b"1"), &file(b"1"), "a.txt", &mut same);
    assert!(same.is_empty());
    let mut unreadable = Vec::new();
    diff_dir(&Node::File(None), &file(b"1"), "a.txt", &mut unreadable);
    assert_eq!(unreadable, names(&["a.txt"]));
}

#[test]
fn reports_a_root_that_exists_on_one_side() {
    let mut drift = Vec::new();
    diff_dir(&dir(vec![]), &Node::Missing, ".agents/skills", &mut drift);
    assert_eq!(drift, names(&[".agents/skills (存在の不一致)"]));
    let mut none = Vec::new();
    diff_dir(&Node::Missing, &Node::Missing, "x", &mut none);
    assert!(none.is_empty());
}

#[test]
fn unreadable_files_compare_equal_and_dangling_entries_are_reported() {
    let a = dir(vec![("u", Node::File(None)), ("d", Node::Missing)]);
    let b = dir(vec![("u", Node::File(None)), ("d", Node::Missing)]);
    let mut drift = Vec::new();
    diff_dir(&a, &b, "h", &mut drift);
    assert_eq!(drift, names(&["h/d"]));
}

#[test]
fn stale_skills_are_those_removed_upstream() {
    assert_eq!(stale_skills(&names(&["a", "b", "c"]), &names(&["b", "d"])), names(&["a", "c"]));
    assert_eq!(stale_skills(&names(&[]), &names(&["b"])), names(&[]));
}

#[test]
fn drift_and_outcome() {
    assert!(!file_drifted(Some("x\n"), "x\n"));
    assert!(file_drifted(Some("x"), "x\n"));
    assert!(file_drifted(None, ""));
    assert!(sync_succeeded(false, &names(&["a"])));
    assert!(sync_succeeded(true, &names(&[])));
    assert!(!sync_succeeded(true, &names(&["a"])));
}

#[test]
fn fixed_files() {
    let plugin = opencode_plugin();
    assert!(plugin.contains("harness/scripts/hooks/bash-wrapper-guard.mjs"));
    assert!(plugin.ends_with("})\n"));
    assert!(project_md_template().starts_with("# プロジェクト固有の常時規約\n\n<!--"));
}

#[test]
fn check_drift_lists_each_item_in_order() {
    let items = vec![
        CheckItem::Tree { expected: dir(vec![("x", file(b"1"))]), actual: dir(vec![("x", file(b"2"))]), label: "harness".to_string() },
        CheckItem::File { actual: Some("a\n".to_string()), expected: "a\n".to_string(), label: "AGENTS.md".to_string() },
        CheckItem::File { actual: None, expected: "b".to_string(), label: ".gitignore".to_string() },
        CheckItem::File { actual: Some("old".to_string()), expected: "new".to_string(), label: "x.json".to_string() },
    ];
    assert_eq!(check_drift(&items), names(&["harness/x", ".gitignore", "x.json"]));
    let clean = vec![
        CheckItem::Tree { expected: dir(vec![("x", file(b"1"))]), actual: dir(vec![("x", file(b"1"))]), label: "harness".to_string() },
        CheckItem::File { actual: Some("a".to_string()), expected: "a".to_string(), label: "AGENTS.md".to_string() },
    ];
    assert!(check_drift(&clean).is_empty());
}
