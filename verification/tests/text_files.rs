use agent_harness::generated::{claude_md, expected_agents_md};
use agent_harness::gitignore::merged_gitignore;

const BLOCK: &str = "# --- agent-harness sync: managed block, do not edit ---\n# bot (GitHub App) credentials\n.env\n# dependencies of harness/scripts\nharness/scripts/node_modules/\n# --- agent-harness sync: end of managed block ---";

#[test]
fn gitignore_from_nothing_is_the_block() {
    assert_eq!(merged_gitignore(""), format!("{BLOCK}\n"));
}

#[test]
fn gitignore_appends_block_after_project_lines() {
    let out = merged_gitignore("target/\n*.log\n\n\n");
    assert_eq!(out, format!("target/\n*.log\n\n{BLOCK}\n"));
}

#[test]
fn gitignore_replaces_existing_block_and_keeps_both_sides() {
    let existing = "target/\n# --- agent-harness sync: managed block, do not edit ---\nold\n# --- agent-harness sync: end of managed block ---\n\n  dist/  \n";
    let out = merged_gitignore(existing);
    assert_eq!(out, format!("target/\n\n{BLOCK}\n\n  dist/  \n"));
}

const BEGIN: &str = "# --- agent-harness sync: managed block, do not edit ---";
const END: &str = "# --- agent-harness sync: end of managed block ---";

#[test]
fn gitignore_merge_is_idempotent_on_examples() {
    let examples = [
        String::new(),
        "a\n".to_string(),
        "  x  \n\n".to_string(),
        format!("x\n{BEGIN}\ny\n{END}\nz"),
        format!("{END}\n"),
        format!("{BEGIN}\nfoo\n"),
        format!("{END}\n{BEGIN}\n"),
        format!("{BEGIN}\nx\n{BEGIN}\ny\n{END}\n"),
        format!("{BEGIN}{END}"),
    ];
    for existing in examples.iter() {
        let once = merged_gitignore(existing);
        assert_eq!(merged_gitignore(&once), once);
    }
}

#[test]
fn gitignore_opening_marker_alone_is_replaced_by_the_block() {
    let existing = format!("a\n{BEGIN}\nfoo\n");
    let out = merged_gitignore(&existing);
    assert_eq!(out, format!("a\n\n{BLOCK}\n\nfoo\n"));
    assert_eq!(merged_gitignore(&out), out);
}

#[test]
fn gitignore_block_starts_at_the_first_opening_marker() {
    let existing = format!("{BEGIN}\nx\n{BEGIN}\ny\n{END}\n");
    assert_eq!(merged_gitignore(&existing), format!("{BLOCK}\n"));
}

#[test]
fn gitignore_keeps_text_after_the_closing_marker_on_its_own_line() {
    let existing = format!("{BEGIN}\nold\n{END} trailing\n");
    assert_eq!(merged_gitignore(&existing), format!("{BLOCK}\n\n trailing\n"));
}

#[test]
fn gitignore_end_marker_before_begin_adds_a_new_block() {
    let existing = "# --- agent-harness sync: end of managed block ---\n";
    let out = merged_gitignore(existing);
    assert_eq!(out, format!("# --- agent-harness sync: end of managed block ---\n\n{BLOCK}\n"));
    assert_eq!(merged_gitignore(&out), out);
}

#[test]
fn gitignore_keeps_a_line_with_trailing_unicode_spaces() {
    let out = merged_gitignore("a\u{3000}\u{a0}\n\u{3000}\n");
    assert_eq!(out, format!("a\u{3000}\u{a0}\n\n{BLOCK}\n"));
}

#[test]
fn agents_md_joins_shared_and_project_rules() {
    assert_eq!(expected_agents_md("# Shared\n\n", "# Project\n"), "# Shared\n\n# Project\n");
}

#[test]
fn agents_md_without_project_rules() {
    assert_eq!(expected_agents_md("# Shared  \n", "  \n\n"), "# Shared\n");
    assert_eq!(expected_agents_md("", ""), "\n");
}

#[test]
fn claude_md_imports_agents_md() {
    assert_eq!(claude_md(), "@AGENTS.md\n");
}
