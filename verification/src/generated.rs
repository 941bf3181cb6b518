//! The contents that a sync writes into a project: `AGENTS.md`, the one-line
//! import file beside it, the hook registrations of each tool, and the opencode plugin.
use vstd::prelude::*;
use crate::text;
use crate::text::{chars_of, push_range, string_of, trim_end_at};
use crate::json::{Json, JsonV, owned, items_view, lemma_array_view, lemma_object_view, entries_view, lemma_key_index_is, strings_view};
use crate::hooks::{hook_marker, command_of, has_marked_handler, is_managed_entry, merged_hook_config_spec, lemma_merged_hook_config_idempotent};

verus! {

/// `AGENTS.md`: the shared rules, then (after a blank line) the project's own
/// rules when there are any, each without trailing whitespace, ending in one
/// line break.
pub open spec fn agents_md_spec(shared: Seq<char>, project: Seq<char>) -> Seq<char> {
    let s = text::trim_end(shared);
    let p = text::trim_end(project);
    if p.len() > 0 {
        s + seq!['\n', '\n'] + p + seq!['\n']
    } else {
        s + seq!['\n']
    }
}

/// The expected `AGENTS.md`, from the text of `harness/AGENTS.md` and that of
/// `PROJECT.md` (empty when the project has none).
pub fn expected_agents_md(shared: &str, project: &str) -> (out: String)
    ensures
        out@ == agents_md_spec(shared@, project@),
{
    let s = chars_of(shared);
    let p = chars_of(project);
    assert(s@.subrange(0, s@.len() as int) =~= s@);
    assert(p@.subrange(0, p@.len() as int) =~= p@);
    let s_end = trim_end_at(&s, 0, s.len());
    let p_end = trim_end_at(&p, 0, p.len());
    let mut out: Vec<char> = Vec::new();
    push_range(&mut out, &s, 0, s_end);
    if p_end > 0 {
        out.push('\n');
        out.push('\n');
        push_range(&mut out, &p, 0, p_end);
    }
    out.push('\n');
    assert(out@ =~= agents_md_spec(shared@, project@));
    string_of(out.as_slice())
}

/// `AGENTS.md` holds the shared rules whole (less trailing whitespace) from its
/// start; when the project has rules, a blank line and then the project's
/// rules whole (less trailing whitespace) follow; one line break ends it, and
/// nothing else is in it.
pub proof fn lemma_agents_md_holds_both_texts(shared: Seq<char>, project: Seq<char>)
    ensures
        ({
            let out = agents_md_spec(shared, project);
            let s = text::trim_end(shared);
            let p = text::trim_end(project);
            let n = s.len() as int;
            &&& out.subrange(0, n) == s
            &&& out.len() > 0 && out.last() == '\n'
            &&& p.len() == 0 ==> out.len() == s.len() + 1
            &&& p.len() > 0 ==> {
                &&& out.len() == s.len() + p.len() + 3
                &&& out[n] == '\n'
                &&& out[n + 1] == '\n'
                &&& out.subrange(n + 2, n + 2 + p.len()) == p
                &&& text::occurs_at(out, p, n + 2)
            }
        }),
{
    let out = agents_md_spec(shared, project);
    let s = text::trim_end(shared);
    let p = text::trim_end(project);
    assert(out.subrange(0, s.len() as int) =~= s);
    if p.len() > 0 {
        let n = s.len() as int;
        assert(out.subrange(n + 2, n + 2 + p.len()) =~= p);
    }
}

/// The import file: a single line that imports `AGENTS.md`.
pub open spec fn claude_md_spec() -> Seq<char> {
    "@AGENTS.md\n"@
}

/// The expected import file.
pub fn claude_md() -> (out: String)
    ensures
        out@ == claude_md_spec(),
{
    owned("@AGENTS.md\n")
}

/// The model of a `PreToolUse` entry that runs `command` for the tools that `matcher` names.
pub open spec fn hook_entry_v(matcher: Seq<char>, command: Seq<char>) -> JsonV {
    JsonV::Object(
        seq![
            ("matcher"@, JsonV::Str(matcher)),
            (
                "hooks"@,
                JsonV::Array(
                    seq![
                        JsonV::Object(
                            seq![("type"@, JsonV::Str("command"@)), ("command"@, JsonV::Str(command))],
                        ),
                    ],
                ),
            ),
        ],
    )
}

/// A `PreToolUse` entry that runs `command` for the tools that `matcher` names.
pub fn hook_entry(matcher: &str, command: &str) -> (e: Json)
    ensures
        e@ == hook_entry_v(matcher@, command@),
{
    let mut handler: Vec<(String, Json)> = Vec::new();
    handler.push((owned("type"), Json::Str(owned("command"))));
    handler.push((owned("command"), Json::Str(owned(command))));
    proof {
        lemma_object_view(handler);
    }
    let h = Json::Object(handler);
    let mut hs: Vec<Json> = Vec::new();
    hs.push(h);
    proof {
        lemma_array_view(hs);
        assert(items_view(hs@) =~= seq![h@]);
    }
    let mut entry: Vec<(String, Json)> = Vec::new();
    entry.push((owned("matcher"), Json::Str(owned(matcher))));
    entry.push((owned("hooks"), Json::Array(hs)));
    proof {
        lemma_object_view(entry);
        assert(entries_view(handler@) =~= seq![
            ("type"@, JsonV::Str("command"@)),
            ("command"@, JsonV::Str(command@)),
        ]);
        assert(entries_view(entry@) =~= seq![
            ("matcher"@, JsonV::Str(matcher@)),
            ("hooks"@, JsonV::Array(seq![h@])),
        ]);
    }
    Json::Object(entry)
}

/// The hook commands of the settings file that takes deny rules, and the tools each guards.
pub open spec fn claude_entries_v() -> Seq<JsonV> {
    seq![
        hook_entry_v(
            "Edit|Write|MultiEdit"@,
            "node \"${CLAUDE_PROJECT_DIR}/harness/scripts/hooks/harness-edit-guard.mjs\""@,
        ),
        hook_entry_v(
            "Bash"@,
            "node \"${CLAUDE_PROJECT_DIR}/harness/scripts/hooks/bash-wrapper-guard.mjs\""@,
        ),
    ]
}

/// The Codex hook commands and the tools each guards.
pub open spec fn codex_entries_v() -> Seq<JsonV> {
    seq![
        hook_entry_v("Edit|Write|apply_patch"@, "node harness/scripts/hooks/harness-edit-guard.mjs"@),
        hook_entry_v("Bash"@, "node harness/scripts/hooks/bash-wrapper-guard.mjs"@),
    ]
}

/// The `PreToolUse` entries that the harness registers in the settings file that takes deny rules.
pub fn claude_hook_entries() -> (v: Vec<Json>)
    ensures
        items_view(v@) == claude_entries_v(),
{
    let mut v: Vec<Json> = Vec::new();
    v.push(
        hook_entry(
            "Edit|Write|MultiEdit",
            "node \"${CLAUDE_PROJECT_DIR}/harness/scripts/hooks/harness-edit-guard.mjs\"",
        ),
    );
    v.push(
        hook_entry(
            "Bash",
            "node \"${CLAUDE_PROJECT_DIR}/harness/scripts/hooks/bash-wrapper-guard.mjs\"",
        ),
    );
    assert(items_view(v@) =~= claude_entries_v());
    v
}

/// The `PreToolUse` entries that the harness registers in `.codex/hooks.json`.
pub fn codex_hook_entries() -> (v: Vec<Json>)
    ensures
        items_view(v@) == codex_entries_v(),
{
    let mut v: Vec<Json> = Vec::new();
    v.push(hook_entry("Edit|Write|apply_patch", "node harness/scripts/hooks/harness-edit-guard.mjs"));
    v.push(hook_entry("Bash", "node harness/scripts/hooks/bash-wrapper-guard.mjs"));
    assert(items_view(v@) =~= codex_entries_v());
    v
}

/// The permission rules that the harness denies in that settings file.
pub open spec fn claude_deny_v() -> Seq<Seq<char>> {
    seq!["Bash(gh:*)"@, "Bash(git commit:*)"@, "Bash(git merge --continue:*)"@]
}

/// The permission rules that the harness denies in that settings file.
pub fn claude_deny_rules() -> (v: Vec<String>)
    ensures
        strings_view(v@) == claude_deny_v(),
{
    let mut v: Vec<String> = Vec::new();
    v.push(owned("Bash(gh:*)"));
    v.push(owned("Bash(git commit:*)"));
    v.push(owned("Bash(git merge --continue:*)"));
    assert(strings_view(v@) =~= claude_deny_v());
    v
}

/// An entry whose command holds the hook directory is the harness's own.
proof fn lemma_hook_entry_managed(matcher: Seq<char>, command: Seq<char>)
    requires
        text::contains_seq(command, hook_marker()),
    ensures
        is_managed_entry(hook_entry_v(matcher, command)),
{
    reveal_strlit("matcher");
    reveal_strlit("hooks");
    reveal_strlit("type");
    reveal_strlit("command");
    let handler_es = seq![("type"@, JsonV::Str("command"@)), ("command"@, JsonV::Str(command))];
    let entry_es = seq![
        ("matcher"@, JsonV::Str(matcher)),
        ("hooks"@, JsonV::Array(seq![JsonV::Object(handler_es)])),
    ];
    assert("type"@ != "command"@) by {
        assert("type"@.len() != "command"@.len());
    }
    assert("matcher"@ != "hooks"@) by {
        assert("matcher"@.len() != "hooks"@.len());
    }
    lemma_key_index_is(handler_es, "command"@, 1);
    lemma_key_index_is(entry_es, "hooks"@, 1);
    assert(command_of(JsonV::Object(handler_es)) == command);
    let hs = seq![JsonV::Object(handler_es)];
    assert(text::contains_seq(command_of(hs[0]), hook_marker()));
    assert(has_marked_handler(hs));
}

/// Every entry that the harness registers, for either tool, is recognized as its own.
pub proof fn lemma_harness_entries_managed()
    ensures
        forall|i: int| 0 <= i < claude_entries_v().len() ==> is_managed_entry(#[trigger] claude_entries_v()[i]),
        forall|i: int| 0 <= i < codex_entries_v().len() ==> is_managed_entry(#[trigger] codex_entries_v()[i]),
{
    reveal_strlit("harness/scripts/hooks/");
    let c1 = "node \"${CLAUDE_PROJECT_DIR}/harness/scripts/hooks/harness-edit-guard.mjs\""@;
    let c2 = "node \"${CLAUDE_PROJECT_DIR}/harness/scripts/hooks/bash-wrapper-guard.mjs\""@;
    let c3 = "node harness/scripts/hooks/harness-edit-guard.mjs"@;
    let c4 = "node harness/scripts/hooks/bash-wrapper-guard.mjs"@;
    reveal_strlit("node \"${CLAUDE_PROJECT_DIR}/harness/scripts/hooks/harness-edit-guard.mjs\"");
    reveal_strlit("node \"${CLAUDE_PROJECT_DIR}/harness/scripts/hooks/bash-wrapper-guard.mjs\"");
    reveal_strlit("node harness/scripts/hooks/harness-edit-guard.mjs");
    reveal_strlit("node harness/scripts/hooks/bash-wrapper-guard.mjs");
    assert(c1.subrange(28, 50) =~= hook_marker());
    assert(text::occurs_at(c1, hook_marker(), 28));
    assert(c2.subrange(28, 50) =~= hook_marker());
    assert(text::occurs_at(c2, hook_marker(), 28));
    assert(c3.subrange(5, 27) =~= hook_marker());
    assert(text::occurs_at(c3, hook_marker(), 5));
    assert(c4.subrange(5, 27) =~= hook_marker());
    assert(text::occurs_at(c4, hook_marker(), 5));
    lemma_hook_entry_managed("Edit|Write|MultiEdit"@, c1);
    lemma_hook_entry_managed("Bash"@, c2);
    lemma_hook_entry_managed("Edit|Write|apply_patch"@, c3);
    lemma_hook_entry_managed("Bash"@, c4);
}

/// Syncing a settings file twice writes the same document as syncing it once,
/// for both tools' settings (one with deny rules, one without): a check right after a
/// sync finds the settings in place.
pub proof fn lemma_tool_settings_stable(doc: Option<JsonV>)
    ensures
        merged_hook_config_spec(
            Some(merged_hook_config_spec(doc, claude_entries_v(), Some(claude_deny_v()))),
            claude_entries_v(),
            Some(claude_deny_v()),
        ) == merged_hook_config_spec(doc, claude_entries_v(), Some(claude_deny_v())),
        merged_hook_config_spec(
            Some(merged_hook_config_spec(doc, codex_entries_v(), None)),
            codex_entries_v(),
            None,
        ) == merged_hook_config_spec(doc, codex_entries_v(), None),
{
    lemma_harness_entries_managed();
    lemma_merged_hook_config_idempotent(doc, claude_entries_v(), Some(claude_deny_v()));
    lemma_merged_hook_config_idempotent(doc, codex_entries_v(), None);
}

} // verus!
