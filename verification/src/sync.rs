//! The decisions of a sync that do not touch the file system: which mirrored
//! skills are stale, whether a file drifted from its expected content, what a
//! check reports, how a run ends; and the fixed files that a sync and an init write.
use vstd::prelude::*;
use crate::json::{owned, strings_view};
use crate::tree::{diff_dir, diff_spec, lemma_no_drift_same_tree, lemma_same_trees_no_drift, same_tree, Node};

verus! {

/// The names of `prev` that `shared` no longer holds, in order.
pub open spec fn stale_spec(prev: Seq<Seq<char>>, shared: Seq<Seq<char>>) -> Seq<Seq<char>>
    decreases prev.len(),
{
    if prev.len() == 0 {
        Seq::empty()
    } else if shared.contains(prev.last()) {
        stale_spec(prev.drop_last(), shared)
    } else {
        stale_spec(prev.drop_last(), shared).push(prev.last())
    }
}

fn holds_name(names: &Vec<String>, x: &String) -> (b: bool)
    ensures
        b == strings_view(names@).contains(x@),
{
    let ghost nv = strings_view(names@);
    let mut i: usize = 0;
    while i < names.len()
        invariant
            i <= names.len(),
            nv == strings_view(names@),
            forall|j: int| 0 <= j < i ==> nv[j] != x@,
        decreases names.len() - i,
    {
        if names[i] == *x {
            assert(nv[i as int] == x@);
            return true;
        }
        i = i + 1;
    }
    false
}

/// The shared skills mirrored before the sync (`prev`) that upstream removed
/// (they are not in `shared`): their mirrors are deleted.
pub fn stale_skills(prev: &Vec<String>, shared: &Vec<String>) -> (r: Vec<String>)
    ensures
        strings_view(r@) == stale_spec(strings_view(prev@), strings_view(shared@)),
{
    let ghost pv = strings_view(prev@);
    let ghost sv = strings_view(shared@);
    let mut r: Vec<String> = Vec::new();
    let mut i: usize = 0;
    assert(pv.take(0) =~= Seq::<Seq<char>>::empty());
    assert(strings_view(r@) =~= Seq::<Seq<char>>::empty());
    while i < prev.len()
        invariant
            i <= prev.len(),
            pv == strings_view(prev@),
            sv == strings_view(shared@),
            strings_view(r@) == stale_spec(pv.take(i as int), sv),
        decreases prev.len() - i,
    {
        assert(pv.take(i + 1).drop_last() =~= pv.take(i as int));
        assert(pv.take(i + 1).last() == prev[i as int]@);
        if !holds_name(shared, &prev[i]) {
            let ghost before = r@;
            r.push(prev[i].clone());
            assert(strings_view(r@) =~= strings_view(before).push(prev[i as int]@));
        }
        i = i + 1;
    }
    assert(pv.take(prev.len() as int) =~= pv);
    r
}

/// A name is stale exactly when it was mirrored before and the shared skills
/// no longer hold it; and there are no more stale names than names before.
pub proof fn lemma_stale_skills_are_the_dropped_names(prev: Seq<Seq<char>>, shared: Seq<Seq<char>>, x: Seq<char>)
    ensures
        stale_spec(prev, shared).contains(x) <==> (prev.contains(x) && !shared.contains(x)),
        stale_spec(prev, shared).len() <= prev.len(),
    decreases prev.len(),
{
    if prev.len() > 0 {
        let d = prev.drop_last();
        lemma_stale_skills_are_the_dropped_names(d, shared, x);
        let r = stale_spec(d, shared);
        if prev.contains(x) && x != prev.last() {
            let j = choose|j: int| 0 <= j < prev.len() && prev[j] == x;
            assert(d[j] == x);
        }
        if d.contains(x) {
            let j = choose|j: int| 0 <= j < d.len() && d[j] == x;
            assert(prev[j] == x);
        }
        assert(prev[prev.len() - 1] == prev.last());
        if !shared.contains(prev.last()) {
            let q = r.push(prev.last());
            if q.contains(x) && x != prev.last() {
                let j = choose|j: int| 0 <= j < q.len() && q[j] == x;
                assert(r[j] == x);
            }
            if r.contains(x) {
                let j = choose|j: int| 0 <= j < r.len() && r[j] == x;
                assert(q[j] == x);
            }
            assert(q[r.len() as int] == prev.last());
        }
    }
}

/// A generated file drifted: it could not be read, or it differs from what is expected.
pub fn file_drifted(actual: Option<&str>, expected: &str) -> (b: bool)
    ensures
        b == match actual {
            Some(a) => a@ != expected@,
            None => true,
        },
{
    match actual {
        Some(a) => {
            let x = owned(a);
            let y = owned(expected);
            !(x == y)
        },
        None => true,
    }
}

/// One thing that a check compares.
pub enum CheckItem {
    /// A tree as the harness has it and its copy, differences named under `label`.
    Tree { expected: Node, actual: Node, label: String },
    /// A generated file: its text on disk (nothing when it cannot be read), the
    /// text expected, and the name that reports it.
    File { actual: Option<String>, expected: String, label: String },
}

/// What a check reports for one item.
pub open spec fn item_drift(it: CheckItem) -> Seq<Seq<char>> {
    match it {
        CheckItem::Tree { expected, actual, label } => diff_spec(expected@, actual@, label@),
        CheckItem::File { actual, expected, label } => if match actual {
            Some(a) => a@ != expected@,
            None => true,
        } {
            seq![label@]
        } else {
            Seq::empty()
        },
    }
}

/// What a check reports for its items: each item's drift, in the items' order.
pub open spec fn drift_of(items: Seq<CheckItem>) -> Seq<Seq<char>>
    decreases items.len(),
{
    if items.len() == 0 {
        Seq::empty()
    } else {
        drift_of(items.drop_last()) + item_drift(items.last())
    }
}

/// The drift list of a check over `items`.
pub fn check_drift(items: &Vec<CheckItem>) -> (d: Vec<String>)
    ensures
        strings_view(d@) == drift_of(items@),
{
    let mut d: Vec<String> = Vec::new();
    let mut i: usize = 0;
    while i < items.len()
        invariant
            i <= items.len(),
            strings_view(d@) == drift_of(items@.take(i as int)),
        decreases items.len() - i,
    {
        assert(items@.take(i + 1).drop_last() =~= items@.take(i as int));
        assert(items@.take(i + 1).last() == items@[i as int]);
        match &items[i] {
            CheckItem::Tree { expected, actual, label } => {
                diff_dir(expected, actual, label.as_str(), &mut d);
            },
            CheckItem::File { actual, expected, label } => {
                let drifted = match actual {
                    Some(a) => file_drifted(Some(a.as_str()), expected.as_str()),
                    None => true,
                };
                if drifted {
                    let ghost before = d@;
                    d.push(label.clone());
                    assert(strings_view(d@) =~= strings_view(before).push(label@));
                }
            },
        }
        i = i + 1;
    }
    assert(items@.take(items.len() as int) =~= items@);
    d
}

/// An item is in sync: its two trees hold the same things, or its file holds
/// the expected text.
pub open spec fn item_in_sync(it: CheckItem) -> bool {
    match it {
        CheckItem::Tree { expected, actual, .. } => same_tree(expected@, actual@),
        CheckItem::File { actual, expected, .. } => match actual {
            Some(a) => a@ == expected@,
            None => false,
        },
    }
}

/// A check over items that are all in sync, as a sync leaves them, reports nothing.
pub proof fn lemma_check_after_sync_is_clean(items: Seq<CheckItem>)
    requires
        forall|i: int| 0 <= i < items.len() ==> item_in_sync(#[trigger] items[i]),
    ensures
        drift_of(items) == Seq::<Seq<char>>::empty(),
    decreases items.len(),
{
    if items.len() > 0 {
        assert(item_in_sync(items[items.len() - 1]));
        assert forall|i: int| 0 <= i < items.len() - 1 implies item_in_sync(#[trigger] items.drop_last()[i]) by {
            assert(items.drop_last()[i] == items[i]);
        }
        lemma_check_after_sync_is_clean(items.drop_last());
        match items.last() {
            CheckItem::Tree { expected, actual, label } => {
                lemma_same_trees_no_drift(expected@, actual@, label@);
            },
            CheckItem::File { .. } => {},
        }
        assert(drift_of(items) =~= Seq::<Seq<char>>::empty());
    }
}

/// What a check reports for one item is part of what it reports for all.
proof fn lemma_drift_of_holds_item(items: Seq<CheckItem>, i: int, x: Seq<char>)
    requires
        0 <= i < items.len(),
        item_drift(items[i]).contains(x),
    ensures
        drift_of(items).contains(x),
    decreases items.len(),
{
    let n = items.len() - 1;
    if i == n {
        let j = choose|j: int| 0 <= j < item_drift(items[i]).len() && item_drift(items[i])[j] == x;
        assert(drift_of(items)[drift_of(items.drop_last()).len() + j] == x);
    } else {
        assert(items.drop_last()[i] == items[i]);
        lemma_drift_of_holds_item(items.drop_last(), i, x);
        let j = choose|j: int| 0 <= j < drift_of(items.drop_last()).len() && drift_of(items.drop_last())[j] == x;
        assert(drift_of(items)[j] == x);
    }
}

/// A check reports a generated file whose text cannot be read or is not
/// exactly the expected text, under its label.
pub proof fn lemma_check_reports_drifted_file(items: Seq<CheckItem>, i: int)
    requires
        0 <= i < items.len(),
        items[i] matches CheckItem::File { actual, expected, .. } && (actual matches Some(a) ==> a@
            != expected@),
    ensures
        items[i] matches CheckItem::File { label, .. } && drift_of(items).contains(label@),
{
    match items[i] {
        CheckItem::File { label, .. } => {
            assert(item_drift(items[i])[0] == label@);
            lemma_drift_of_holds_item(items, i, label@);
        },
        _ => {},
    }
}

/// A check that reports nothing found every item in sync: each file holds
/// exactly the expected text, and each pair of trees holds the same things.
pub proof fn lemma_clean_check_means_in_sync(items: Seq<CheckItem>)
    requires
        drift_of(items).len() == 0,
    ensures
        forall|i: int|
            0 <= i < items.len() ==> match #[trigger] items[i] {
                CheckItem::File { actual, expected, .. } => actual matches Some(a) && a@ == expected@,
                CheckItem::Tree { expected, actual, .. } => same_tree(expected@, actual@),
            },
    decreases items.len(),
{
    if items.len() > 0 {
        let n = items.len() - 1;
        assert(drift_of(items) == drift_of(items.drop_last()) + item_drift(items[n]));
        lemma_clean_check_means_in_sync(items.drop_last());
        assert forall|i: int| 0 <= i < n implies items.drop_last()[i] == items[i] by {}
        match items[n] {
            CheckItem::Tree { expected, actual, label } => {
                lemma_no_drift_same_tree(expected@, actual@, label@);
            },
            CheckItem::File { .. } => {},
        }
    }
}

/// A run succeeds unless it only checks and found drift.
pub fn sync_succeeded(check: bool, drift: &Vec<String>) -> (b: bool)
    ensures
        b == (!check || drift.len() == 0),
{
    !check || drift.len() == 0
}

/// The opencode plugin that connects the harness's hook handlers.
pub fn opencode_plugin() -> (r: String)
    ensures
        r@ == r#"// このファイルは生成物である。直接編集しない。再生成: agent-harness sync
// 共有ハーネスのフックハンドラ(harness/scripts/hooks/)を opencode に接続するプラグイン。
import { spawn } from "node:child_process"

const runHook = (script, toolInput, directory) =>
  new Promise((resolvePromise) => {
    const child = spawn(process.execPath, [script], { cwd: directory, stdio: ["pipe", "pipe", "ignore"] })
    let out = ""
    child.stdout.on("data", (c) => { out += c })
    child.on("close", () => resolvePromise(out))
    child.on("error", () => resolvePromise(""))
    child.stdin.end(JSON.stringify({ tool_input: toolInput, cwd: directory }))
  })

export const AgentHarnessGuards = async ({ directory }) => ({
  "tool.execute.before": async (input, output) => {
    const args = output.args ?? {}
    let script = null
    let toolInput = null
    if (input.tool === "bash") {
      script = "harness/scripts/hooks/bash-wrapper-guard.mjs"
      toolInput = { command: args.command ?? "" }
    } else if (["edit", "write", "apply_patch", "patch"].includes(input.tool)) {
      script = "harness/scripts/hooks/harness-edit-guard.mjs"
      toolInput = { file_path: args.filePath ?? "", patchText: args.patchText ?? "" }
    }
    if (!script) return
    const out = await runHook(script, toolInput, directory)
    let decision
    try { decision = JSON.parse(out).hookSpecificOutput } catch { return }
    if (decision && decision.permissionDecision === "deny") throw new Error(decision.permissionDecisionReason)
  },
})
"#@,
{
    owned(r#"// このファイルは生成物である。直接編集しない。再生成: agent-harness sync
// 共有ハーネスのフックハンドラ(harness/scripts/hooks/)を opencode に接続するプラグイン。
import { spawn } from "node:child_process"

const runHook = (script, toolInput, directory) =>
  new Promise((resolvePromise) => {
    const child = spawn(process.execPath, [script], { cwd: directory, stdio: ["pipe", "pipe", "ignore"] })
    let out = ""
    child.stdout.on("data", (c) => { out += c })
    child.on("close", () => resolvePromise(out))
    child.on("error", () => resolvePromise(""))
    child.stdin.end(JSON.stringify({ tool_input: toolInput, cwd: directory }))
  })

export const AgentHarnessGuards = async ({ directory }) => ({
  "tool.execute.before": async (input, output) => {
    const args = output.args ?? {}
    let script = null
    let toolInput = null
    if (input.tool === "bash") {
      script = "harness/scripts/hooks/bash-wrapper-guard.mjs"
      toolInput = { command: args.command ?? "" }
    } else if (["edit", "write", "apply_patch", "patch"].includes(input.tool)) {
      script = "harness/scripts/hooks/harness-edit-guard.mjs"
      toolInput = { file_path: args.filePath ?? "", patchText: args.patchText ?? "" }
    }
    if (!script) return
    const out = await runHook(script, toolInput, directory)
    let decision
    try { decision = JSON.parse(out).hookSpecificOutput } catch { return }
    if (decision && decision.permissionDecision === "deny") throw new Error(decision.permissionDecisionReason)
  },
})
"#)
}

/// The skeleton `PROJECT.md` that an init writes when the project has none.
pub fn project_md_template() -> (r: String)
    ensures
        r@ == "# プロジェクト固有の常時規約\n\n<!-- 常時必要なプロジェクト固有の規約だけをここに書く。sync が harness/AGENTS.md(共有規約)と結合してルート AGENTS.md を生成する。 -->\n"@,
{
    owned("# プロジェクト固有の常時規約\n\n<!-- 常時必要なプロジェクト固有の規約だけをここに書く。sync が harness/AGENTS.md(共有規約)と結合してルート AGENTS.md を生成する。 -->\n")
}

} // verus!
