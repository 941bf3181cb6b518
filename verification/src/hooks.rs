//! Merging the harness's hook registrations into a tool's settings document.
//! Only the entries whose commands run a handler under `harness/scripts/hooks/`
//! belong to the harness; every other setting of the project is kept.
use vstd::prelude::*;
use crate::text;
use crate::text::{chars_of, contains_chars};
use crate::json::{
    Json,
    JsonV,
    EntriesV,
    key_position,
    take_entry,
    put_entry,
    owned,
    object_entries,
    array_items,
    as_str,
    obj_get,
    obj_set,
    key_index,
    items_view,
    entries_view,
    strings_view,
    lemma_array_view,
    lemma_object_view,
    lemma_take_put,
    lemma_key_index,
    lemma_get_set_same,
    lemma_get_set_other,
    lemma_set_same_value,
    json_pretty,
    json_parse,
    parse_json,
    pretty_text,
    with_newline,
};

verus! {

/// The path that marks a hook command as the harness's own.
pub open spec fn hook_marker() -> Seq<char> {
    "harness/scripts/hooks/"@
}

/// The command string of a hook handler (empty when it has none).
pub open spec fn command_of(h: JsonV) -> Seq<char> {
    match h {
        JsonV::Object(es) => match as_str(obj_get(es, "command"@)) {
            Some(s) => s,
            None => Seq::empty(),
        },
        _ => Seq::empty(),
    }
}

/// One of the handlers runs a command under the hook directory.
pub open spec fn has_marked_handler(hs: Seq<JsonV>) -> bool {
    exists|i: int| 0 <= i < hs.len() && text::contains_seq(command_of(#[trigger] hs[i]), hook_marker())
}

/// A `PreToolUse` entry belongs to the harness when one of its handlers runs a
/// command under the hook directory.
pub open spec fn is_managed_entry(e: JsonV) -> bool {
    match e {
        JsonV::Object(es) => match obj_get(es, "hooks"@) {
            Some(JsonV::Array(hs)) => has_marked_handler(hs),
            _ => false,
        },
        _ => false,
    }
}

/// The entries of `s` that do not belong to the harness, in order.
pub open spec fn keep_unmanaged(s: Seq<JsonV>) -> Seq<JsonV>
    decreases s.len(),
{
    if s.len() == 0 {
        Seq::empty()
    } else if is_managed_entry(s.last()) {
        keep_unmanaged(s.drop_last())
    } else {
        keep_unmanaged(s.drop_last()).push(s.last())
    }
}

/// `a` with each rule of `ds`, in order, appended unless an equal string is already there.
pub open spec fn with_rules(a: Seq<JsonV>, ds: Seq<Seq<char>>) -> Seq<JsonV>
    decreases ds.len(),
{
    if ds.len() == 0 {
        a
    } else {
        let r = with_rules(a, ds.drop_last());
        if r.contains(JsonV::Str(ds.last())) {
            r
        } else {
            r.push(JsonV::Str(ds.last()))
        }
    }
}

/// The settings with every rule of `ds` in `permissions.deny`: a missing or
/// non-object `permissions`, or a missing or non-array `deny`, starts empty.
pub open spec fn with_deny(obj: EntriesV, ds: Seq<Seq<char>>) -> EntriesV {
    let perms = object_entries(obj_get(obj, "permissions"@));
    let arr = array_items(obj_get(perms, "deny"@));
    obj_set(
        obj,
        "permissions"@,
        JsonV::Object(obj_set(perms, "deny"@, JsonV::Array(with_rules(arr, ds)))),
    )
}

/// The settings with `hooks.PreToolUse` holding the harness's entries first,
/// then the project's own entries as they were.
pub open spec fn with_hooks(obj: EntriesV, entries: Seq<JsonV>) -> EntriesV {
    let hooks = object_entries(obj_get(obj, "hooks"@));
    let pre = array_items(obj_get(hooks, "PreToolUse"@));
    obj_set(
        obj,
        "hooks"@,
        JsonV::Object(obj_set(hooks, "PreToolUse"@, JsonV::Array(entries + keep_unmanaged(pre)))),
    )
}

/// The expected settings document: the existing one (an empty object when it
/// is missing, unreadable or not an object), with the deny rules added when
/// there are any, and the harness's hook entries in place of the old ones.
pub open spec fn merged_hook_config_spec(
    doc: Option<JsonV>,
    entries: Seq<JsonV>,
    deny: Option<Seq<Seq<char>>>,
) -> JsonV {
    let obj = object_entries(doc);
    let obj = match deny {
        Some(ds) => with_deny(obj, ds),
        None => obj,
    };
    JsonV::Object(with_hooks(obj, entries))
}

/// The model of an optional document.
pub open spec fn opt_view(doc: Option<Json>) -> Option<JsonV> {
    match doc {
        Some(j) => Some(j@),
        None => None,
    }
}

/// The model of an optional list of rules.
pub open spec fn opt_strings_view(ds: Option<&Vec<String>>) -> Option<Seq<Seq<char>>> {
    match ds {
        Some(d) => Some(strings_view(d@)),
        None => None,
    }
}

fn hook_marker_chars() -> (v: Vec<char>)
    ensures
        v@ == hook_marker(),
{
    chars_of("harness/scripts/hooks/")
}

/// Takes the value under `key` out of `obj`; it is returned as the entries of
/// an object (none when it is missing or not an object).
fn take_object(obj: &mut Vec<(String, Json)>, key: &String) -> (r: (Option<usize>, Vec<(String, Json)>))
    ensures
        match r.0 {
            Some(i) => {
                &&& key_index(entries_view(old(obj)@), key@) == Some(i as int)
                &&& final(obj)@ == old(obj)@.remove(i as int)
            },
            None => {
                &&& key_index(entries_view(old(obj)@), key@) is None
                &&& final(obj)@ == old(obj)@
            },
        },
        entries_view(r.1@) == object_entries(obj_get(entries_view(old(obj)@), key@)),
{
    let ghost es = entries_view(obj@);
    proof {
        lemma_key_index(es, key@);
    }
    match take_entry(obj, key) {
        Some((i, v)) => match v {
            Json::Object(inner) => {
                proof {
                    lemma_object_view(inner);
                }
                (Some(i), inner)
            },
            _ => {
                assert(entries_view(Seq::<(String, Json)>::empty()) =~= Seq::<(Seq<char>, JsonV)>::empty());
                (Some(i), Vec::new())
            },
        },
        None => {
            assert(entries_view(Seq::<(String, Json)>::empty()) =~= Seq::<(Seq<char>, JsonV)>::empty());
            (None, Vec::new())
        },
    }
}

/// Takes the value under `key` out of `obj`; it is returned as the items of an
/// array (none when it is missing or not an array).
fn take_array(obj: &mut Vec<(String, Json)>, key: &String) -> (r: (Option<usize>, Vec<Json>))
    ensures
        match r.0 {
            Some(i) => {
                &&& key_index(entries_view(old(obj)@), key@) == Some(i as int)
                &&& final(obj)@ == old(obj)@.remove(i as int)
            },
            None => {
                &&& key_index(entries_view(old(obj)@), key@) is None
                &&& final(obj)@ == old(obj)@
            },
        },
        items_view(r.1@) == array_items(obj_get(entries_view(old(obj)@), key@)),
{
    let ghost es = entries_view(obj@);
    proof {
        lemma_key_index(es, key@);
    }
    match take_entry(obj, key) {
        Some((i, v)) => match v {
            Json::Array(inner) => {
                proof {
                    lemma_array_view(inner);
                }
                (Some(i), inner)
            },
            _ => {
                assert(items_view(Seq::<Json>::empty()) =~= Seq::<JsonV>::empty());
                (Some(i), Vec::new())
            },
        },
        None => {
            assert(items_view(Seq::<Json>::empty()) =~= Seq::<JsonV>::empty());
            (None, Vec::new())
        },
    }
}

/// Puts `(key, v)` back where it was taken from, or at the end.
fn restore(
    obj: &mut Vec<(String, Json)>,
    pos: Option<usize>,
    key: String,
    v: Json,
    Ghost(before): Ghost<Seq<(String, Json)>>,
)
    requires
        match pos {
            Some(i) => {
                &&& key_index(entries_view(before), key@) == Some(i as int)
                &&& old(obj)@ == before.remove(i as int)
            },
            None => {
                &&& key_index(entries_view(before), key@) is None
                &&& old(obj)@ == before
            },
        },
    ensures
        entries_view(final(obj)@) == obj_set(entries_view(before), key@, v@),
{
    proof {
        lemma_key_index(entries_view(before), key@);
        lemma_take_put(before, key, v, pos);
    }
    put_entry(obj, pos, key, v);
}

/// `arr` holds a string equal to `d`.
fn has_string(arr: &Vec<Json>, d: &String) -> (b: bool)
    ensures
        b == items_view(arr@).contains(JsonV::Str(d@)),
{
    let ghost a = items_view(arr@);
    let mut i: usize = 0;
    while i < arr.len()
        invariant
            i <= arr.len(),
            a == items_view(arr@),
            forall|j: int| 0 <= j < i ==> a[j] != JsonV::Str(d@),
        decreases arr.len() - i,
    {
        match &arr[i] {
            Json::Str(s) => {
                if *s == *d {
                    assert(a[i as int] == JsonV::Str(d@));
                    return true;
                }
            },
            _ => {},
        }
        i = i + 1;
    }
    false
}

/// Appends to `arr` each rule of `ds` that it does not hold yet.
fn add_rules(arr: &mut Vec<Json>, ds: &Vec<String>)
    ensures
        items_view(final(arr)@) == with_rules(items_view(old(arr)@), strings_view(ds@)),
{
    let ghost a0 = items_view(arr@);
    let ghost dv = strings_view(ds@);
    let mut k: usize = 0;
    assert(dv.take(0) =~= Seq::<Seq<char>>::empty());
    while k < ds.len()
        invariant
            k <= ds.len(),
            dv == strings_view(ds@),
            items_view(arr@) == with_rules(a0, dv.take(k as int)),
        decreases ds.len() - k,
    {
        assert(dv.take(k + 1).drop_last() =~= dv.take(k as int));
        if !has_string(arr, &ds[k]) {
            let ghost before = arr@;
            arr.push(Json::Str(ds[k].clone()));
            assert(items_view(arr@) =~= items_view(before).push(JsonV::Str(dv[k as int])));
        }
        k = k + 1;
    }
    assert(dv.take(ds.len() as int) =~= dv);
}

/// The command string of a handler contains the hook directory.
fn command_has_marker(h: &Json, marker: &Vec<char>) -> (b: bool)
    ensures
        b == text::contains_seq(command_of(h@), marker@),
{
    let empty: Vec<char> = Vec::new();
    assert(empty@ =~= Seq::<char>::empty());
    match h {
        Json::Object(m) => {
            proof {
                lemma_object_view(*m);
                lemma_key_index(entries_view(m@), "command"@);
            }
            let key = owned("command");
            match key_position(m, &key) {
                Some(i) => match &m[i].1 {
                    Json::Str(s) => contains_chars(&chars_of(s.as_str()), marker),
                    _ => contains_chars(&empty, marker),
                },
                None => contains_chars(&empty, marker),
            }
        },
        _ => contains_chars(&empty, marker),
    }
}

/// The `PreToolUse` entry belongs to the harness.
fn is_managed(e: &Json, marker: &Vec<char>) -> (b: bool)
    requires
        marker@ == hook_marker(),
    ensures
        b == is_managed_entry(e@),
{
    match e {
        Json::Object(m) => {
            proof {
                lemma_object_view(*m);
                lemma_key_index(entries_view(m@), "hooks"@);
            }
            let key = owned("hooks");
            match key_position(m, &key) {
                Some(i) => match &m[i].1 {
                    Json::Array(hs) => {
                        proof {
                            lemma_array_view(*hs);
                        }
                        let ghost hv = items_view(hs@);
                        assert(m@[i as int].1@ == JsonV::Array(hv));
                        assert(obj_get(entries_view(m@), "hooks"@) == Some(JsonV::Array(hv)));
                        let mut k: usize = 0;
                        while k < hs.len()
                            invariant
                                k <= hs.len(),
                                e@ == JsonV::Object(entries_view(m@)),
                                obj_get(entries_view(m@), "hooks"@) == Some(JsonV::Array(hv)),
                                hv == items_view(hs@),
                                marker@ == hook_marker(),
                                forall|j: int|
                                    0 <= j < k ==> !text::contains_seq(
                                        command_of(#[trigger] hv[j]),
                                        hook_marker(),
                                    ),
                            decreases hs.len() - k,
                        {
                            if command_has_marker(&hs[k], marker) {
                                assert(hv[k as int] == hs@[k as int]@);
                                assert(text::contains_seq(command_of(hv[k as int]), hook_marker()));
                                assert(hv.len() == hs.len());
                                assert(0 <= k < hv.len());
                                assert(has_marked_handler(hv));
                                return true;
                            }
                            k = k + 1;
                        }
                        false
                    },
                    _ => false,
                },
                None => false,
            }
        },
        _ => false,
    }
}

/// Appends to `out` the items of `items` that do not belong to the harness.
fn append_unmanaged(out: &mut Vec<Json>, items: Vec<Json>)
    ensures
        items_view(final(out)@) == items_view(old(out)@) + keep_unmanaged(items_view(items@)),
{
    let marker = hook_marker_chars();
    let ghost all = items_view(items@);
    let ghost start = items_view(out@);
    let n = items.len();
    let mut rest = items;
    let mut k: usize = 0;
    assert(all.take(0) =~= Seq::<JsonV>::empty());
    while rest.len() > 0
        invariant
            marker@ == hook_marker(),
            all.len() == n,
            k <= all.len(),
            items_view(rest@) == all.skip(k as int),
            items_view(out@) == start + keep_unmanaged(all.take(k as int)),
        decreases rest.len(),
    {
        let ghost before_rest = rest@;
        assert(items_view(before_rest).len() == before_rest.len());
        assert(all.skip(k as int).len() == before_rest.len());
        assert(items_view(before_rest)[0] == before_rest[0]@);
        let item = rest.remove(0);
        assert(item@ == all[k as int]);
        assert(items_view(rest@) =~= items_view(before_rest).skip(1));
        assert(items_view(rest@) =~= all.skip(k + 1));
        assert(all.take(k + 1).drop_last() =~= all.take(k as int));
        if !is_managed(&item, &marker) {
            let ghost before = out@;
            out.push(item);
            assert(items_view(out@) =~= items_view(before).push(all[k as int]));
        }
        k = k + 1;
    }
    assert(all.take(k as int) =~= all);
}

/// Adds the deny rules to the `permissions.deny` list of the settings.
fn apply_deny(obj: &mut Vec<(String, Json)>, ds: &Vec<String>)
    ensures
        entries_view(final(obj)@) == with_deny(entries_view(old(obj)@), strings_view(ds@)),
{
    let ghost before = obj@;
    let pkey = owned("permissions");
    let (ppos, mut perms) = take_object(obj, &pkey);
    let ghost perms_before = perms@;
    let dkey = owned("deny");
    let (dpos, mut arr) = take_array(&mut perms, &dkey);
    add_rules(&mut arr, ds);
    proof {
        lemma_array_view(arr);
    }
    restore(&mut perms, dpos, dkey, Json::Array(arr), Ghost(perms_before));
    proof {
        lemma_object_view(perms);
    }
    restore(obj, ppos, pkey, Json::Object(perms), Ghost(before));
}

/// Puts the harness's entries first in `hooks.PreToolUse`, followed by the
/// project's own entries.
fn apply_hooks(obj: &mut Vec<(String, Json)>, entries: Vec<Json>)
    ensures
        entries_view(final(obj)@) == with_hooks(entries_view(old(obj)@), items_view(entries@)),
{
    let ghost before = obj@;
    let ghost ev = items_view(entries@);
    let hkey = owned("hooks");
    let (hpos, mut hooks) = take_object(obj, &hkey);
    let ghost hooks_before = hooks@;
    let pkey = owned("PreToolUse");
    let (ppos, pre) = take_array(&mut hooks, &pkey);
    let mut merged = entries;
    append_unmanaged(&mut merged, pre);
    proof {
        lemma_array_view(merged);
    }
    restore(&mut hooks, ppos, pkey, Json::Array(merged), Ghost(hooks_before));
    proof {
        lemma_object_view(hooks);
    }
    restore(obj, hpos, hkey, Json::Object(hooks), Ghost(before));
}

/// The expected settings document of a tool: `existing` is the parsed current
/// file (`None` when it is missing or does not parse), `entries` the harness's
/// `PreToolUse` entries, and `deny` the permission rules to add, if any.
pub fn merged_hook_config(existing: Option<Json>, entries: Vec<Json>, deny: Option<&Vec<String>>) -> (out: Json)
    ensures
        out@ == merged_hook_config_spec(opt_view(existing), items_view(entries@), opt_strings_view(deny)),
{
    let mut obj: Vec<(String, Json)> = match existing {
        Some(Json::Object(es)) => {
            proof {
                lemma_object_view(es);
            }
            es
        },
        _ => {
            assert(entries_view(Seq::<(String, Json)>::empty()) =~= Seq::<(Seq<char>, JsonV)>::empty());
            Vec::new()
        },
    };
    match deny {
        Some(ds) => apply_deny(&mut obj, ds),
        None => {},
    }
    apply_hooks(&mut obj, entries);
    proof {
        lemma_object_view(obj);
    }
    Json::Object(obj)
}


proof fn lemma_keep_unmanaged_concat(a: Seq<JsonV>, b: Seq<JsonV>)
    ensures
        keep_unmanaged(a + b) == keep_unmanaged(a) + keep_unmanaged(b),
    decreases b.len(),
{
    if b.len() == 0 {
        assert(a + b =~= a);
        assert(keep_unmanaged(a) + keep_unmanaged(b) =~= keep_unmanaged(a));
    } else {
        assert((a + b).drop_last() =~= a + b.drop_last());
        assert((a + b).last() == b.last());
        lemma_keep_unmanaged_concat(a, b.drop_last());
        if is_managed_entry(b.last()) {
        } else {
            assert(keep_unmanaged(a) + keep_unmanaged(b.drop_last()).push(b.last()) =~= (
            keep_unmanaged(a) + keep_unmanaged(b.drop_last())).push(b.last()));
        }
    }
}

proof fn lemma_keep_unmanaged_all_managed(a: Seq<JsonV>)
    requires
        forall|i: int| 0 <= i < a.len() ==> is_managed_entry(#[trigger] a[i]),
    ensures
        keep_unmanaged(a) == Seq::<JsonV>::empty(),
    decreases a.len(),
{
    if a.len() > 0 {
        assert(is_managed_entry(a[a.len() - 1]));
        lemma_keep_unmanaged_all_managed(a.drop_last());
    }
}

proof fn lemma_keep_unmanaged_idempotent(a: Seq<JsonV>)
    ensures
        keep_unmanaged(keep_unmanaged(a)) == keep_unmanaged(a),
    decreases a.len(),
{
    if a.len() > 0 {
        lemma_keep_unmanaged_idempotent(a.drop_last());
        if !is_managed_entry(a.last()) {
            let k = keep_unmanaged(a.drop_last());
            assert(k.push(a.last()).drop_last() =~= k);
        }
    }
}


/// After adding rules, every rule is present.
pub proof fn lemma_with_rules_contains(a: Seq<JsonV>, ds: Seq<Seq<char>>)
    ensures
        forall|i: int| 0 <= i < ds.len() ==> with_rules(a, ds).contains(JsonV::Str(#[trigger] ds[i])),
    decreases ds.len(),
{
    if ds.len() > 0 {
        let p = ds.drop_last();
        lemma_with_rules_contains(a, p);
        let r = with_rules(a, p);
        assert forall|i: int| 0 <= i < ds.len() implies with_rules(a, ds).contains(
            JsonV::Str(#[trigger] ds[i]),
        ) by {
            if i < ds.len() - 1 {
                assert(p[i] == ds[i]);
                assert(r.contains(JsonV::Str(p[i])));
                let j = choose|j: int| 0 <= j < r.len() && r[j] == JsonV::Str(p[i]);
                if !r.contains(JsonV::Str(ds.last())) {
                    assert(r.push(JsonV::Str(ds.last()))[j] == JsonV::Str(ds[i]));
                }
            } else {
                if !r.contains(JsonV::Str(ds.last())) {
                    assert(r.push(JsonV::Str(ds.last()))[r.len() as int] == JsonV::Str(ds.last()));
                }
            }
        }
    }
}

/// Adding rules that are all present already changes nothing.
proof fn lemma_with_rules_present(a: Seq<JsonV>, ds: Seq<Seq<char>>)
    requires
        forall|i: int| 0 <= i < ds.len() ==> a.contains(JsonV::Str(#[trigger] ds[i])),
    ensures
        with_rules(a, ds) == a,
    decreases ds.len(),
{
    if ds.len() > 0 {
        let p = ds.drop_last();
        assert forall|i: int| 0 <= i < p.len() implies a.contains(JsonV::Str(#[trigger] p[i])) by {
            assert(p[i] == ds[i]);
        }
        lemma_with_rules_present(a, p);
        assert(a.contains(JsonV::Str(ds[ds.len() - 1])));
    }
}

proof fn lemma_settings_keys_differ()
    ensures
        "hooks"@ != "permissions"@,
{
    reveal_strlit("hooks");
    reveal_strlit("permissions");
    assert("hooks"@.len() == 5);
    assert("permissions"@.len() == 11);
}

/// Merging the hook configuration twice gives what merging it once gives, as
/// long as every entry that the harness registers is recognized as its own (the
/// entries from the previous run are then replaced, not kept beside the new ones).
pub proof fn lemma_merged_hook_config_idempotent(
    doc: Option<JsonV>,
    entries: Seq<JsonV>,
    deny: Option<Seq<Seq<char>>>,
)
    requires
        forall|i: int| 0 <= i < entries.len() ==> is_managed_entry(#[trigger] entries[i]),
    ensures
        merged_hook_config_spec(Some(merged_hook_config_spec(doc, entries, deny)), entries, deny)
            == merged_hook_config_spec(doc, entries, deny),
{
    let obj0 = object_entries(doc);
    let obj1 = match deny {
        Some(ds) => with_deny(obj0, ds),
        None => obj0,
    };
    let obj2 = with_hooks(obj1, entries);
    assert(object_entries(Some(merged_hook_config_spec(doc, entries, deny))) == obj2);
    let hooks0 = object_entries(obj_get(obj1, "hooks"@));
    let pre0 = array_items(obj_get(hooks0, "PreToolUse"@));
    let hooks1 = obj_set(hooks0, "PreToolUse"@, JsonV::Array(entries + keep_unmanaged(pre0)));
    lemma_settings_keys_differ();
    match deny {
        Some(ds) => {
            let perms0 = object_entries(obj_get(obj0, "permissions"@));
            let w = with_rules(array_items(obj_get(perms0, "deny"@)), ds);
            let perms1 = obj_set(perms0, "deny"@, JsonV::Array(w));
            lemma_get_set_same(obj0, "permissions"@, JsonV::Object(perms1));
            lemma_get_set_other(obj1, "hooks"@, JsonV::Object(hooks1), "permissions"@);
            assert(obj_get(obj2, "permissions"@) == Some(JsonV::Object(perms1)));
            lemma_get_set_same(perms0, "deny"@, JsonV::Array(w));
            lemma_with_rules_contains(array_items(obj_get(perms0, "deny"@)), ds);
            lemma_with_rules_present(w, ds);
            lemma_set_same_value(perms1, "deny"@, JsonV::Array(w));
            lemma_set_same_value(obj2, "permissions"@, JsonV::Object(perms1));
            assert(with_deny(obj2, ds) == obj2);
        },
        None => {},
    }
    lemma_get_set_same(obj1, "hooks"@, JsonV::Object(hooks1));
    lemma_get_set_same(hooks0, "PreToolUse"@, JsonV::Array(entries + keep_unmanaged(pre0)));
    lemma_keep_unmanaged_concat(entries, keep_unmanaged(pre0));
    lemma_keep_unmanaged_all_managed(entries);
    lemma_keep_unmanaged_idempotent(pre0);
    assert(keep_unmanaged(entries + keep_unmanaged(pre0)) =~= keep_unmanaged(pre0));
    lemma_set_same_value(hooks1, "PreToolUse"@, JsonV::Array(entries + keep_unmanaged(pre0)));
    lemma_set_same_value(obj2, "hooks"@, JsonV::Object(hooks1));
    assert(with_hooks(obj2, entries) == obj2);
}

/// Merging touches only `hooks` and (when rules are given) `permissions`:
/// every other setting of the project keeps its value; and afterwards
/// `permissions.deny` holds every given rule.
pub proof fn lemma_merged_hook_config_keeps_other_settings(
    doc: Option<JsonV>,
    entries: Seq<JsonV>,
    deny: Option<Seq<Seq<char>>>,
    k: Seq<char>,
)
    requires
        k != "hooks"@,
        deny is Some ==> k != "permissions"@,
    ensures
        obj_get(object_entries(Some(merged_hook_config_spec(doc, entries, deny))), k) == obj_get(
            object_entries(doc),
            k,
        ),
        deny matches Some(ds) ==> forall|i: int|
            0 <= i < ds.len() ==> array_items(
                obj_get(
                    object_entries(
                        obj_get(
                            object_entries(Some(merged_hook_config_spec(doc, entries, deny))),
                            "permissions"@,
                        ),
                    ),
                    "deny"@,
                ),
            ).contains(JsonV::Str(#[trigger] ds[i])),
{
    let obj0 = object_entries(doc);
    let obj1 = match deny {
        Some(ds) => with_deny(obj0, ds),
        None => obj0,
    };
    let hooks0 = object_entries(obj_get(obj1, "hooks"@));
    let pre0 = array_items(obj_get(hooks0, "PreToolUse"@));
    let hooks1 = obj_set(hooks0, "PreToolUse"@, JsonV::Array(entries + keep_unmanaged(pre0)));
    let obj2 = with_hooks(obj1, entries);
    lemma_settings_keys_differ();
    lemma_get_set_other(obj1, "hooks"@, JsonV::Object(hooks1), k);
    match deny {
        Some(ds) => {
            let perms0 = object_entries(obj_get(obj0, "permissions"@));
            let a = array_items(obj_get(perms0, "deny"@));
            let w = with_rules(a, ds);
            let perms1 = obj_set(perms0, "deny"@, JsonV::Array(w));
            lemma_get_set_other(obj0, "permissions"@, JsonV::Object(perms1), k);
            lemma_get_set_same(obj0, "permissions"@, JsonV::Object(perms1));
            lemma_get_set_other(obj1, "hooks"@, JsonV::Object(hooks1), "permissions"@);
            lemma_get_set_same(perms0, "deny"@, JsonV::Array(w));
            lemma_with_rules_contains(a, ds);
        },
        None => {},
    }
}


/// The existing deny rules stay first, in their order, after the rules are added.
proof fn lemma_with_rules_prefix(a: Seq<JsonV>, ds: Seq<Seq<char>>)
    ensures
        a.len() <= with_rules(a, ds).len(),
        with_rules(a, ds).subrange(0, a.len() as int) == a,
    decreases ds.len(),
{
    if ds.len() > 0 {
        lemma_with_rules_prefix(a, ds.drop_last());
        let r = with_rules(a, ds.drop_last());
        if !r.contains(JsonV::Str(ds.last())) {
            assert(r.push(JsonV::Str(ds.last())).subrange(0, a.len() as int) =~= r.subrange(
                0,
                a.len() as int,
            ));
        }
    } else {
        assert(a.subrange(0, a.len() as int) =~= a);
    }
}

/// Every rule of a merged deny list was there before or is one of the given rules.
proof fn lemma_with_rules_from(a: Seq<JsonV>, ds: Seq<Seq<char>>, x: JsonV)
    requires
        with_rules(a, ds).contains(x),
    ensures
        a.contains(x) || exists|i: int| 0 <= i < ds.len() && x == JsonV::Str(ds[i]),
    decreases ds.len(),
{
    if ds.len() > 0 {
        let r = with_rules(a, ds.drop_last());
        if r.contains(x) {
            lemma_with_rules_from(a, ds.drop_last(), x);
            if !a.contains(x) {
                let i = choose|i: int| 0 <= i < ds.drop_last().len() && x == JsonV::Str(ds.drop_last()[i]);
                assert(x == JsonV::Str(ds[i]));
            }
        } else {
            let j = choose|j: int| 0 <= j < with_rules(a, ds).len() && with_rules(a, ds)[j] == x;
            assert(j == r.len());
            assert(x == JsonV::Str(ds[ds.len() - 1]));
        }
    }
}

/// Merging keeps the project's own permissions: every entry of `permissions`
/// other than `deny` keeps its value, the existing deny rules stay first and
/// in order, and every rule that the merged `deny` holds was there before or
/// is one of the given rules. Without rules, `permissions` is left as it was.
pub proof fn lemma_merged_hook_config_keeps_permissions(
    doc: Option<JsonV>,
    entries: Seq<JsonV>,
    deny: Option<Seq<Seq<char>>>,
    k: Seq<char>,
)
    requires
        k != "deny"@,
    ensures
        ({
            let before = object_entries(obj_get(object_entries(doc), "permissions"@));
            let after = object_entries(
                obj_get(object_entries(Some(merged_hook_config_spec(doc, entries, deny))), "permissions"@),
            );
            let old_rules = array_items(obj_get(before, "deny"@));
            let new_rules = array_items(obj_get(after, "deny"@));
            &&& obj_get(after, k) == obj_get(before, k)
            &&& deny is Some ==> old_rules.len() <= new_rules.len() && new_rules.subrange(
                0,
                old_rules.len() as int,
            ) == old_rules
            &&& deny matches Some(ds) ==> forall|x: JsonV|
                #[trigger] new_rules.contains(x) ==> old_rules.contains(x) || exists|i: int|
                    0 <= i < ds.len() && x == JsonV::Str(ds[i])
        }),
        deny is None ==> obj_get(
            object_entries(Some(merged_hook_config_spec(doc, entries, deny))),
            "permissions"@,
        ) == obj_get(object_entries(doc), "permissions"@),
{
    let obj0 = object_entries(doc);
    let obj1 = match deny {
        Some(ds) => with_deny(obj0, ds),
        None => obj0,
    };
    let hooks0 = object_entries(obj_get(obj1, "hooks"@));
    let pre0 = array_items(obj_get(hooks0, "PreToolUse"@));
    let hooks1 = obj_set(hooks0, "PreToolUse"@, JsonV::Array(entries + keep_unmanaged(pre0)));
    lemma_settings_keys_differ();
    lemma_get_set_other(obj1, "hooks"@, JsonV::Object(hooks1), "permissions"@);
    match deny {
        Some(ds) => {
            let perms0 = object_entries(obj_get(obj0, "permissions"@));
            let a = array_items(obj_get(perms0, "deny"@));
            let w = with_rules(a, ds);
            let perms1 = obj_set(perms0, "deny"@, JsonV::Array(w));
            lemma_get_set_same(obj0, "permissions"@, JsonV::Object(perms1));
            lemma_get_set_same(perms0, "deny"@, JsonV::Array(w));
            lemma_get_set_other(perms0, "deny"@, JsonV::Array(w), k);
            lemma_with_rules_prefix(a, ds);
            assert forall|x: JsonV| #[trigger] w.contains(x) implies a.contains(x) || exists|i: int|
                0 <= i < ds.len() && x == JsonV::Str(ds[i]) by {
                lemma_with_rules_from(a, ds, x);
            }
        },
        None => {},
    }
}

/// An entry is kept exactly when it was there and is not the harness's.
proof fn lemma_keep_unmanaged_contains(s: Seq<JsonV>, x: JsonV)
    ensures
        keep_unmanaged(s).contains(x) <==> (s.contains(x) && !is_managed_entry(x)),
    decreases s.len(),
{
    if s.len() > 0 {
        let d = s.drop_last();
        lemma_keep_unmanaged_contains(d, x);
        assert(s =~= d.push(s.last()));
        if s.contains(x) && x != s.last() {
            let j = choose|j: int| 0 <= j < s.len() && s[j] == x;
            assert(d[j] == x);
        }
        if d.contains(x) {
            let j = choose|j: int| 0 <= j < d.len() && d[j] == x;
            assert(s[j] == x);
        }
        let k = keep_unmanaged(d);
        if !is_managed_entry(s.last()) {
            if k.push(s.last()).contains(x) && x != s.last() {
                let j = choose|j: int| 0 <= j < k.push(s.last()).len() && k.push(s.last())[j] == x;
                assert(k[j] == x);
            }
            if k.contains(x) {
                let j = choose|j: int| 0 <= j < k.len() && k[j] == x;
                assert(k.push(s.last())[j] == x);
            }
            assert(k.push(s.last())[k.len() as int] == s.last());
        }
    }
}

/// After merging, the hook list `PreToolUse` starts with the harness's entries,
/// in order; what follows them are exactly the project's own entries that
/// were there before (any entry of the harness from before is dropped); and
/// every other setting inside `hooks` keeps its value.
pub proof fn lemma_merged_hook_config_pre_tool_use(
    doc: Option<JsonV>,
    entries: Seq<JsonV>,
    deny: Option<Seq<Seq<char>>>,
    k: Seq<char>,
)
    requires
        k != "PreToolUse"@,
    ensures
        ({
            let hooks_before = object_entries(obj_get(object_entries(doc), "hooks"@));
            let hooks_after = object_entries(
                obj_get(object_entries(Some(merged_hook_config_spec(doc, entries, deny))), "hooks"@),
            );
            let before = array_items(obj_get(hooks_before, "PreToolUse"@));
            let after = array_items(obj_get(hooks_after, "PreToolUse"@));
            &&& entries.len() <= after.len()
            &&& after.subrange(0, entries.len() as int) == entries
            &&& forall|i: int|
                entries.len() <= i < after.len() ==> before.contains(#[trigger] after[i])
                    && !is_managed_entry(after[i])
            &&& forall|x: JsonV|
                #[trigger] before.contains(x) && !is_managed_entry(x) ==> after.contains(x)
            &&& obj_get(hooks_after, k) == obj_get(hooks_before, k)
        }),
{
    let obj0 = object_entries(doc);
    let obj1 = match deny {
        Some(ds) => with_deny(obj0, ds),
        None => obj0,
    };
    let hooks0 = object_entries(obj_get(obj1, "hooks"@));
    let pre0 = array_items(obj_get(hooks0, "PreToolUse"@));
    let p = entries + keep_unmanaged(pre0);
    let hooks1 = obj_set(hooks0, "PreToolUse"@, JsonV::Array(p));
    lemma_settings_keys_differ();
    lemma_get_set_same(obj1, "hooks"@, JsonV::Object(hooks1));
    lemma_get_set_same(hooks0, "PreToolUse"@, JsonV::Array(p));
    lemma_get_set_other(hooks0, "PreToolUse"@, JsonV::Array(p), k);
    match deny {
        Some(ds) => {
            let perms0 = object_entries(obj_get(obj0, "permissions"@));
            let w = with_rules(array_items(obj_get(perms0, "deny"@)), ds);
            lemma_get_set_other(obj0, "permissions"@, JsonV::Object(obj_set(perms0, "deny"@, JsonV::Array(w))), "hooks"@);
        },
        None => {},
    }
    assert(hooks0 == object_entries(obj_get(obj0, "hooks"@)));
    assert(p.subrange(0, entries.len() as int) =~= entries);
    let ku = keep_unmanaged(pre0);
    assert forall|i: int| entries.len() <= i < p.len() implies pre0.contains(#[trigger] p[i])
        && !is_managed_entry(p[i]) by {
        assert(p[i] == ku[i - entries.len()]);
        lemma_keep_unmanaged_contains(pre0, p[i]);
    }
    assert forall|x: JsonV| #[trigger] pre0.contains(x) && !is_managed_entry(x) implies p.contains(x) by {
        lemma_keep_unmanaged_contains(pre0, x);
        let j = choose|j: int| 0 <= j < ku.len() && ku[j] == x;
        assert(p[entries.len() + j] == x);
    }
}

/// The text of a tool's expected settings file: the merged document as
/// `serde_json` writes it, then a line break.
pub fn hook_config_text(existing: Option<Json>, entries: Vec<Json>, deny: Option<&Vec<String>>) -> (s: String)
    ensures
        s@ == json_pretty(merged_hook_config_spec(opt_view(existing), items_view(entries@), opt_strings_view(deny)))
            + seq!['\n'],
{
    let merged = merged_hook_config(existing, entries, deny);
    with_newline(pretty_text(&merged))
}

/// The document that an existing settings text holds, if it has one that parses.
pub open spec fn parsed_settings(existing: Option<Seq<char>>) -> Option<JsonV> {
    match existing {
        Some(t) => json_parse(t),
        None => None,
    }
}

/// The text of a tool's expected settings file, given the text of the existing
/// file (nothing when it is missing or cannot be read): its document when it
/// parses, merged, as `serde_json` writes it, then a line break. A text that
/// does not parse counts as no settings at all.
pub fn hook_config_from_text(existing: Option<&str>, entries: Vec<Json>, deny: Option<&Vec<String>>) -> (s: String)
    ensures
        s@ == json_pretty(
            merged_hook_config_spec(
                parsed_settings(
                    match existing {
                        Some(t) => Some(t@),
                        None => None,
                    },
                ),
                items_view(entries@),
                opt_strings_view(deny),
            ),
        ) + seq!['\n'],
{
    let doc = match existing {
        Some(t) => match parse_json(t) {
            Ok(j) => Some(j),
            Err(_) => None,
        },
        None => None,
    };
    hook_config_text(doc, entries, deny)
}

/// Where the written settings text reads back as the document it was printed
/// from, running the merge on it again writes the same text.
pub proof fn lemma_hook_config_text_stable(
    existing: Option<Seq<char>>,
    entries: Seq<JsonV>,
    deny: Option<Seq<Seq<char>>>,
)
    requires
        forall|i: int| 0 <= i < entries.len() ==> is_managed_entry(#[trigger] entries[i]),
        json_parse(
            json_pretty(merged_hook_config_spec(parsed_settings(existing), entries, deny)) + seq!['\n'],
        ) == Some(merged_hook_config_spec(parsed_settings(existing), entries, deny)),
    ensures
        ({
            let written = json_pretty(merged_hook_config_spec(parsed_settings(existing), entries, deny))
                + seq!['\n'];
            json_pretty(merged_hook_config_spec(parsed_settings(Some(written)), entries, deny))
                + seq!['\n'] == written
        }),
{
    lemma_merged_hook_config_idempotent(parsed_settings(existing), entries, deny);
}

} // verus!
