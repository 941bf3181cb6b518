//! Comparing two directory trees, as a check does between the shared harness
//! and its copies. A tree is a snapshot of what the file system reports:
//! for each path, whether it exists, whether it is a directory and, for a
//! file, its bytes (or that they could not be read).
use vstd::prelude::*;
use crate::text::{chars_of, push_all, string_of};
use crate::json::strings_view;
use crate::names::{same_names, sorted_unique, sorted_listing};

verus! {

/// A snapshot of one path.
#[derive(Debug, PartialEq)]
pub enum Node {
    /// Nothing exists at the path.
    Missing,
    /// Something that is not a directory, with its bytes when they could be read.
    File(Option<Vec<u8>>),
    /// A directory, with the entries that listing it gave (by name, in any order).
    Dir(Vec<(String, Node)>),
}

/// The model of a snapshot.
pub enum NodeV {
    Missing,
    File(Option<Seq<u8>>),
    Dir(Seq<(Seq<char>, NodeV)>),
}

impl Node {
    pub open spec fn view(self) -> NodeV
        decreases self,
    {
        match self {
            Node::Missing => NodeV::Missing,
            Node::File(None) => NodeV::File(None),
            Node::File(Some(b)) => NodeV::File(Some(b@)),
            Node::Dir(es) => NodeV::Dir(
                Seq::new(
                    es.len() as nat,
                    |i: int|
                        if 0 <= i < es.len() {
                            (es[i].0@, es[i].1.view())
                        } else {
                            (Seq::empty(), NodeV::Missing)
                        },
                ),
            ),
        }
    }
}

/// The entries of a directory (none for anything else: listing it fails).
pub open spec fn children(n: NodeV) -> Seq<(Seq<char>, NodeV)> {
    match n {
        NodeV::Dir(es) => es,
        _ => Seq::empty(),
    }
}

/// The names of a directory's entries.
pub open spec fn child_names(n: NodeV) -> Seq<Seq<char>> {
    Seq::new(children(n).len(), |i: int| children(n)[i].0)
}

/// The first entry named `name` at or after index `i`.
pub open spec fn entry_index_from(es: Seq<(Seq<char>, NodeV)>, name: Seq<char>, i: int) -> Option<int>
    decreases es.len() - i,
{
    if i < 0 || i >= es.len() {
        None
    } else if es[i].0 == name {
        Some(i)
    } else {
        entry_index_from(es, name, i + 1)
    }
}

pub proof fn lemma_entry_index_from(es: Seq<(Seq<char>, NodeV)>, name: Seq<char>, i: int)
    requires
        0 <= i,
    ensures
        match entry_index_from(es, name, i) {
            Some(j) => i <= j < es.len() && es[j].0 == name,
            None => forall|m: int| i <= m < es.len() ==> es[m].0 != name,
        },
    decreases es.len() - i,
{
    if i < es.len() && es[i].0 != name {
        lemma_entry_index_from(es, name, i + 1);
    }
}

/// What stands at `name` inside `n`: its entry, or nothing.
pub open spec fn child(n: NodeV, name: Seq<char>) -> NodeV {
    match entry_index_from(children(n), name, 0) {
        Some(i) => children(n)[i].1,
        None => NodeV::Missing,
    }
}

/// The contents of a file (nothing for anything else).
pub open spec fn file_bytes(n: NodeV) -> Option<Seq<u8>> {
    match n {
        NodeV::File(b) => b,
        _ => None,
    }
}

/// The suffix that marks a path that exists on one side only.
pub open spec fn presence_note() -> Seq<char> {
    " (存在の不一致)"@
}

/// The paths at which two trees differ, `rel` naming their roots. When only
/// one root exists, the root itself is reported (with a note); when neither
/// does, nothing. When one root is a directory and the other is not, or both
/// are files with different bytes, the root is reported. When both are
/// directories, the names listed under either are compared in order: a name
/// that is missing on one side is reported, and the two entries under a name
/// present on both sides are compared in turn in the same way.
pub open spec fn diff_spec(a: NodeV, b: NodeV, rel: Seq<char>) -> Seq<Seq<char>>
    decreases a, 1int, 0int,
{
    if a is Missing || b is Missing {
        if (a is Missing) != (b is Missing) {
            seq![rel + presence_note()]
        } else {
            Seq::empty()
        }
    } else if (a is Dir) != (b is Dir) {
        seq![rel]
    } else if a is Dir {
        diff_entries(a, b, rel, sorted_listing(child_names(a) + child_names(b)))
    } else if file_bytes(a) != file_bytes(b) {
        seq![rel]
    } else {
        Seq::empty()
    }
}

/// The differences under `names` (in that order) between two directories.
pub open spec fn diff_entries(a: NodeV, b: NodeV, rel: Seq<char>, names: Seq<Seq<char>>) -> Seq<
    Seq<char>,
>
    decreases a, 0int, names.len(),
{
    if names.len() == 0 {
        Seq::empty()
    } else {
        let n = names.last();
        let ap = child(a, n);
        let bp = child(b, n);
        let arel = rel + seq!['/'] + n;
        diff_entries(a, b, rel, names.drop_last()) + if ap is Missing || bp is Missing {
            seq![arel]
        } else {
            proof {
                lemma_entry_index_from(children(a), n, 0);
                let i = entry_index_from(children(a), n, 0)->0;
                assert(decreases_to!(a => children(a)));
                assert(decreases_to!(children(a) => children(a)[i]));
            }
            diff_spec(ap, bp, arel)
        }
    }
}

/// The names of a directory's entries, in listing order.
fn names_of(n: &Node) -> (r: Vec<String>)
    ensures
        strings_view(r@) == child_names(n@),
{
    let mut r: Vec<String> = Vec::new();
    match n {
        Node::Dir(es) => {
            let ghost cv = children(n@);
            assert(cv.len() == es.len());
            let mut i: usize = 0;
            while i < es.len()
                invariant
                    i <= es.len(),
                    cv == children(n@),
                    cv.len() == es.len(),
                    n@ == NodeV::Dir(cv),
                    forall|k: int| 0 <= k < es.len() ==> #[trigger] cv[k] == (es[k].0@, es[k].1@),
                    strings_view(r@) == child_names(n@).take(i as int),
                decreases es.len() - i,
            {
                let ghost before = r@;
                assert(cv[i as int] == (es[i as int].0@, es[i as int].1@));
                assert(child_names(n@)[i as int] == es[i as int].0@);
                let name = es[i].0.clone();
                assert(name@ == es[i as int].0@);
                r.push(name);
                assert(r@ == before.push(name));
                assert(strings_view(r@) =~= strings_view(before).push(name@));
                assert(strings_view(r@) =~= child_names(n@).take(i + 1));
                i = i + 1;
            }
            assert(child_names(n@).take(es.len() as int) =~= child_names(n@));
        },
        _ => {
            assert(strings_view(r@) =~= child_names(n@));
        },
    }
    r
}

/// The entry named `name` inside `n`, if it is listed there.
fn child_of<'a>(n: &'a Node, name: &String) -> (r: Option<&'a Node>)
    ensures
        match r {
            Some(c) => c@ == child(n@, name@),
            None => child(n@, name@) is Missing,
        },
{
    match n {
        Node::Dir(es) => {
            let ghost cv = children(n@);
            let mut i: usize = 0;
            while i < es.len()
                invariant
                    i <= es.len(),
                    cv == children(n@),
                    cv.len() == es.len(),
                    forall|k: int| 0 <= k < es.len() ==> #[trigger] cv[k] == (es[k].0@, es[k].1@),
                    entry_index_from(cv, name@, 0) == entry_index_from(cv, name@, i as int),
                decreases es.len() - i,
            {
                assert(cv[i as int] == (es[i as int].0@, es[i as int].1@));
                if es[i].0 == *name {
                    return Some(&es[i].1);
                }
                i = i + 1;
            }
            None
        },
        _ => None,
    }
}

/// The two byte strings are equal.
fn same_vec(u: &Vec<u8>, v: &Vec<u8>) -> (r: bool)
    ensures
        r == (u@ == v@),
{
    if u.len() != v.len() {
        return false;
    }
    let mut i: usize = 0;
    while i < u.len()
        invariant
            i <= u.len(),
            u.len() == v.len(),
            forall|k: int| 0 <= k < i ==> u@[k] == v@[k],
        decreases u.len() - i,
    {
        if u[i] != v[i] {
            assert(u@[i as int] != v@[i as int]);
            return false;
        }
        i = i + 1;
    }
    assert(u@ =~= v@);
    true
}

/// The two optional byte strings are equal.
fn same_bytes(x: &Option<Vec<u8>>, y: &Option<Vec<u8>>) -> (r: bool)
    ensures
        r == (match x {
            Some(v) => Some(v@),
            None => None::<Seq<u8>>,
        } == match y {
            Some(v) => Some(v@),
            None => None::<Seq<u8>>,
        }),
{
    match (x, y) {
        (Some(u), Some(v)) => same_vec(u, v),
        (None, None) => true,
        _ => false,
    }
}

/// `rel + "/" + name` as a string.
fn sub_path(rel: &Vec<char>, name: &String) -> (r: (Vec<char>, String))
    ensures
        r.0@ == rel@ + seq!['/'] + name@,
        r.1@ == r.0@,
{
    let mut v: Vec<char> = Vec::new();
    push_all(&mut v, rel);
    v.push('/');
    push_all(&mut v, &chars_of(name.as_str()));
    let s = string_of(v.as_slice());
    (v, s)
}

fn diff_nodes(a: &Node, b: &Node, rel: &Vec<char>, drift: &mut Vec<String>)
    ensures
        strings_view(final(drift)@) == strings_view(old(drift)@) + diff_spec(a@, b@, rel@),
    decreases a@, 1int, 0int,
{
    let a_missing = match a {
        Node::Missing => true,
        _ => false,
    };
    let b_missing = match b {
        Node::Missing => true,
        _ => false,
    };
    if a_missing || b_missing {
        if a_missing != b_missing {
            let mut v: Vec<char> = Vec::new();
            push_all(&mut v, rel);
            push_all(&mut v, &chars_of(" (存在の不一致)"));
            let ghost before = drift@;
            drift.push(string_of(v.as_slice()));
            assert(strings_view(drift@) =~= strings_view(before) + seq![rel@ + presence_note()]);
        } else {
            assert(strings_view(drift@) =~= strings_view(drift@) + Seq::<Seq<char>>::empty());
        }
        return;
    }
    let a_dir = match a {
        Node::Dir(_) => true,
        _ => false,
    };
    let b_dir = match b {
        Node::Dir(_) => true,
        _ => false,
    };
    if a_dir != b_dir {
        let ghost before = drift@;
        drift.push(string_of(rel.as_slice()));
        assert(strings_view(drift@) =~= strings_view(before) + seq![rel@]);
        return;
    }
    if !a_dir {
        let same = match (a, b) {
            (Node::File(x), Node::File(y)) => same_bytes(x, y),
            _ => true,
        };
        if !same {
            let ghost before = drift@;
            drift.push(string_of(rel.as_slice()));
            assert(strings_view(drift@) =~= strings_view(before) + seq![rel@]);
        } else {
            assert(strings_view(drift@) =~= strings_view(drift@) + Seq::<Seq<char>>::empty());
        }
        return;
    }
    let mut all = names_of(a);
    let mut bn = names_of(b);
    all.append(&mut bn);
    assert(strings_view(all@) =~= child_names(a@) + child_names(b@));
    let names = sorted_unique(&all);
    diff_names(a, b, rel, &names, drift);
}

fn diff_names(a: &Node, b: &Node, rel: &Vec<char>, names: &Vec<String>, drift: &mut Vec<String>)
    requires
        a@ is Dir,
        b@ is Dir,
    ensures
        strings_view(final(drift)@) == strings_view(old(drift)@) + diff_entries(a@, b@, rel@, strings_view(names@)),
    decreases a@, 0int, names@.len(),
{
    let ghost nv = strings_view(names@);
    let ghost start = strings_view(drift@);
    let mut k: usize = 0;
    assert(nv.take(0) =~= Seq::<Seq<char>>::empty());
    assert(start + Seq::<Seq<char>>::empty() =~= start);
    while k < names.len()
        invariant
            k <= names.len(),
            nv == strings_view(names@),
            a@ is Dir,
            b@ is Dir,
            strings_view(drift@) == start + diff_entries(a@, b@, rel@, nv.take(k as int)),
        decreases names.len() - k,
    {
        let name = &names[k];
        assert(nv.take(k + 1).drop_last() =~= nv.take(k as int));
        assert(nv.take(k + 1).last() == name@);
        let (arel_chars, arel) = sub_path(rel, name);
        let ca = child_of(a, name);
        let cb = child_of(b, name);
        let ghost before = strings_view(drift@);
        let ghost ap = child(a@, name@);
        let ghost bp = child(b@, name@);
        match (ca, cb) {
            (Some(x), Some(y)) => {
                let x_missing = match x {
                    Node::Missing => true,
                    _ => false,
                };
                let y_missing = match y {
                    Node::Missing => true,
                    _ => false,
                };
                if x_missing || y_missing {
                    drift.push(arel);
                    assert(strings_view(drift@) =~= before + seq![arel_chars@]);
                } else {
                    proof {
                        lemma_entry_index_from(children(a@), name@, 0);
                        let i = entry_index_from(children(a@), name@, 0)->0;
                        assert(decreases_to!(a@ => children(a@)));
                        assert(decreases_to!(children(a@) => children(a@)[i]));
                    }
                    diff_nodes(x, y, &arel_chars, drift);
                }
            },
            _ => {
                drift.push(arel);
                assert(strings_view(drift@) =~= before + seq![arel_chars@]);
            },
        }
        k = k + 1;
    }
    assert(nv.take(names.len() as int) =~= nv);
}

/// Appends to `drift` the paths at which the trees `a` and `b` differ, each
/// named under `rel`, in the order of `diff_spec`.
pub fn diff_dir(a: &Node, b: &Node, rel: &str, drift: &mut Vec<String>)
    ensures
        strings_view(final(drift)@) == strings_view(old(drift)@) + diff_spec(a@, b@, rel@),
{
    let r = chars_of(rel);
    diff_nodes(a, b, &r, drift);
}


/// Every entry that a directory lists exists, all the way down (no dangling links).
pub open spec fn no_dangling(n: NodeV) -> bool
    decreases n,
{
    forall|i: int|
        0 <= i < children(n).len() ==> {
            &&& !(#[trigger] children(n)[i].1 is Missing)
            &&& no_dangling(children(n)[i].1)
        }
}

proof fn lemma_child_listed(a: NodeV, name: Seq<char>)
    requires
        child_names(a).contains(name),
        no_dangling(a),
    ensures
        !(child(a, name) is Missing),
        no_dangling(child(a, name)),
{
    lemma_entry_index_from(children(a), name, 0);
    let k = choose|k: int| 0 <= k < child_names(a).len() && child_names(a)[k] == name;
    assert(children(a)[k].0 == name);
    let i = entry_index_from(children(a), name, 0)->0;
    assert(!(children(a)[i].1 is Missing));
}

proof fn lemma_diff_entries_self(a: NodeV, rel: Seq<char>, names: Seq<Seq<char>>)
    requires
        no_dangling(a),
        a is Dir,
        forall|i: int| 0 <= i < names.len() ==> child_names(a).contains(#[trigger] names[i]),
    ensures
        diff_entries(a, a, rel, names) == Seq::<Seq<char>>::empty(),
    decreases a, 0int, names.len(),
{
    if names.len() > 0 {
        let n = names.last();
        assert(child_names(a).contains(names[names.len() - 1]));
        lemma_child_listed(a, n);
        let ap = child(a, n);
        let arel = rel + seq!['/'] + n;
        lemma_diff_entries_self(a, rel, names.drop_last());
        {
            lemma_entry_index_from(children(a), n, 0);
            let i = entry_index_from(children(a), n, 0)->0;
            assert(decreases_to!(a => children(a)));
            assert(decreases_to!(children(a) => children(a)[i]));
            lemma_diff_self(ap, arel);
        }
        assert(diff_entries(a, a, rel, names) =~= Seq::<Seq<char>>::empty());
    }
}

/// A snapshot without dangling entries, compared with itself, reports nothing.
pub proof fn lemma_diff_self(a: NodeV, rel: Seq<char>)
    requires
        no_dangling(a),
    ensures
        diff_spec(a, a, rel) == Seq::<Seq<char>>::empty(),
    decreases a, 1int, 0int,
{
    if a is Dir {
        let names = sorted_listing(child_names(a) + child_names(a));
        assert forall|i: int| 0 <= i < names.len() implies child_names(a).contains(#[trigger] names[i]) by {
            crate::names::lemma_sorted_listing_holds(child_names(a) + child_names(a));
            assert(names.contains(names[i]));
            let both = child_names(a) + child_names(a);
            assert(both.contains(names[i]));
            let k = choose|k: int| 0 <= k < both.len() && both[k] == names[i];
            if k < child_names(a).len() {
                assert(child_names(a)[k] == names[i]);
            } else {
                assert(child_names(a)[k - child_names(a).len()] == names[i]);
            }
        }
        lemma_diff_entries_self(a, rel, names);
    }
}

/// Where nothing under `names` is reported, each of those names is listed on
/// both sides and its two entries compare without a report.
proof fn lemma_diff_entries_empty(a: NodeV, b: NodeV, rel: Seq<char>, names: Seq<Seq<char>>)
    requires
        diff_entries(a, b, rel, names).len() == 0,
    ensures
        forall|i: int|
            0 <= i < names.len() ==> {
                &&& !(child(a, #[trigger] names[i]) is Missing)
                &&& !(child(b, names[i]) is Missing)
                &&& diff_spec(child(a, names[i]), child(b, names[i]), rel + seq!['/'] + names[i]).len()
                    == 0
            },
    decreases names.len(),
{
    if names.len() > 0 {
        let n = names.last();
        let ap = child(a, n);
        let bp = child(b, n);
        let arel = rel + seq!['/'] + n;
        let before = diff_entries(a, b, rel, names.drop_last());
        if ap is Missing || bp is Missing {
            assert((before + seq![arel]).len() > 0);
        } else {
            assert(diff_entries(a, b, rel, names) == before + diff_spec(ap, bp, arel));
        }
        lemma_diff_entries_empty(a, b, rel, names.drop_last());
        assert forall|i: int| 0 <= i < names.len() - 1 implies names.drop_last()[i] == names[i] by {}
    }
}

/// A check that reports nothing has found no difference: both roots exist or
/// neither does, they are of one kind, two files hold the same bytes, and each
/// name listed under either of two directories is there on both sides, with
/// entries that again compare without a report (and so on, all the way down).
pub proof fn lemma_no_drift_means_same_trees(a: NodeV, b: NodeV, rel: Seq<char>)
    requires
        diff_spec(a, b, rel).len() == 0,
    ensures
        (a is Missing) == (b is Missing),
        (a is Dir) == (b is Dir),
        !(a is Missing) && !(a is Dir) ==> file_bytes(a) == file_bytes(b),
        a is Dir ==> forall|n: Seq<char>|
            #![trigger child_names(a).contains(n)]
            #![trigger child_names(b).contains(n)]
            child_names(a).contains(n) || child_names(b).contains(n) ==> {
                &&& !(child(a, n) is Missing)
                &&& !(child(b, n) is Missing)
                &&& diff_spec(child(a, n), child(b, n), rel + seq!['/'] + n).len() == 0
            },
{
    if !(a is Missing) && !(b is Missing) && a is Dir && b is Dir {
        let both = child_names(a) + child_names(b);
        let names = sorted_listing(both);
        crate::names::lemma_sorted_listing_holds(both);
        lemma_diff_entries_empty(a, b, rel, names);
        assert forall|n: Seq<char>|
            child_names(a).contains(n) || child_names(b).contains(n) implies {
            &&& !(child(a, n) is Missing)
            &&& !(child(b, n) is Missing)
            &&& diff_spec(child(a, n), child(b, n), rel + seq!['/'] + n).len() == 0
        } by {
            if child_names(a).contains(n) {
                let k = choose|k: int| 0 <= k < child_names(a).len() && child_names(a)[k] == n;
                assert(both[k] == n);
            } else {
                let k = choose|k: int| 0 <= k < child_names(b).len() && child_names(b)[k] == n;
                assert(both[child_names(a).len() + k] == n);
            }
            assert(both.contains(n));
            assert(names.contains(n));
            let i = choose|i: int| 0 <= i < names.len() && names[i] == n;
            assert(names[i] == n);
        }
    }
}

/// Two trees that hold the same things, up to the order in which directories
/// list their entries: both roots exist or neither does, they are of one kind,
/// two files hold the same bytes, and two directories list the same names,
/// each naming an existing entry on both sides, and those entries are again
/// the same trees.
pub open spec fn same_tree(a: NodeV, b: NodeV) -> bool
    decreases a, 1int, 0int,
{
    if a is Missing || b is Missing {
        (a is Missing) == (b is Missing)
    } else if (a is Dir) != (b is Dir) {
        false
    } else if a is Dir {
        same_names(child_names(a), child_names(b)) && same_entries(a, b, child_names(a))
    } else {
        file_bytes(a) == file_bytes(b)
    }
}

/// Under each of `names`, both directories hold an entry, and the two are the same trees.
pub open spec fn same_entries(a: NodeV, b: NodeV, names: Seq<Seq<char>>) -> bool
    decreases a, 0int, names.len(),
{
    if names.len() == 0 {
        true
    } else {
        let n = names.last();
        if !same_entries(a, b, names.drop_last()) || child(a, n) is Missing || child(b, n) is Missing {
            false
        } else {
            proof {
                lemma_entry_index_from(children(a), n, 0);
                let i = entry_index_from(children(a), n, 0)->0;
                assert(decreases_to!(a => children(a)));
                assert(decreases_to!(children(a) => children(a)[i]));
            }
            same_tree(child(a, n), child(b, n))
        }
    }
}

proof fn lemma_same_entries_child(a: NodeV, b: NodeV, names: Seq<Seq<char>>, n: Seq<char>)
    requires
        same_entries(a, b, names),
        names.contains(n),
    ensures
        !(child(a, n) is Missing),
        !(child(b, n) is Missing),
        same_tree(child(a, n), child(b, n)),
    decreases names.len(),
{
    if names.last() != n {
        let k = choose|k: int| 0 <= k < names.len() && names[k] == n;
        assert(names.drop_last()[k] == n);
        lemma_same_entries_child(a, b, names.drop_last(), n);
    }
}

proof fn lemma_diff_entries_same(a: NodeV, b: NodeV, rel: Seq<char>, names: Seq<Seq<char>>)
    requires
        a is Dir,
        same_entries(a, b, child_names(a)),
        forall|i: int| 0 <= i < names.len() ==> child_names(a).contains(#[trigger] names[i]),
    ensures
        diff_entries(a, b, rel, names) == Seq::<Seq<char>>::empty(),
    decreases a, 0int, names.len(),
{
    if names.len() > 0 {
        let n = names.last();
        assert(child_names(a).contains(names[names.len() - 1]));
        lemma_same_entries_child(a, b, child_names(a), n);
        let arel = rel + seq!['/'] + n;
        lemma_diff_entries_same(a, b, rel, names.drop_last());
        {
            lemma_entry_index_from(children(a), n, 0);
            let i = entry_index_from(children(a), n, 0)->0;
            assert(decreases_to!(a => children(a)));
            assert(decreases_to!(children(a) => children(a)[i]));
            lemma_same_trees_no_drift(child(a, n), child(b, n), arel);
        }
        assert(diff_entries(a, b, rel, names) =~= Seq::<Seq<char>>::empty());
    }
}

/// Two trees that hold the same things, however their directories order
/// their listings, compare without a report: a check right after a sync has
/// copied a tree reports nothing for it.
pub proof fn lemma_same_trees_no_drift(a: NodeV, b: NodeV, rel: Seq<char>)
    requires
        same_tree(a, b),
    ensures
        diff_spec(a, b, rel) == Seq::<Seq<char>>::empty(),
    decreases a, 1int, 0int,
{
    if !(a is Missing) && !(b is Missing) && a is Dir {
        let both = child_names(a) + child_names(b);
        let names = sorted_listing(both);
        assert forall|i: int| 0 <= i < names.len() implies child_names(a).contains(#[trigger] names[i]) by {
            crate::names::lemma_sorted_listing_holds(both);
            assert(names.contains(names[i]));
            assert(both.contains(names[i]));
            let k = choose|k: int| 0 <= k < both.len() && both[k] == names[i];
            if k < child_names(a).len() {
                assert(child_names(a)[k] == names[i]);
            } else {
                assert(child_names(b)[k - child_names(a).len()] == names[i]);
                assert(child_names(b).contains(names[i]));
            }
        }
        lemma_diff_entries_same(a, b, rel, names);
    }
}

/// A name whose entry exists is listed.
proof fn lemma_present_is_listed(a: NodeV, n: Seq<char>)
    requires
        !(child(a, n) is Missing),
    ensures
        child_names(a).contains(n),
{
    lemma_entry_index_from(children(a), n, 0);
    let i = entry_index_from(children(a), n, 0)->0;
    assert(child_names(a)[i] == n);
}

proof fn lemma_same_entries_of_no_drift(a: NodeV, b: NodeV, rel: Seq<char>, names: Seq<Seq<char>>)
    requires
        a is Dir,
        b is Dir,
        diff_spec(a, b, rel).len() == 0,
        forall|i: int| 0 <= i < names.len() ==> child_names(a).contains(#[trigger] names[i]),
    ensures
        same_entries(a, b, names),
    decreases a, 0int, names.len(),
{
    if names.len() > 0 {
        let n = names.last();
        assert(child_names(a).contains(names[names.len() - 1]));
        lemma_no_drift_means_same_trees(a, b, rel);
        lemma_same_entries_of_no_drift(a, b, rel, names.drop_last());
        assert forall|i: int| 0 <= i < names.len() - 1 implies names.drop_last()[i] == names[i] by {}
        {
            lemma_entry_index_from(children(a), n, 0);
            let i = entry_index_from(children(a), n, 0)->0;
            assert(decreases_to!(a => children(a)));
            assert(decreases_to!(children(a) => children(a)[i]));
            lemma_no_drift_same_tree(child(a, n), child(b, n), rel + seq!['/'] + n);
        }
    }
}

/// A check that reports nothing has found two trees that hold the same
/// things, all the way down, up to the order of their listings.
pub proof fn lemma_no_drift_same_tree(a: NodeV, b: NodeV, rel: Seq<char>)
    requires
        diff_spec(a, b, rel).len() == 0,
    ensures
        same_tree(a, b),
    decreases a, 1int, 0int,
{
    lemma_no_drift_means_same_trees(a, b, rel);
    if !(a is Missing) && !(b is Missing) && a is Dir {
        assert forall|x: Seq<char>| #[trigger] child_names(a).contains(x) <==> child_names(b).contains(x) by {
            if child_names(a).contains(x) {
                lemma_present_is_listed(b, x);
            }
            if child_names(b).contains(x) {
                lemma_present_is_listed(a, x);
            }
        }
        assert forall|i: int| 0 <= i < child_names(a).len() implies child_names(a).contains(
            #[trigger] child_names(a)[i],
        ) by {}
        lemma_same_entries_of_no_drift(a, b, rel, child_names(a));
    }
}

} // verus!
