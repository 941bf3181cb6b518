//! Names in the order of `String`'s `Ord` (byte order of UTF-8, which is the
//! order of code points), and sorted listings of distinct names.
use vstd::prelude::*;
use crate::text::chars_of;
use crate::json::strings_view;

verus! {

/// `a` comes before `b`: at the first differing character the code point of
/// `a` is smaller, or `a` is a proper prefix of `b`.
pub open spec fn lex_lt(a: Seq<char>, b: Seq<char>) -> bool
    decreases a.len(),
{
    if a.len() == 0 {
        b.len() > 0
    } else if b.len() == 0 {
        false
    } else if a[0] != b[0] {
        (a[0] as int) < (b[0] as int)
    } else {
        lex_lt(a.drop_first(), b.drop_first())
    }
}

/// Each name comes before every later one (so no name occurs twice).
pub open spec fn strictly_sorted(s: Seq<Seq<char>>) -> bool {
    forall|i: int, j: int| 0 <= i < j < s.len() ==> lex_lt(#[trigger] s[i], #[trigger] s[j])
}

/// `s` and `t` hold the same names.
pub open spec fn same_names(s: Seq<Seq<char>>, t: Seq<Seq<char>>) -> bool {
    forall|x: Seq<char>| #[trigger] s.contains(x) <==> t.contains(x)
}

/// The names of `names`, each once, in order: the sorted listing that
/// `sort` gives of a list without repeats, and `sort` after removing repeats.
pub open spec fn sorted_listing(names: Seq<Seq<char>>) -> Seq<Seq<char>> {
    choose|s: Seq<Seq<char>>| strictly_sorted(s) && same_names(s, names)
}

pub proof fn lemma_lex_irreflexive(a: Seq<char>)
    ensures
        !lex_lt(a, a),
    decreases a.len(),
{
    if a.len() > 0 {
        lemma_lex_irreflexive(a.drop_first());
    }
}

pub proof fn lemma_lex_transitive(a: Seq<char>, b: Seq<char>, c: Seq<char>)
    requires
        lex_lt(a, b),
        lex_lt(b, c),
    ensures
        lex_lt(a, c),
    decreases a.len(),
{
    if a.len() > 0 && b.len() > 0 && c.len() > 0 && a[0] == b[0] && b[0] == c[0] {
        lemma_lex_transitive(a.drop_first(), b.drop_first(), c.drop_first());
    }
}

pub proof fn lemma_lex_total(a: Seq<char>, b: Seq<char>)
    requires
        a != b,
    ensures
        lex_lt(a, b) || lex_lt(b, a),
    decreases a.len(),
{
    if a.len() > 0 && b.len() > 0 && a[0] == b[0] {
        if a.drop_first() == b.drop_first() {
            assert(a =~= seq![a[0]] + a.drop_first());
            assert(b =~= seq![b[0]] + b.drop_first());
        }
        lemma_lex_total(a.drop_first(), b.drop_first());
    } else if a.len() == 0 && b.len() == 0 {
        assert(a =~= b);
    } else if a.len() > 0 && b.len() > 0 {
        assert((a[0] as int) != (b[0] as int));
    }
}

pub proof fn lemma_lex_asymmetric(a: Seq<char>, b: Seq<char>)
    requires
        lex_lt(a, b),
    ensures
        !lex_lt(b, a),
{
    if lex_lt(b, a) {
        lemma_lex_transitive(a, b, a);
        lemma_lex_irreflexive(a);
    }
}

/// `a` comes before `b`, in `String`'s order.
pub fn lex_less(a: &Vec<char>, b: &Vec<char>) -> (r: bool)
    ensures
        r == lex_lt(a@, b@),
{
    let mut i: usize = 0;
    assert(a@.skip(0) =~= a@);
    assert(b@.skip(0) =~= b@);
    while i < a.len() && i < b.len() && a[i] == b[i]
        invariant
            i <= a.len(),
            i <= b.len(),
            lex_lt(a@, b@) == lex_lt(a@.skip(i as int), b@.skip(i as int)),
        decreases a.len() - i,
    {
        assert(a@.skip(i as int).drop_first() =~= a@.skip(i + 1));
        assert(b@.skip(i as int).drop_first() =~= b@.skip(i + 1));
        i = i + 1;
    }
    if i == a.len() {
        i < b.len()
    } else if i == b.len() {
        false
    } else {
        assert(a@.skip(i as int)[0] == a[i as int]);
        assert(b@.skip(i as int)[0] == b[i as int]);
        a[i] < b[i]
    }
}

/// Two sorted listings of the same names are the same listing.
pub proof fn lemma_sorted_listing_unique(s: Seq<Seq<char>>, t: Seq<Seq<char>>)
    requires
        strictly_sorted(s),
        strictly_sorted(t),
        same_names(s, t),
    ensures
        s == t,
    decreases s.len(),
{
    if s.len() == 0 {
        if t.len() > 0 {
            assert(t.contains(t[0]));
            assert(!s.contains(t[0]));
        }
        assert(s =~= t);
    } else {
        assert(s.contains(s[0]));
        assert(t.contains(s[0]));
        assert(t.len() > 0);
        assert(t.contains(t[0]));
        assert(s.contains(t[0]));
        let k = choose|k: int| 0 <= k < t.len() && t[k] == s[0];
        let m = choose|m: int| 0 <= m < s.len() && s[m] == t[0];
        if k > 0 && m > 0 {
            assert(lex_lt(t[0], t[k]));
            assert(lex_lt(s[0], s[m]));
            lemma_lex_asymmetric(t[0], s[0]);
        }
        if k > 0 && m == 0 {
            assert(lex_lt(t[0], t[k]));
            lemma_lex_irreflexive(t[0]);
        }
        if m > 0 && k == 0 {
            assert(lex_lt(s[0], s[m]));
            lemma_lex_irreflexive(s[0]);
        }
        assert(s[0] == t[0]);
        let s1 = s.drop_first();
        let t1 = t.drop_first();
        assert forall|x: Seq<char>| #[trigger] s1.contains(x) <==> t1.contains(x) by {
            if s1.contains(x) {
                let i = choose|i: int| 0 <= i < s1.len() && s1[i] == x;
                assert(s[i + 1] == x);
                assert(lex_lt(s[0], s[i + 1]));
                lemma_lex_irreflexive(x);
                assert(s.contains(x));
                assert(t.contains(x));
                let j = choose|j: int| 0 <= j < t.len() && t[j] == x;
                assert(j != 0);
                assert(t1[j - 1] == x);
            }
            if t1.contains(x) {
                let i = choose|i: int| 0 <= i < t1.len() && t1[i] == x;
                assert(t[i + 1] == x);
                assert(lex_lt(t[0], t[i + 1]));
                lemma_lex_irreflexive(x);
                assert(t.contains(x));
                assert(s.contains(x));
                let j = choose|j: int| 0 <= j < s.len() && s[j] == x;
                assert(j != 0);
                assert(s1[j - 1] == x);
            }
        }
        assert forall|i: int, j: int| 0 <= i < j < s1.len() implies lex_lt(#[trigger] s1[i], #[trigger] s1[j]) by {
            assert(s1[i] == s[i + 1] && s1[j] == s[j + 1]);
        }
        assert forall|i: int, j: int| 0 <= i < j < t1.len() implies lex_lt(#[trigger] t1[i], #[trigger] t1[j]) by {
            assert(t1[i] == t[i + 1] && t1[j] == t[j + 1]);
        }
        lemma_sorted_listing_unique(s1, t1);
        assert(s.len() == t.len());
        assert forall|i: int| 0 <= i < s.len() implies s[i] == t[i] by {
            if i > 0 {
                assert(s[i] == s1[i - 1]);
                assert(t[i] == t1[i - 1]);
            }
        }
        assert(s =~= t);
    }
}

/// A sorted listing of the names is `sorted_listing` of them.
pub proof fn lemma_is_sorted_listing(s: Seq<Seq<char>>, names: Seq<Seq<char>>)
    requires
        strictly_sorted(s),
        same_names(s, names),
    ensures
        sorted_listing(names) == s,
{
    let t = sorted_listing(names);
    assert(strictly_sorted(t) && same_names(t, names));
    assert(same_names(s, t));
    lemma_sorted_listing_unique(s, t);
}

/// Inserts `x` into the sorted listing `out` (with `keys` its characters),
/// unless it is there already.
fn insert_name(out: &mut Vec<String>, keys: &mut Vec<Vec<char>>, x: &String)
    requires
        old(keys).len() == old(out).len(),
        forall|i: int| 0 <= i < old(keys).len() ==> old(keys)[i]@ == old(out)[i]@,
        strictly_sorted(strings_view(old(out)@)),
    ensures
        final(keys).len() == final(out).len(),
        forall|i: int| 0 <= i < final(keys).len() ==> final(keys)[i]@ == final(out)[i]@,
        strictly_sorted(strings_view(final(out)@)),
        forall|y: Seq<char>|
            #[trigger] strings_view(final(out)@).contains(y) <==> (strings_view(old(out)@).contains(y) || y
                == x@),
{
    let ghost s = strings_view(out@);
    let cx = chars_of(x.as_str());
    let mut p: usize = 0;
    while p < keys.len() && lex_less(&keys[p], &cx)
        invariant
            p <= keys.len(),
            keys.len() == out.len(),
            s == strings_view(out@),
            cx@ == x@,
            forall|i: int| 0 <= i < keys.len() ==> keys[i]@ == out[i]@,
            forall|i: int| 0 <= i < p ==> lex_lt(#[trigger] s[i], x@),
        decreases keys.len() - p,
    {
        assert(s[p as int] == keys[p as int]@);
        p = p + 1;
    }
    if p < keys.len() && !lex_less(&cx, &keys[p]) {
        // keys[p] is neither before nor after x: it is x
        proof {
            if s[p as int] != x@ {
                lemma_lex_total(s[p as int], x@);
            }
            assert(s[p as int] == x@);
        }
        return;
    }
    proof {
        if p < keys.len() {
            if s[p as int] == x@ {
            } else {
                lemma_lex_total(s[p as int], x@);
            }
            lemma_lex_irreflexive(x@);
        }
    }
    out.insert(p, x.clone());
    keys.insert(p, cx);
    let ghost n = strings_view(out@);
    assert(n =~= s.insert(p as int, x@));
    assert forall|i: int, j: int| 0 <= i < j < n.len() implies lex_lt(#[trigger] n[i], #[trigger] n[j]) by {
        if j < p {
        } else if j == p {
        } else if i < p {
            // s[i] < x < s[p] <= s[j - 1]
            assert(lex_lt(x@, s[p as int]));
            if j - 1 > p {
                lemma_lex_transitive(x@, s[p as int], s[j - 1]);
            }
            lemma_lex_transitive(s[i], x@, s[j - 1]);
        } else if i == p {
            assert(lex_lt(x@, s[p as int]));
            if j - 1 > p {
                lemma_lex_transitive(x@, s[p as int], s[j - 1]);
            }
        } else {
            assert(lex_lt(s[i - 1], s[j - 1]));
        }
    }
    assert forall|y: Seq<char>| #[trigger] n.contains(y) <==> (s.contains(y) || y == x@) by {
        if n.contains(y) {
            let k = choose|k: int| 0 <= k < n.len() && n[k] == y;
            if k < p {
                assert(s[k] == y);
            } else if k > p {
                assert(s[k - 1] == y);
            }
        }
        if s.contains(y) {
            let k = choose|k: int| 0 <= k < s.len() && s[k] == y;
            if k < p {
                assert(n[k] == y);
            } else {
                assert(n[k + 1] == y);
            }
        }
        if y == x@ {
            assert(n[p as int] == y);
        }
    }
}

/// The names, each once, in `String`'s order.
pub fn sorted_unique(names: &Vec<String>) -> (r: Vec<String>)
    ensures
        strictly_sorted(strings_view(r@)),
        same_names(strings_view(r@), strings_view(names@)),
        strings_view(r@) == sorted_listing(strings_view(names@)),
{
    let ghost nv = strings_view(names@);
    let mut out: Vec<String> = Vec::new();
    let mut keys: Vec<Vec<char>> = Vec::new();
    let mut i: usize = 0;
    assert(strings_view(out@) =~= Seq::<Seq<char>>::empty());
    while i < names.len()
        invariant
            i <= names.len(),
            nv == strings_view(names@),
            keys.len() == out.len(),
            forall|k: int| 0 <= k < keys.len() ==> keys[k]@ == out[k]@,
            strictly_sorted(strings_view(out@)),
            forall|y: Seq<char>| #[trigger] strings_view(out@).contains(y) <==> nv.take(i as int).contains(y),
        decreases names.len() - i,
    {
        let ghost before = strings_view(out@);
        insert_name(&mut out, &mut keys, &names[i]);
        assert forall|y: Seq<char>| #[trigger] strings_view(out@).contains(y) <==> nv.take(i + 1).contains(y) by {
            let t1 = nv.take(i + 1);
            let t0 = nv.take(i as int);
            if t1.contains(y) {
                let k = choose|k: int| 0 <= k < t1.len() && t1[k] == y;
                if k < i {
                    assert(t0[k] == y);
                }
            }
            if t0.contains(y) {
                let k = choose|k: int| 0 <= k < t0.len() && t0[k] == y;
                assert(t1[k] == y);
            }
            if y == names[i as int]@ {
                assert(t1[i as int] == y);
            }
        }
        i = i + 1;
    }
    assert(nv.take(names.len() as int) =~= nv);
    proof {
        lemma_is_sorted_listing(strings_view(out@), nv);
    }
    out
}


/// `s` with `x` put in its place, unless it is there already.
pub open spec fn insert_name_spec(s: Seq<Seq<char>>, x: Seq<char>) -> Seq<Seq<char>>
    decreases s.len(),
{
    if s.len() == 0 {
        seq![x]
    } else if x == s[0] {
        s
    } else if lex_lt(x, s[0]) {
        seq![x] + s
    } else {
        seq![s[0]] + insert_name_spec(s.drop_first(), x)
    }
}

/// The sorted listing built by inserting the names one by one.
pub open spec fn listing_of(names: Seq<Seq<char>>) -> Seq<Seq<char>>
    decreases names.len(),
{
    if names.len() == 0 {
        Seq::empty()
    } else {
        insert_name_spec(listing_of(names.drop_last()), names.last())
    }
}

proof fn lemma_insert_name_spec(s: Seq<Seq<char>>, x: Seq<char>)
    requires
        strictly_sorted(s),
    ensures
        strictly_sorted(insert_name_spec(s, x)),
        forall|y: Seq<char>| #[trigger] insert_name_spec(s, x).contains(y) <==> (s.contains(y) || y == x),
    decreases s.len(),
{
    let r = insert_name_spec(s, x);
    if s.len() == 0 {
        assert forall|y: Seq<char>| #[trigger] r.contains(y) <==> (s.contains(y) || y == x) by {
            if r.contains(y) {
                assert(r[0] == y);
            }
            if y == x {
                assert(r[0] == y);
            }
        }
    } else if x == s[0] {
        assert(s.contains(s[0]));
    } else if lex_lt(x, s[0]) {
        assert forall|i: int, j: int| 0 <= i < j < r.len() implies lex_lt(#[trigger] r[i], #[trigger] r[j]) by {
            if i == 0 {
                if j > 1 {
                    lemma_lex_transitive(x, s[0], s[j - 1]);
                }
            } else {
                assert(lex_lt(s[i - 1], s[j - 1]));
            }
        }
        assert forall|y: Seq<char>| #[trigger] r.contains(y) <==> (s.contains(y) || y == x) by {
            if r.contains(y) {
                let k = choose|k: int| 0 <= k < r.len() && r[k] == y;
                if k > 0 {
                    assert(s[k - 1] == y);
                }
            }
            if s.contains(y) {
                let k = choose|k: int| 0 <= k < s.len() && s[k] == y;
                assert(r[k + 1] == y);
            }
            if y == x {
                assert(r[0] == y);
            }
        }
    } else {
        lemma_lex_total(x, s[0]);
        let t = s.drop_first();
        assert forall|i: int, j: int| 0 <= i < j < t.len() implies lex_lt(#[trigger] t[i], #[trigger] t[j]) by {
            assert(lex_lt(s[i + 1], s[j + 1]));
        }
        lemma_insert_name_spec(t, x);
        let u = insert_name_spec(t, x);
        assert(r == seq![s[0]] + u);
        assert forall|i: int, j: int| 0 <= i < j < r.len() implies lex_lt(#[trigger] r[i], #[trigger] r[j]) by {
            if i == 0 {
                assert(u.contains(u[j - 1]));
                let y = u[j - 1];
                if y == x {
                } else {
                    assert(t.contains(y));
                    let k = choose|k: int| 0 <= k < t.len() && t[k] == y;
                    assert(lex_lt(s[0], s[k + 1]));
                }
            } else {
                assert(r[i] == u[i - 1] && r[j] == u[j - 1]);
            }
        }
        assert forall|y: Seq<char>| #[trigger] r.contains(y) <==> (s.contains(y) || y == x) by {
            if r.contains(y) {
                let k = choose|k: int| 0 <= k < r.len() && r[k] == y;
                if k > 0 {
                    assert(u[k - 1] == y);
                    assert(u.contains(y));
                    if t.contains(y) {
                        let m = choose|m: int| 0 <= m < t.len() && t[m] == y;
                        assert(s[m + 1] == y);
                    }
                } else {
                    assert(s[0] == y);
                }
            }
            if s.contains(y) {
                let k = choose|k: int| 0 <= k < s.len() && s[k] == y;
                if k == 0 {
                    assert(r[0] == y);
                } else {
                    assert(t[k - 1] == y);
                    assert(t.contains(y));
                    assert(u.contains(y));
                    let m = choose|m: int| 0 <= m < u.len() && u[m] == y;
                    assert(r[m + 1] == y);
                }
            }
            if y == x {
                assert(u.contains(y));
                let m = choose|m: int| 0 <= m < u.len() && u[m] == y;
                assert(r[m + 1] == y);
            }
        }
    }
}

proof fn lemma_listing_of(names: Seq<Seq<char>>)
    ensures
        strictly_sorted(listing_of(names)),
        same_names(listing_of(names), names),
    decreases names.len(),
{
    if names.len() > 0 {
        let p = names.drop_last();
        lemma_listing_of(p);
        lemma_insert_name_spec(listing_of(p), names.last());
        let r = listing_of(names);
        assert forall|y: Seq<char>| #[trigger] r.contains(y) <==> names.contains(y) by {
            if names.contains(y) {
                let k = choose|k: int| 0 <= k < names.len() && names[k] == y;
                if k < p.len() {
                    assert(p[k] == y);
                    assert(p.contains(y));
                }
            }
            if p.contains(y) {
                let k = choose|k: int| 0 <= k < p.len() && p[k] == y;
                assert(names[k] == y);
            }
            if y == names.last() {
                assert(names[names.len() - 1] == y);
            }
        }
    } else {
        assert(same_names(listing_of(names), names));
    }
}

/// Every list of names has a sorted listing.
pub proof fn lemma_sorted_listing_holds(names: Seq<Seq<char>>)
    ensures
        strictly_sorted(sorted_listing(names)),
        same_names(sorted_listing(names), names),
{
    lemma_listing_of(names);
}

} // verus!
