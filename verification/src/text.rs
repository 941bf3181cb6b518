//! Character-level text operations: whitespace trimming, substring search,
//! and the conversions between `str`/`String` and vectors of characters.
use vstd::prelude::*;

verus! {

broadcast use vstd::seq_lib::group_seq_properties;

/// The Unicode `White_Space` property, which `char::is_whitespace` tests.
pub open spec fn is_ws(c: char) -> bool {
    let u = c as u32;
    ||| u == 0x09 || u == 0x0A || u == 0x0B || u == 0x0C || u == 0x0D || u == 0x20
    ||| u == 0x85 || u == 0xA0 || u == 0x1680
    ||| 0x2000 <= u <= 0x200A
    ||| u == 0x2028 || u == 0x2029 || u == 0x202F || u == 0x205F || u == 0x3000
}

/// Exec test of the Unicode `White_Space` property.
pub fn is_whitespace(c: char) -> (b: bool)
    ensures
        b == is_ws(c),
{
    let u = c as u32;
    u == 0x09 || u == 0x0A || u == 0x0B || u == 0x0C || u == 0x0D || u == 0x20 || u == 0x85
        || u == 0xA0 || u == 0x1680 || (0x2000 <= u && u <= 0x200A) || u == 0x2028 || u
        == 0x2029 || u == 0x202F || u == 0x205F || u == 0x3000
}

/// `s` without its trailing whitespace (what `str::trim_end` keeps).
pub open spec fn trim_end(s: Seq<char>) -> Seq<char>
    decreases s.len(),
{
    if s.len() > 0 && is_ws(s.last()) {
        trim_end(s.drop_last())
    } else {
        s
    }
}

/// `s` without its leading whitespace (what `str::trim_start` keeps).
pub open spec fn trim_start(s: Seq<char>) -> Seq<char>
    decreases s.len(),
{
    if s.len() > 0 && is_ws(s[0]) {
        trim_start(s.drop_first())
    } else {
        s
    }
}

/// `s` without leading and trailing whitespace (what `str::trim` keeps).
pub open spec fn trim(s: Seq<char>) -> Seq<char> {
    trim_start(trim_end(s))
}

/// Every character of `s` is whitespace.
pub open spec fn all_ws(s: Seq<char>) -> bool {
    forall|i: int| 0 <= i < s.len() ==> is_ws(#[trigger] s[i])
}

/// `p` occurs in `s` starting at index `i`.
pub open spec fn occurs_at(s: Seq<char>, p: Seq<char>, i: int) -> bool {
    0 <= i && i + p.len() <= s.len() && s.subrange(i, i + p.len()) == p
}

/// The first index at or after `i` where `p` occurs in `s`.
pub open spec fn find_from(s: Seq<char>, p: Seq<char>, i: int) -> Option<int>
    decreases s.len() + 1 - i,
{
    if i < 0 || i + p.len() > s.len() {
        None
    } else if s.subrange(i, i + p.len()) == p {
        Some(i)
    } else {
        find_from(s, p, i + 1)
    }
}

/// The first index where `p` occurs in `s` (what `str::find` returns, counted in characters).
pub open spec fn find(s: Seq<char>, p: Seq<char>) -> Option<int> {
    find_from(s, p, 0)
}

/// `p` occurs somewhere in `s` (what `str::contains` tests).
pub open spec fn contains_seq(s: Seq<char>, p: Seq<char>) -> bool {
    exists|i: int| occurs_at(s, p, i)
}

pub proof fn lemma_trim_end_prefix(s: Seq<char>)
    ensures
        trim_end(s).len() <= s.len(),
        trim_end(s) == s.subrange(0, trim_end(s).len() as int),
        all_ws(s.subrange(trim_end(s).len() as int, s.len() as int)),
        trim_end(s).len() > 0 ==> !is_ws(trim_end(s).last()),
    decreases s.len(),
{
    if s.len() > 0 && is_ws(s.last()) {
        lemma_trim_end_prefix(s.drop_last());
        let t = trim_end(s);
        assert(s.subrange(t.len() as int, s.len() as int) =~= s.drop_last().subrange(
            t.len() as int,
            s.len() - 1,
        ).push(s.last()));
        assert(s.drop_last().subrange(0, t.len() as int) =~= s.subrange(0, t.len() as int));
    } else {
        assert(s.subrange(0, s.len() as int) =~= s);
        assert(s.subrange(s.len() as int, s.len() as int) =~= Seq::<char>::empty());
    }
}

pub proof fn lemma_trim_start_suffix(s: Seq<char>)
    ensures
        trim_start(s).len() <= s.len(),
        trim_start(s) == s.subrange(s.len() - trim_start(s).len(), s.len() as int),
        all_ws(s.subrange(0, s.len() - trim_start(s).len())),
        trim_start(s).len() > 0 ==> !is_ws(trim_start(s)[0]),
    decreases s.len(),
{
    if s.len() > 0 && is_ws(s[0]) {
        lemma_trim_start_suffix(s.drop_first());
        let t = trim_start(s);
        let k = s.len() - t.len();
        assert(s.subrange(0, k) =~= seq![s[0]] + s.drop_first().subrange(0, k - 1));
        assert(s.drop_first().subrange(k - 1, s.len() - 1) =~= s.subrange(k, s.len() as int));
    } else {
        assert(s.subrange(0, s.len() as int) =~= s);
        assert(s.subrange(0, 0) =~= Seq::<char>::empty());
    }
}

/// Trailing whitespace does not change what `trim_end` keeps.
pub proof fn lemma_trim_end_append_ws(s: Seq<char>, w: Seq<char>)
    requires
        all_ws(w),
    ensures
        trim_end(s + w) == trim_end(s),
    decreases w.len(),
{
    if w.len() == 0 {
        assert(s + w =~= s);
    } else {
        assert(is_ws(w[w.len() - 1]));
        assert((s + w).drop_last() =~= s + w.drop_last());
        lemma_trim_end_append_ws(s, w.drop_last());
    }
}

/// A sequence without trailing whitespace is its own `trim_end`.
pub proof fn lemma_trim_end_fixed(s: Seq<char>)
    requires
        s.len() == 0 || !is_ws(s.last()),
    ensures
        trim_end(s) == s,
{
}

/// A sequence without leading whitespace is its own `trim_start`.
pub proof fn lemma_trim_start_fixed(s: Seq<char>)
    requires
        s.len() == 0 || !is_ws(s[0]),
    ensures
        trim_start(s) == s,
{
}

/// `trim` keeps a sequence that starts and ends with a non-whitespace character.
pub proof fn lemma_trim_of_trimmed(s: Seq<char>)
    ensures
        trim(trim(s)) == trim(s),
        trim(s).len() > 0 ==> !is_ws(trim(s)[0]) && !is_ws(trim(s).last()),
{
    let e = trim_end(s);
    lemma_trim_end_prefix(s);
    lemma_trim_start_suffix(e);
    let t = trim_start(e);
    if t.len() > 0 {
        assert(t.last() == e[e.len() - 1]);
        assert(!is_ws(t[0]));
        assert(!is_ws(t.last()));
    }
    lemma_trim_end_fixed(t);
    assert(trim_end(t) == t);
    lemma_trim_start_fixed(t);
    assert(trim(t) == trim_start(t));
}

/// `find_from` returns the first occurrence at or after `i`.
pub proof fn lemma_find_from(s: Seq<char>, p: Seq<char>, i: int)
    requires
        0 <= i,
    ensures
        match find_from(s, p, i) {
            Some(k) => i <= k && occurs_at(s, p, k) && forall|j: int|
                i <= j < k ==> !occurs_at(s, p, j),
            None => forall|j: int| i <= j ==> !occurs_at(s, p, j),
        },
    decreases s.len() + 1 - i,
{
    if i + p.len() > s.len() {
    } else if s.subrange(i, i + p.len()) == p {
    } else {
        lemma_find_from(s, p, i + 1);
    }
}

/// The first occurrence is unique: an occurrence with none before it is what `find` returns.
pub proof fn lemma_find_is(s: Seq<char>, p: Seq<char>, k: int)
    requires
        occurs_at(s, p, k),
        forall|j: int| 0 <= j < k ==> !occurs_at(s, p, j),
    ensures
        find(s, p) == Some(k),
{
    lemma_find_from(s, p, 0);
}


/// The characters of `s`, in order.
pub fn chars_of(s: &str) -> (out: Vec<char>)
    ensures
        out@ == s@,
{
    let mut out: Vec<char> = Vec::new();
    for c in it: s.chars()
        invariant
            out@ == it.seq().take(it.index() as int),
    {
        out.push(c);
    }
    out
}

/// Builds a `String` from a sequence of characters through std's
/// `String::from_iter` (`FromIterator<&char> for String`); the contract claims
/// that the string holds exactly these characters, in order.
#[verifier::external_body]
pub(crate) fn string_of(chars: &[char]) -> (s: String)
    ensures
        s@ == chars@,
{
    String::from_iter(chars.iter())
}

/// Appends `v[lo..hi]` to `out`.
pub fn push_range(out: &mut Vec<char>, v: &Vec<char>, lo: usize, hi: usize)
    requires
        lo <= hi <= v.len(),
    ensures
        final(out)@ == old(out)@ + v@.subrange(lo as int, hi as int),
{
    let mut i = lo;
    while i < hi
        invariant
            lo <= i <= hi <= v.len(),
            out@ == old(out)@ + v@.subrange(lo as int, i as int),
        decreases hi - i,
    {
        out.push(v[i]);
        assert(v@.subrange(lo as int, i + 1) =~= v@.subrange(lo as int, i as int).push(v@[i as int]));
        i = i + 1;
    }
}

/// Appends all of `v` to `out`.
pub fn push_all(out: &mut Vec<char>, v: &Vec<char>)
    ensures
        final(out)@ == old(out)@ + v@,
{
    push_range(out, v, 0, v.len());
    assert(v@.subrange(0, v@.len() as int) =~= v@);
}

/// The end `b` of `v[lo..hi]` once its trailing whitespace is dropped.
pub fn trim_end_at(v: &Vec<char>, lo: usize, hi: usize) -> (b: usize)
    requires
        lo <= hi <= v.len(),
    ensures
        lo <= b <= hi,
        v@.subrange(lo as int, b as int) == trim_end(v@.subrange(lo as int, hi as int)),
{
    let mut b = hi;
    while b > lo && is_whitespace(v[b - 1])
        invariant
            lo <= b <= hi <= v.len(),
            trim_end(v@.subrange(lo as int, b as int)) == trim_end(v@.subrange(lo as int, hi as int)),
        decreases b,
    {
        assert(v@.subrange(lo as int, b - 1) =~= v@.subrange(lo as int, b as int).drop_last());
        b = b - 1;
    }
    b
}

/// The start `a` of `v[lo..hi]` once its leading whitespace is dropped.
pub fn trim_start_at(v: &Vec<char>, lo: usize, hi: usize) -> (a: usize)
    requires
        lo <= hi <= v.len(),
    ensures
        lo <= a <= hi,
        v@.subrange(a as int, hi as int) == trim_start(v@.subrange(lo as int, hi as int)),
{
    let mut a = lo;
    while a < hi && is_whitespace(v[a])
        invariant
            lo <= a <= hi <= v.len(),
            trim_start(v@.subrange(a as int, hi as int)) == trim_start(v@.subrange(lo as int, hi as int)),
        decreases hi - a,
    {
        assert(v@.subrange(a + 1, hi as int) =~= v@.subrange(a as int, hi as int).drop_first());
        a = a + 1;
    }
    a
}

/// `p` occurs in `s` at index `i`.
pub fn matches_at(s: &Vec<char>, p: &Vec<char>, i: usize) -> (b: bool)
    ensures
        b == occurs_at(s@, p@, i as int),
{
    if i > s.len() || p.len() > s.len() - i {
        return false;
    }
    let mut k: usize = 0;
    while k < p.len()
        invariant
            i + p.len() <= s.len(),
            k <= p.len(),
            forall|j: int| 0 <= j < k ==> s@[i + j] == p@[j],
        decreases p.len() - k,
    {
        if s[i + k] != p[k] {
            assert(s@.subrange(i as int, i + p.len())[k as int] != p@[k as int]);
            return false;
        }
        k = k + 1;
    }
    assert(s@.subrange(i as int, i + p.len()) =~= p@);
    true
}

/// The first index where `p` occurs in `s`, as `str::find` (in characters).
pub fn find_chars(s: &Vec<char>, p: &Vec<char>) -> (r: Option<usize>)
    ensures
        match r {
            Some(k) => find(s@, p@) == Some(k as int),
            None => find(s@, p@) is None,
        },
{
    if p.len() == 0 {
        assert(s@.subrange(0, 0) =~= p@);
        return Some(0);
    }
    let mut i: usize = 0;
    while i <= s.len()
        invariant
            p.len() > 0,
            find(s@, p@) == find_from(s@, p@, i as int),
        decreases s.len() + 1 - i,
    {
        if p.len() > s.len() - i {
            return None;
        }
        if matches_at(s, p, i) {
            return Some(i);
        }
        i = i + 1;
    }
    None
}

/// `p` occurs somewhere in `s`, as `str::contains`.
pub fn contains_chars(s: &Vec<char>, p: &Vec<char>) -> (b: bool)
    ensures
        b == contains_seq(s@, p@),
{
    let r = find_chars(s, p);
    proof {
        lemma_find_from(s@, p@, 0);
    }
    r.is_some()
}

/// The trimmed text of `s`, as `str::trim`.
pub fn trimmed(s: &Vec<char>) -> (out: Vec<char>)
    ensures
        out@ == trim(s@),
{
    let b = trim_end_at(s, 0, s.len());
    let a = trim_start_at(s, 0, b);
    assert(s@.subrange(0, s.len() as int) =~= s@);
    let mut out: Vec<char> = Vec::new();
    push_range(&mut out, s, a, b);
    out
}


/// An occurrence at or after `i` with none between is what `find_from` returns.
pub proof fn lemma_find_from_is(s: Seq<char>, p: Seq<char>, i: int, k: int)
    requires
        0 <= i <= k,
        occurs_at(s, p, k),
        forall|j: int| i <= j < k ==> !occurs_at(s, p, j),
    ensures
        find_from(s, p, i) == Some(k),
{
    lemma_find_from(s, p, i);
}

/// The first index at or after `start` where `p` occurs in `s`.
pub fn find_chars_from(s: &Vec<char>, p: &Vec<char>, start: usize) -> (r: Option<usize>)
    requires
        start <= s.len(),
    ensures
        match r {
            Some(k) => find_from(s@, p@, start as int) == Some(k as int),
            None => find_from(s@, p@, start as int) is None,
        },
{
    if p.len() == 0 {
        assert(s@.subrange(start as int, start as int) =~= p@);
        return Some(start);
    }
    let mut i: usize = start;
    while i <= s.len()
        invariant
            p.len() > 0,
            start <= i,
            find_from(s@, p@, start as int) == find_from(s@, p@, i as int),
        decreases s.len() + 1 - i,
    {
        if p.len() > s.len() - i {
            return None;
        }
        if matches_at(s, p, i) {
            return Some(i);
        }
        i = i + 1;
    }
    None
}

/// The first line break at or after `i` (the length of `s` when there is none):
/// where the line holding index `i` ends.
pub open spec fn newline_from(s: Seq<char>, i: int) -> int
    decreases s.len() - i,
{
    if i < 0 || i >= s.len() {
        s.len() as int
    } else if s[i] == '\n' {
        i
    } else {
        newline_from(s, i + 1)
    }
}

/// Where the line holding index `i` starts: just after the last line break before it.
pub open spec fn line_start(s: Seq<char>, i: int) -> int
    decreases i,
{
    if i <= 0 {
        0
    } else if s[i - 1] == '\n' {
        i
    } else {
        line_start(s, i - 1)
    }
}

pub proof fn lemma_newline_from(s: Seq<char>, i: int)
    requires
        0 <= i <= s.len(),
    ensures
        i <= newline_from(s, i) <= s.len(),
        newline_from(s, i) < s.len() ==> s[newline_from(s, i)] == '\n',
        forall|j: int| i <= j < newline_from(s, i) ==> s[j] != '\n',
    decreases s.len() - i,
{
    if i < s.len() && s[i] != '\n' {
        lemma_newline_from(s, i + 1);
    }
}

pub proof fn lemma_newline_from_is(s: Seq<char>, i: int, r: int)
    requires
        0 <= i <= r <= s.len(),
        r < s.len() ==> s[r] == '\n',
        forall|j: int| i <= j < r ==> s[j] != '\n',
    ensures
        newline_from(s, i) == r,
{
    lemma_newline_from(s, i);
    let n = newline_from(s, i);
    if n < r {
        assert(s[n] == '\n');
    }
    if n > r {
        assert(s[r] != '\n');
    }
}

pub proof fn lemma_line_start(s: Seq<char>, i: int)
    requires
        0 <= i <= s.len(),
    ensures
        0 <= line_start(s, i) <= i,
        line_start(s, i) > 0 ==> s[line_start(s, i) - 1] == '\n',
        forall|j: int| line_start(s, i) <= j < i ==> s[j] != '\n',
    decreases i,
{
    if i > 0 && s[i - 1] != '\n' {
        lemma_line_start(s, i - 1);
    }
}

pub proof fn lemma_line_start_is(s: Seq<char>, i: int, r: int)
    requires
        0 < r <= i <= s.len(),
        s[r - 1] == '\n',
        forall|j: int| r <= j < i ==> s[j] != '\n',
    ensures
        line_start(s, i) == r,
{
    lemma_line_start(s, i);
    let n = line_start(s, i);
    if n < r {
        assert(s[r - 1] != '\n');
    }
    if n > r {
        assert(s[n - 1] != '\n');
    }
}

/// `s` up to the end of its last line that is not blank (nothing when every
/// line is blank): the trailing blank lines are dropped, whole.
pub open spec fn trim_end_lines(s: Seq<char>) -> Seq<char> {
    let n = trim_end(s).len();
    if n == 0 {
        Seq::empty()
    } else {
        s.subrange(0, newline_from(s, n as int))
    }
}

/// `s` from the start of its first line that is not blank (nothing when every
/// line is blank): the leading blank lines are dropped, whole.
pub open spec fn trim_start_lines(s: Seq<char>) -> Seq<char> {
    let m = s.len() - trim_start(s).len();
    if m == s.len() {
        Seq::empty()
    } else {
        s.subrange(line_start(s, m), s.len() as int)
    }
}

/// `trim_end` keeps everything up to the last character that is not whitespace.
pub proof fn lemma_trim_end_is(s: Seq<char>, m: int)
    requires
        0 < m <= s.len(),
        !is_ws(s[m - 1]),
        all_ws(s.subrange(m, s.len() as int)),
    ensures
        trim_end(s) == s.subrange(0, m),
    decreases s.len(),
{
    if s.len() > m {
        assert(is_ws(s.subrange(m, s.len() as int)[s.len() - 1 - m]));
        let d = s.drop_last();
        assert(d.subrange(m, d.len() as int) =~= s.subrange(m, s.len() - 1));
        assert forall|i: int| 0 <= i < d.subrange(m, d.len() as int).len() implies is_ws(
            #[trigger] d.subrange(m, d.len() as int)[i],
        ) by {
            assert(s.subrange(m, s.len() as int)[i] == d.subrange(m, d.len() as int)[i]);
        }
        lemma_trim_end_is(d, m);
        assert(d.subrange(0, m) =~= s.subrange(0, m));
    } else {
        assert(s.subrange(0, m) =~= s);
    }
}

/// `trim_start` keeps everything from the first character that is not whitespace.
pub proof fn lemma_trim_start_is(s: Seq<char>, q: int)
    requires
        0 <= q < s.len(),
        !is_ws(s[q]),
        all_ws(s.subrange(0, q)),
    ensures
        trim_start(s) == s.subrange(q, s.len() as int),
    decreases q,
{
    if q > 0 {
        assert(is_ws(s.subrange(0, q)[0]));
        let d = s.drop_first();
        assert forall|i: int| 0 <= i < d.subrange(0, q - 1).len() implies is_ws(
            #[trigger] d.subrange(0, q - 1)[i],
        ) by {
            assert(s.subrange(0, q)[i + 1] == d.subrange(0, q - 1)[i]);
        }
        lemma_trim_start_is(d, q - 1);
        assert(d.subrange(q - 1, d.len() as int) =~= s.subrange(q, s.len() as int));
    } else {
        assert(s.subrange(0, s.len() as int) =~= s);
    }
}

/// A text of whitespace only trims to nothing.
pub proof fn lemma_trim_all_ws(s: Seq<char>)
    requires
        all_ws(s),
    ensures
        trim_end(s).len() == 0,
        trim_start(s).len() == 0,
        trim_end_lines(s) == Seq::<char>::empty(),
        trim_start_lines(s) == Seq::<char>::empty(),
{
    lemma_trim_end_prefix(s);
    lemma_trim_start_suffix(s);
    if trim_end(s).len() > 0 {
        assert(trim_end(s).last() == s[trim_end(s).len() - 1]);
    }
    if trim_start(s).len() > 0 {
        assert(trim_start(s)[0] == s[s.len() - trim_start(s).len()]);
    }
}

/// After the last non-blank character, a kept text holds no line break.
pub open spec fn ends_within_line(k: Seq<char>) -> bool {
    &&& trim_end(k).len() > 0
    &&& forall|j: int| trim_end(k).len() <= j < k.len() ==> k[j] != '\n'
}

/// Before the first non-blank character, a kept text holds no line break.
pub open spec fn starts_within_line(c: Seq<char>) -> bool {
    &&& trim_start(c).len() > 0
    &&& forall|j: int| 0 <= j < c.len() - trim_start(c).len() ==> c[j] != '\n'
}

pub proof fn lemma_trim_end_lines(s: Seq<char>)
    ensures
        ({
            let k = trim_end_lines(s);
            &&& k.len() <= s.len()
            &&& k == s.subrange(0, k.len() as int)
            &&& (k.len() == 0 <==> trim_end(s).len() == 0)
            &&& k.len() > 0 ==> ends_within_line(k) && trim_end(k) == trim_end(s)
            &&& all_ws(s.subrange(k.len() as int, s.len() as int))
            &&& 0 < k.len() < s.len() ==> s[k.len() as int] == '\n'
        }),
{
    lemma_trim_end_prefix(s);
    let n = trim_end(s).len() as int;
    let k = trim_end_lines(s);
    if n == 0 {
        assert(s.subrange(0, s.len() as int) =~= s);
        assert(k.len() == 0);
        assert(s.subrange(0, 0) =~= k);
    } else {
        lemma_newline_from(s, n);
        let r = newline_from(s, n);
        assert(k == s.subrange(0, r));
        assert(k.subrange(0, n) =~= s.subrange(0, n));
        assert(k[n - 1] == trim_end(s).last());
        assert forall|i: int| 0 <= i < k.subrange(n, k.len() as int).len() implies is_ws(
            #[trigger] k.subrange(n, k.len() as int)[i],
        ) by {
            assert(k.subrange(n, k.len() as int)[i] == s.subrange(n, s.len() as int)[i]);
        }
        lemma_trim_end_is(k, n);
        assert(trim_end(k) =~= trim_end(s));
        assert forall|i: int| 0 <= i < s.subrange(r, s.len() as int).len() implies is_ws(
            #[trigger] s.subrange(r, s.len() as int)[i],
        ) by {
            assert(s.subrange(r, s.len() as int)[i] == s.subrange(n, s.len() as int)[i + r - n]);
        }
    }
}

/// A kept text followed by whitespace that begins with a line break is kept as it is.
pub proof fn lemma_trim_end_lines_append(k: Seq<char>, w: Seq<char>)
    requires
        ends_within_line(k),
        all_ws(w),
        w.len() > 0,
        w[0] == '\n',
    ensures
        trim_end_lines(k + w) == k,
{
    let x = k + w;
    let n = trim_end(k).len() as int;
    lemma_trim_end_prefix(k);
    lemma_trim_end_append_ws(k, w);
    assert(x[k.len() as int] == '\n');
    lemma_newline_from_is(x, n, k.len() as int);
    assert(x.subrange(0, k.len() as int) =~= k);
}

pub proof fn lemma_trim_start_lines(s: Seq<char>)
    ensures
        ({
            let u = trim_start_lines(s);
            let a = s.len() - u.len();
            &&& 0 <= a <= s.len()
            &&& u == s.subrange(a, s.len() as int)
            &&& (u.len() == 0 <==> trim_start(s).len() == 0)
            &&& u.len() > 0 ==> starts_within_line(u) && trim_start(u) == trim_start(s)
            &&& all_ws(s.subrange(0, a))
            &&& u.len() > 0 && a > 0 ==> s[a - 1] == '\n'
        }),
{
    lemma_trim_start_suffix(s);
    let m = s.len() - trim_start(s).len();
    let u = trim_start_lines(s);
    if m == s.len() {
        assert(s.subrange(s.len() as int, s.len() as int) =~= u);
        assert(s.subrange(0, s.len() as int) =~= s);
    } else {
        lemma_line_start(s, m);
        let a = line_start(s, m);
        assert(u == s.subrange(a, s.len() as int));
        assert(!is_ws(s[m])) by {
            assert(trim_start(s)[0] == s[m]);
        }
        assert forall|i: int| 0 <= i < u.subrange(0, m - a).len() implies is_ws(
            #[trigger] u.subrange(0, m - a)[i],
        ) by {
            assert(u.subrange(0, m - a)[i] == s.subrange(0, m)[i + a]);
        }
        lemma_trim_start_is(u, m - a);
        assert(u.subrange(m - a, u.len() as int) =~= s.subrange(m, s.len() as int));
        assert forall|i: int| 0 <= i < s.subrange(0, a).len() implies is_ws(
            #[trigger] s.subrange(0, a)[i],
        ) by {
            assert(s.subrange(0, a)[i] == s.subrange(0, m)[i]);
        }
    }
}

/// Cutting a text after its last non-blank line keeps where its first non-blank line starts.
pub proof fn lemma_trim_end_lines_keeps_start(u: Seq<char>)
    requires
        starts_within_line(u),
    ensures
        trim_end_lines(u).len() > 0,
        starts_within_line(trim_end_lines(u)),
{
    lemma_trim_start_suffix(u);
    lemma_trim_end_lines(u);
    lemma_trim_end_prefix(u);
    let q = u.len() - trim_start(u).len();
    let c = trim_end_lines(u);
    let n = trim_end(u).len() as int;
    assert(!is_ws(u[q])) by {
        assert(trim_start(u)[0] == u[q]);
    }
    // the first non-blank character comes no later than the last one
    if n <= q {
        assert(u.subrange(n, u.len() as int)[q - n] == u[q]);
    }
    assert(c[q] == u[q]);
    assert forall|i: int| 0 <= i < c.subrange(0, q).len() implies is_ws(#[trigger] c.subrange(0, q)[i]) by {
        assert(c.subrange(0, q)[i] == u.subrange(0, q)[i]);
    }
    lemma_trim_start_is(c, q);
}

/// Whitespace ending in a line break, then a kept text, then whitespace: the
/// leading blank lines drop away and the rest stays.
pub proof fn lemma_trim_start_lines_prepend(w1: Seq<char>, c: Seq<char>, w2: Seq<char>)
    requires
        starts_within_line(c),
        all_ws(w1),
        w1.len() > 0,
        w1.last() == '\n',
        all_ws(w2),
    ensures
        trim_start_lines(w1 + c + w2) == c + w2,
{
    let x = w1 + c + w2;
    lemma_trim_start_suffix(c);
    let q = c.len() - trim_start(c).len();
    assert(!is_ws(c[q])) by {
        assert(trim_start(c)[0] == c[q]);
    }
    let m = w1.len() + q;
    assert(x[m] == c[q]);
    assert forall|i: int| 0 <= i < x.subrange(0, m).len() implies is_ws(#[trigger] x.subrange(0, m)[i]) by {
        if i < w1.len() {
            assert(x.subrange(0, m)[i] == w1[i]);
        } else {
            assert(x.subrange(0, m)[i] == c.subrange(0, q)[i - w1.len()]);
        }
    }
    lemma_trim_start_is(x, m);
    assert(x.len() - trim_start(x).len() == m);
    assert(x[w1.len() - 1] == '\n');
    assert forall|j: int| w1.len() <= j < m implies x[j] != '\n' by {
        assert(x[j] == c[j - w1.len()]);
    }
    lemma_line_start_is(x, m, w1.len() as int);
    assert(x.subrange(w1.len() as int, x.len() as int) =~= c + w2);
}

/// The line break at or after `i`, found in `v`.
pub fn newline_from_exec(v: &Vec<char>, i: usize) -> (r: usize)
    requires
        i <= v.len(),
    ensures
        r as int == newline_from(v@, i as int),
{
    let mut j = i;
    while j < v.len() && v[j] != '\n'
        invariant
            i <= j <= v.len(),
            newline_from(v@, i as int) == newline_from(v@, j as int),
        decreases v.len() - j,
    {
        j = j + 1;
    }
    j
}

/// Where the line holding index `i` of `v` starts.
pub fn line_start_exec(v: &Vec<char>, i: usize) -> (r: usize)
    requires
        i <= v.len(),
    ensures
        r as int == line_start(v@, i as int),
{
    let mut j = i;
    while j > 0 && v[j - 1] != '\n'
        invariant
            j <= i <= v.len(),
            line_start(v@, i as int) == line_start(v@, j as int),
        decreases j,
    {
        j = j - 1;
    }
    j
}

/// `v` without its trailing blank lines.
pub fn trim_end_lines_exec(v: &Vec<char>) -> (out: Vec<char>)
    ensures
        out@ == trim_end_lines(v@),
{
    assert(v@.subrange(0, v.len() as int) =~= v@);
    let n = trim_end_at(v, 0, v.len());
    let mut out: Vec<char> = Vec::new();
    if n == 0 {
        return out;
    }
    let r = newline_from_exec(v, n);
    proof {
        lemma_newline_from(v@, n as int);
    }
    push_range(&mut out, v, 0, r);
    assert(out@ =~= trim_end_lines(v@));
    out
}

/// `v` without its leading blank lines.
pub fn trim_start_lines_exec(v: &Vec<char>) -> (out: Vec<char>)
    ensures
        out@ == trim_start_lines(v@),
{
    assert(v@.subrange(0, v.len() as int) =~= v@);
    let m = trim_start_at(v, 0, v.len());
    proof {
        lemma_trim_start_suffix(v@);
    }
    let mut out: Vec<char> = Vec::new();
    if m == v.len() {
        assert(out@ =~= trim_start_lines(v@));
        return out;
    }
    let a = line_start_exec(v, m);
    proof {
        lemma_line_start(v@, m as int);
    }
    push_range(&mut out, v, a, v.len());
    assert(out@ =~= trim_start_lines(v@));
    out
}

} // verus!
