//! The managed block of `.gitignore`: the harness owns only the lines between
//! its two marker comments and leaves everything outside them to the project.
use vstd::prelude::*;
use crate::text;
use crate::text::{
    chars_of, find_chars, find_chars_from, push_all, push_range, string_of,
    trim_end_lines_exec, trim_start_lines_exec,
};

verus! {

/// The marker line that opens the managed block.
pub open spec fn begin_marker() -> Seq<char> {
    "# --- agent-harness sync: managed block, do not edit ---"@
}

/// The marker line that closes the managed block.
pub open spec fn end_marker() -> Seq<char> {
    "# --- agent-harness sync: end of managed block ---"@
}

/// The lines between the markers: for each ignored pattern, a comment naming
/// it and then the pattern itself.
pub open spec fn block_body() -> Seq<char> {
    seq!['\n', '#', ' '] + "bot (GitHub App) credentials"@ + seq!['\n'] + ".env"@ + seq![
        '\n',
        '#',
        ' ',
    ] + "dependencies of harness/scripts"@ + seq!['\n'] + "harness/scripts/node_modules/"@ + seq![
        '\n',
    ]
}

/// The whole managed block, from the opening marker to the closing one.
#[verifier::opaque]
pub open spec fn managed_block() -> Seq<char> {
    begin_marker() + block_body() + end_marker()
}

/// Where the managed block stands in `e`, as the range it spans: from the
/// first opening marker to the end of the first closing marker after it. An
/// opening marker that no closing marker follows is a block cut short, which
/// spans that marker alone. With no opening marker, `e` holds no block.
pub open spec fn block_bounds(e: Seq<char>) -> Option<(int, int)> {
    match text::find(e, begin_marker()) {
        None => None,
        Some(s) => match text::find_from(e, end_marker(), s + begin_marker().len()) {
            Some(t) => Some((s, t + end_marker().len())),
            None => Some((s, s + begin_marker().len())),
        },
    }
}

/// The project's text before the managed block (all of `e` when there is no block).
pub open spec fn gitignore_head(e: Seq<char>) -> Seq<char> {
    match block_bounds(e) {
        Some((s, _)) => e.subrange(0, s),
        None => e,
    }
}

/// The project's text after the managed block (nothing when there is no block).
pub open spec fn gitignore_tail(e: Seq<char>) -> Seq<char> {
    match block_bounds(e) {
        Some((_, t)) => e.subrange(t, e.len() as int),
        None => Seq::empty(),
    }
}

/// The project's lines before the block, without the blank lines that end them.
pub open spec fn kept_head(e: Seq<char>) -> Seq<char> {
    text::trim_end_lines(gitignore_head(e))
}

/// The project's lines after the block, without the blank lines around them.
pub open spec fn kept_tail(e: Seq<char>) -> Seq<char> {
    text::trim_end_lines(text::trim_start_lines(gitignore_tail(e)))
}

/// What stands before the block when the kept head is `h`: `h` and a blank line.
pub open spec fn head_part(h: Seq<char>) -> Seq<char> {
    if h.len() > 0 {
        h + seq!['\n', '\n']
    } else {
        Seq::empty()
    }
}

/// What follows the block's own line break when the kept tail is `c`: a blank
/// line, then `c` as its own lines.
pub open spec fn tail_part(c: Seq<char>) -> Seq<char> {
    if c.len() > 0 {
        seq!['\n'] + c + seq!['\n']
    } else {
        Seq::empty()
    }
}

/// The part of the merged text before the block.
pub open spec fn merged_head(e: Seq<char>) -> Seq<char> {
    head_part(kept_head(e))
}

/// The part of the merged text after the block and its line break.
pub open spec fn merged_tail(e: Seq<char>) -> Seq<char> {
    tail_part(kept_tail(e))
}

/// The expected `.gitignore` for an existing text `e`: the project's lines
/// before the block and a blank line, the block, then a blank line and the
/// project's lines after the block, if any. Only blank lines next to the block
/// are dropped; every other line stays as it is.
pub open spec fn merged_gitignore_spec(e: Seq<char>) -> Seq<char> {
    merged_head(e) + managed_block() + seq!['\n'] + merged_tail(e)
}

fn begin_marker_chars() -> (v: Vec<char>)
    ensures
        v@ == begin_marker(),
{
    chars_of("# --- agent-harness sync: managed block, do not edit ---")
}

fn end_marker_chars() -> (v: Vec<char>)
    ensures
        v@ == end_marker(),
{
    chars_of("# --- agent-harness sync: end of managed block ---")
}

fn managed_block_chars() -> (v: Vec<char>)
    ensures
        v@ == managed_block(),
{
    let mut v = begin_marker_chars();
    v.push('\n');
    v.push('#');
    v.push(' ');
    push_all(&mut v, &chars_of("bot (GitHub App) credentials"));
    v.push('\n');
    push_all(&mut v, &chars_of(".env"));
    v.push('\n');
    v.push('#');
    v.push(' ');
    push_all(&mut v, &chars_of("dependencies of harness/scripts"));
    v.push('\n');
    push_all(&mut v, &chars_of("harness/scripts/node_modules/"));
    v.push('\n');
    push_all(&mut v, &end_marker_chars());
    reveal(managed_block);
    assert(v@ =~= managed_block());
    v
}

/// The expected `.gitignore`, given the existing text (empty when the file is missing).
pub fn merged_gitignore(existing: &str) -> (out: String)
    ensures
        out@ == merged_gitignore_spec(existing@),
{
    let e = chars_of(existing);
    let begin = begin_marker_chars();
    let end = end_marker_chars();
    let len = e.len();
    let bounds: Option<(usize, usize)> = match find_chars(&e, &begin) {
        None => None,
        Some(s0) => {
            proof {
                text::lemma_find_from(e@, begin@, 0);
                assert(text::occurs_at(e@, begin@, s0 as int));
                assert(s0 + begin@.len() <= len);
            }
            let from = s0 + begin.len();
            match find_chars_from(&e, &end, from) {
                None => Some((s0, from)),
                Some(t) => {
                    proof {
                        text::lemma_find_from(e@, end@, from as int);
                    }
                    Some((s0, t + end.len()))
                },
            }
        },
    };
    let (head_end, tail_start) = match bounds {
        Some((s, u)) => (s, u),
        None => (e.len(), e.len()),
    };
    assert(e@.subrange(0, e.len() as int) =~= e@);
    assert(e@.subrange(e.len() as int, e.len() as int) =~= Seq::<char>::empty());
    let mut head: Vec<char> = Vec::new();
    push_range(&mut head, &e, 0, head_end);
    assert(head@ =~= gitignore_head(e@));
    let k = trim_end_lines_exec(&head);
    let mut out: Vec<char> = Vec::new();
    if k.len() > 0 {
        push_all(&mut out, &k);
        out.push('\n');
        out.push('\n');
    }
    assert(out@ =~= merged_head(e@));
    push_all(&mut out, &managed_block_chars());
    out.push('\n');
    let mut tail: Vec<char> = Vec::new();
    push_range(&mut tail, &e, tail_start, e.len());
    assert(tail@ =~= gitignore_tail(e@));
    let u = trim_start_lines_exec(&tail);
    let c = trim_end_lines_exec(&u);
    let ghost before_tail = out@;
    if c.len() > 0 {
        out.push('\n');
        push_all(&mut out, &c);
        out.push('\n');
    }
    assert(out@ =~= before_tail + merged_tail(e@));
    string_of(out.as_slice())
}

/// Neither marker holds a line break.
proof fn lemma_markers_have_no_newline()
    ensures
        forall|i: int| 0 <= i < begin_marker().len() ==> begin_marker()[i] != '\n',
        forall|i: int| 0 <= i < end_marker().len() ==> end_marker()[i] != '\n',
        begin_marker().len() == 56,
        end_marker().len() == 50,
{
    reveal_strlit("# --- agent-harness sync: managed block, do not edit ---");
    reveal_strlit("# --- agent-harness sync: end of managed block ---");
}

/// Where the markers and line breaks stand in the managed block.
proof fn lemma_block_layout()
    ensures
        managed_block().len() == 207,
        managed_block().subrange(0, 56) == begin_marker(),
        managed_block().subrange(157, 207) == end_marker(),
        managed_block()[56] == '\n',
        managed_block()[87] == '\n',
        managed_block()[92] == '\n',
        managed_block()[126] == '\n',
        managed_block()[156] == '\n',
        managed_block()[1] != '#',
        managed_block()[2] != '#',
        managed_block()[3] != '#',
        managed_block()[4] != '#',
        managed_block()[5] != '#',
        managed_block()[6] != '#',
        managed_block()[26] != end_marker()[26],
{
    reveal_strlit("# --- agent-harness sync: managed block, do not edit ---");
    reveal_strlit("# --- agent-harness sync: end of managed block ---");
    reveal_strlit("bot (GitHub App) credentials");
    reveal_strlit(".env");
    reveal_strlit("dependencies of harness/scripts");
    reveal_strlit("harness/scripts/node_modules/");
    reveal(managed_block);
    assert(managed_block().subrange(0, 56) =~= begin_marker());
    assert(managed_block().subrange(157, 207) =~= end_marker());
}

/// A pattern without line breaks cannot occur across a line break.
proof fn lemma_no_occurrence_across_newline(s: Seq<char>, p: Seq<char>, i: int, k: int)
    requires
        forall|j: int| 0 <= j < p.len() ==> p[j] != '\n',
        i <= k < i + p.len(),
        0 <= k < s.len(),
        s[k] == '\n',
    ensures
        !text::occurs_at(s, p, i),
{
    if text::occurs_at(s, p, i) {
        assert(s.subrange(i, i + p.len())[k - i] == p[k - i]);
    }
}

/// Inside the managed block, its own closing marker is the first one.
proof fn lemma_block_markers()
    ensures
        forall|i: int| 0 <= i < 157 ==> !text::occurs_at(managed_block(), end_marker(), i),
{
    lemma_block_layout();
    lemma_markers_have_no_newline();
    reveal_strlit("# --- agent-harness sync: end of managed block ---");
    let b = managed_block();
    let e = end_marker();
    assert forall|i: int| 0 <= i < 157 implies !text::occurs_at(b, e, i) by {
        if text::occurs_at(b, e, i) {
            assert(b.subrange(i, i + 50)[0] == e[0]);
            if i == 0 {
                assert(b.subrange(i, i + 50)[26] == e[26]);
            } else if i <= 6 {
                assert(e[0] == '#');
            } else {
                let k: int = if i <= 56 {
                    56
                } else if i <= 87 {
                    87
                } else if i <= 92 {
                    92
                } else if i <= 126 {
                    126
                } else {
                    156
                };
                assert(b.subrange(i, i + 50)[k - i] == e[k - i]);
            }
        }
    }
}

/// An occurrence inside a prefix of `s` is an occurrence in `s`.
proof fn lemma_occurs_in_prefix(s: Seq<char>, n: int, p: Seq<char>, i: int)
    requires
        0 <= n <= s.len(),
        text::occurs_at(s.subrange(0, n), p, i),
    ensures
        text::occurs_at(s, p, i),
{
    assert(s.subrange(0, n).subrange(i, i + p.len()) =~= s.subrange(i, i + p.len()));
}

/// The kept head of any text holds no opening marker.
proof fn lemma_kept_head_has_no_begin(e: Seq<char>)
    ensures
        forall|j: int| !text::occurs_at(kept_head(e), begin_marker(), j),
{
    let head = gitignore_head(e);
    let k = kept_head(e);
    lemma_markers_have_no_newline();
    text::lemma_find_from(e, begin_marker(), 0);
    text::lemma_trim_end_lines(head);
    assert(k =~= head.subrange(0, k.len() as int));
    assert forall|j: int| !text::occurs_at(k, begin_marker(), j) by {
        if text::occurs_at(k, begin_marker(), j) {
            lemma_occurs_in_prefix(head, k.len() as int, begin_marker(), j);
            match text::find(e, begin_marker()) {
                Some(s) => lemma_occurs_in_prefix(e, s, begin_marker(), j),
                None => {},
            }
        }
    }
}

/// Where the head holds no opening marker, the managed block that follows it
/// is the one that `block_bounds` finds.
proof fn lemma_bounds_after_head(k: Seq<char>, rest: Seq<char>)
    requires
        forall|j: int| !text::occurs_at(k, begin_marker(), j),
    ensures
        block_bounds(head_part(k) + managed_block() + rest) == Some(
            (head_part(k).len() as int, head_part(k).len() + 207int),
        ),
{
    let hp = head_part(k);
    let b = managed_block();
    let out = hp + b + rest;
    let n = hp.len() as int;
    lemma_block_layout();
    lemma_markers_have_no_newline();
    lemma_block_markers();
    assert(out.subrange(n, n + 56) =~= b.subrange(0, 56));
    assert(out.subrange(n + 157, n + 207) =~= b.subrange(157, 207));
    assert forall|j: int| 0 <= j < n implies !text::occurs_at(out, begin_marker(), j) by {
        if text::occurs_at(out, begin_marker(), j) {
            if j + 56 <= k.len() {
                assert(out.subrange(j, j + 56) =~= k.subrange(j, j + 56));
                assert(text::occurs_at(k, begin_marker(), j));
            } else {
                let m: int = if j <= k.len() { k.len() as int } else { k.len() + 1int };
                assert(out[m] == '\n');
                lemma_no_occurrence_across_newline(out, begin_marker(), j, m);
            }
        }
    }
    text::lemma_find_is(out, begin_marker(), n);
    assert forall|p: int| n + 56 <= p < n + 157 implies !text::occurs_at(out, end_marker(), p) by {
        if text::occurs_at(out, end_marker(), p) {
            assert(out.subrange(p, p + 50) =~= b.subrange(p - n, p - n + 50));
            assert(text::occurs_at(b, end_marker(), p - n));
        }
    }
    text::lemma_find_from_is(out, end_marker(), n + 56, n + 157);
}

/// The opening marker holds `#` only as its first character.
proof fn lemma_begin_marker_hash()
    ensures
        begin_marker()[0] == '#',
        forall|j: int| 1 <= j < begin_marker().len() ==> begin_marker()[j] != '#',
{
    reveal_strlit("# --- agent-harness sync: managed block, do not edit ---");
    assert(begin_marker().len() == 56);
}

/// Where the first closing marker comes after the first opening marker, the
/// block spans exactly from that opening marker to the end of that closing one.
pub proof fn lemma_block_bounds_of_ordered_markers(e: Seq<char>)
    requires
        text::find(e, begin_marker()) is Some,
        text::find(e, end_marker()) is Some,
        text::find(e, begin_marker())->0 < text::find(e, end_marker())->0,
    ensures
        block_bounds(e) == Some(
            (
                text::find(e, begin_marker())->0,
                text::find(e, end_marker())->0 + end_marker().len(),
            ),
        ),
{
    let s = text::find(e, begin_marker())->0;
    let f = text::find(e, end_marker())->0;
    lemma_markers_have_no_newline();
    lemma_begin_marker_hash();
    reveal_strlit("# --- agent-harness sync: end of managed block ---");
    text::lemma_find_from(e, begin_marker(), 0);
    text::lemma_find_from(e, end_marker(), 0);
    if f < s + 56 {
        assert(e.subrange(f, f + 50)[0] == end_marker()[0]);
        assert(e.subrange(s, s + 56)[f - s] == begin_marker()[f - s]);
    }
    text::lemma_find_from_is(e, end_marker(), s + 56, f);
}

/// Merging is idempotent: merging the merged text again changes nothing, for
/// every existing text.
pub proof fn lemma_merged_gitignore_idempotent(e: Seq<char>)
    ensures
        merged_gitignore_spec(merged_gitignore_spec(e)) == merged_gitignore_spec(e),
{
    let k = kept_head(e);
    let c = kept_tail(e);
    let hp = merged_head(e);
    let tp = merged_tail(e);
    let b = managed_block();
    let out = merged_gitignore_spec(e);
    let nl = seq!['\n'];
    let nn = seq!['\n', '\n'];
    lemma_block_layout();
    lemma_kept_head_has_no_begin(e);
    lemma_bounds_after_head(k, nl + tp);
    assert(out =~= hp + b + (nl + tp));
    assert(gitignore_head(out) =~= hp);
    assert(gitignore_tail(out) =~= nl + tp);
    // the head comes back as it was
    text::lemma_trim_end_lines(gitignore_head(e));
    if k.len() > 0 {
        text::lemma_trim_end_lines_append(k, nn);
    } else {
        text::lemma_trim_all_ws(Seq::<char>::empty());
    }
    assert(kept_head(out) == k);
    // and so does the tail
    let u = text::trim_start_lines(gitignore_tail(e));
    text::lemma_trim_start_lines(gitignore_tail(e));
    text::lemma_trim_end_lines(u);
    if c.len() > 0 {
        text::lemma_trim_end_lines_keeps_start(u);
        assert(nl + tp =~= nn + c + nl);
        text::lemma_trim_start_lines_prepend(nn, c, nl);
        text::lemma_trim_end_lines_append(c, nl);
    } else {
        assert(nl + tp =~= nl);
        text::lemma_trim_all_ws(nl);
        text::lemma_trim_all_ws(Seq::<char>::empty());
    }
    assert(kept_tail(out) == c);
}

/// The merge keeps the project's lines as they are: of the text before the
/// block only trailing blank lines are dropped, of the text after it only
/// leading and trailing blank lines; what is kept of the head opens the
/// result, the managed block follows it, and what is kept of the tail closes
/// the result, before its last line break.
pub proof fn lemma_merged_gitignore_keeps_project_lines(e: Seq<char>)
    ensures
        ({
            let out = merged_gitignore_spec(e);
            let h = gitignore_head(e);
            let k = kept_head(e);
            &&& h.subrange(0, k.len() as int) == k
            &&& text::all_ws(h.subrange(k.len() as int, h.len() as int))
            &&& 0 < k.len() < h.len() ==> h[k.len() as int] == '\n'
            &&& out.subrange(0, k.len() as int) == k
            &&& text::occurs_at(out, managed_block(), merged_head(e).len() as int)
        }),
        ({
            let out = merged_gitignore_spec(e);
            let t = gitignore_tail(e);
            let c = kept_tail(e);
            let a = t.len() - text::trim_start_lines(t).len();
            &&& 0 <= a && a + c.len() <= t.len()
            &&& t.subrange(a, a + c.len()) == c
            &&& text::all_ws(t.subrange(0, a))
            &&& text::all_ws(t.subrange(a + c.len(), t.len() as int))
            &&& c.len() > 0 && a > 0 ==> t[a - 1] == '\n'
            &&& c.len() > 0 && a + c.len() < t.len() ==> t[a + c.len()] == '\n'
            &&& c.len() > 0 ==> out.subrange(out.len() - c.len() - 1, out.len() - 1) == c
        }),
{
    let out = merged_gitignore_spec(e);
    let h = gitignore_head(e);
    let k = kept_head(e);
    let hp = merged_head(e);
    let b = managed_block();
    let tp = merged_tail(e);
    text::lemma_trim_end_lines(h);
    assert(out =~= hp + b + seq!['\n'] + tp);
    assert(out.subrange(0, k.len() as int) =~= k);
    assert(out.subrange(hp.len() as int, (hp.len() + b.len()) as int) =~= b);
    let t = gitignore_tail(e);
    let u = text::trim_start_lines(t);
    let c = kept_tail(e);
    let a = t.len() - u.len();
    text::lemma_trim_start_lines(t);
    text::lemma_trim_end_lines(u);
    assert(t.subrange(a, a + c.len()) =~= u.subrange(0, c.len() as int));
    assert(t.subrange(a + c.len(), t.len() as int) =~= u.subrange(c.len() as int, u.len() as int));
    if c.len() > 0 && a + c.len() < t.len() {
        assert(t[a + c.len()] == u[c.len() as int]);
    }
    if c.len() > 0 {
        assert(out.subrange(out.len() - c.len() - 1, out.len() - 1) =~= c);
    }
}

} // verus!
