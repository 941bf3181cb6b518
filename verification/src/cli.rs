//! The command line: which subcommand runs with which arguments, and the
//! `git` invocations that fetching the shared harness takes.
use vstd::prelude::*;
use crate::text;
use crate::text::{chars_of, string_of, trim_start_at};
use crate::json::{owned, strings_view};

verus! {

/// A subcommand with its arguments.
#[derive(Debug, PartialEq)]
pub enum Command {
    /// `init [--revision <rev>]`
    Init { revision: Option<String> },
    /// `update [<rev>]`
    Update { revision: Option<String> },
    /// `sync [--source <dir>]`, or `check [--source <dir>]` when `check` is set.
    Sync { source: Option<String>, check: bool },
}

/// Why the command line was refused.
#[derive(Debug, PartialEq, Clone, Copy)]
pub enum CliError {
    /// No known subcommand: the usage is printed.
    UnknownCommand,
    /// A known subcommand with arguments it does not take.
    BadArguments,
}

/// The model of a parsed command line.
pub enum CommandV {
    Init(Option<Seq<char>>),
    Update(Option<Seq<char>>),
    Sync(Option<Seq<char>>, bool),
    Refused(CliError),
}

impl Command {
    pub open spec fn view(self) -> CommandV {
        match self {
            Command::Init { revision } => CommandV::Init(
                match revision {
                    Some(r) => Some(r@),
                    None => None,
                },
            ),
            Command::Update { revision } => CommandV::Update(
                match revision {
                    Some(r) => Some(r@),
                    None => None,
                },
            ),
            Command::Sync { source, check } => CommandV::Sync(
                match source {
                    Some(s) => Some(s@),
                    None => None,
                },
                check,
            ),
        }
    }
}

/// What the arguments after the program name ask for.
pub open spec fn parse_spec(a: Seq<Seq<char>>) -> CommandV {
    if a.len() == 0 {
        CommandV::Refused(CliError::UnknownCommand)
    } else if a[0] == "init"@ {
        if a.len() == 1 {
            CommandV::Init(None)
        } else if a.len() == 3 && a[1] == "--revision"@ {
            CommandV::Init(Some(a[2]))
        } else {
            CommandV::Refused(CliError::BadArguments)
        }
    } else if a[0] == "update"@ {
        if a.len() == 1 {
            CommandV::Update(None)
        } else if a.len() == 2 {
            CommandV::Update(Some(a[1]))
        } else {
            CommandV::Refused(CliError::BadArguments)
        }
    } else if a[0] == "sync"@ || a[0] == "check"@ {
        let check = a[0] == "check"@;
        if a.len() == 1 {
            CommandV::Sync(None, check)
        } else if a.len() == 3 && a[1] == "--source"@ {
            CommandV::Sync(Some(a[2]), check)
        } else {
            CommandV::Refused(CliError::BadArguments)
        }
    } else {
        CommandV::Refused(CliError::UnknownCommand)
    }
}

/// A parsed `sync`/`check` only checks when the first argument is `check`
/// (never for `sync`), whatever follows; its source is the third argument
/// when there is one.
pub proof fn lemma_check_flag_follows_subcommand(a: Seq<Seq<char>>)
    ensures
        parse_spec(a) matches CommandV::Sync(src, c) ==> {
            &&& a.len() > 0
            &&& (c <==> a[0] == "check"@)
            &&& (a[0] == "sync"@ ==> !c)
            &&& (src matches Some(d) ==> a.len() == 3 && d == a[2])
            &&& (src is None ==> a.len() == 1)
        },
{
    reveal_strlit("sync");
    reveal_strlit("check");
    assert("sync"@ != "check"@) by {
        assert("sync"@.len() != "check"@.len());
    }
}

/// Parses the arguments that follow the program name.
pub fn parse_command(args: &Vec<String>) -> (r: Result<Command, CliError>)
    ensures
        match r {
            Ok(c) => c@ == parse_spec(strings_view(args@)),
            Err(e) => parse_spec(strings_view(args@)) == CommandV::Refused(e),
        },
{
    let ghost a = strings_view(args@);
    if args.len() == 0 {
        return Err(CliError::UnknownCommand);
    }
    let cmd = &args[0];
    assert(a[0] == cmd@);
    if *cmd == owned("init") {
        if args.len() == 1 {
            Ok(Command::Init { revision: None })
        } else if args.len() == 3 && args[1] == owned("--revision") {
            assert(a[1] == args[1]@ && a[2] == args[2]@);
            Ok(Command::Init { revision: Some(args[2].clone()) })
        } else {
            proof {
                if args.len() == 3 {
                    assert(a[1] == args[1]@);
                }
            }
            Err(CliError::BadArguments)
        }
    } else if *cmd == owned("update") {
        if args.len() == 1 {
            Ok(Command::Update { revision: None })
        } else if args.len() == 2 {
            assert(a[1] == args[1]@);
            Ok(Command::Update { revision: Some(args[1].clone()) })
        } else {
            Err(CliError::BadArguments)
        }
    } else if *cmd == owned("sync") || *cmd == owned("check") {
        let check = *cmd == owned("check");
        if args.len() == 1 {
            Ok(Command::Sync { source: None, check })
        } else if args.len() == 3 && args[1] == owned("--source") {
            assert(a[1] == args[1]@ && a[2] == args[2]@);
            Ok(Command::Sync { source: Some(args[2].clone()), check })
        } else {
            proof {
                if args.len() == 3 {
                    assert(a[1] == args[1]@);
                }
            }
            Err(CliError::BadArguments)
        }
    } else {
        Err(CliError::UnknownCommand)
    }
}

/// The usage text.
pub fn usage() -> (r: String)
    ensures
        r@ == "使い方:\n  agent-harness init [--revision <rev>]   対象リポジトリのルートで実行し、共有ハーネスを導入する(rev 省略時は main の先端)\n  agent-harness update [<rev>]            pin を進めて同期する(rev 省略時は main の先端)\n  agent-harness sync [--source <dir>]     pin(または --source のローカルソース)から展開・生成し直す\n  agent-harness check [--source <dir>]    生成物の検証のみ。乖離があれば一覧を出して exit 1"@,
{
    owned(
        "使い方:\n  agent-harness init [--revision <rev>]   対象リポジトリのルートで実行し、共有ハーネスを導入する(rev 省略時は main の先端)\n  agent-harness update [<rev>]            pin を進めて同期する(rev 省略時は main の先端)\n  agent-harness sync [--source <dir>]     pin(または --source のローカルソース)から展開・生成し直す\n  agent-harness check [--source <dir>]    生成物の検証のみ。乖離があれば一覧を出して exit 1",
    )
}

/// The leading run of non-whitespace characters of `t`.
pub open spec fn leading_word(t: Seq<char>) -> Seq<char>
    decreases t.len(),
{
    if t.len() == 0 || text::is_ws(t[0]) {
        Seq::empty()
    } else {
        seq![t[0]] + leading_word(t.drop_first())
    }
}

/// The first whitespace-separated word of `s`, as `split_whitespace().next()`.
pub open spec fn first_word(s: Seq<char>) -> Option<Seq<char>> {
    let t = text::trim_start(s);
    if t.len() == 0 {
        None
    } else {
        Some(leading_word(t))
    }
}

/// The leading word of `t` is a prefix of it without whitespace, followed by
/// whitespace or the end of `t`.
proof fn lemma_leading_word(t: Seq<char>)
    ensures
        ({
            let w = leading_word(t);
            &&& w.len() <= t.len()
            &&& t.subrange(0, w.len() as int) == w
            &&& forall|i: int| 0 <= i < w.len() ==> !text::is_ws(#[trigger] w[i])
            &&& w.len() < t.len() ==> text::is_ws(t[w.len() as int])
        }),
    decreases t.len(),
{
    if t.len() > 0 && !text::is_ws(t[0]) {
        let d = t.drop_first();
        lemma_leading_word(d);
        let w = leading_word(t);
        let wd = leading_word(d);
        assert(w == seq![t[0]] + wd);
        assert(t.subrange(0, w.len() as int) =~= seq![t[0]] + d.subrange(0, wd.len() as int));
        assert forall|i: int| 0 <= i < w.len() implies !text::is_ws(#[trigger] w[i]) by {
            if i > 0 {
                assert(w[i] == wd[i - 1]);
            }
        }
        if w.len() < t.len() {
            assert(t[w.len() as int] == d[wd.len() as int]);
        }
    } else {
        assert(t.subrange(0, 0) =~= Seq::<char>::empty());
    }
}

/// The first word of a text: nothing exactly when the text is all whitespace;
/// otherwise a non-empty run of non-whitespace characters that stands right
/// after the leading whitespace and ends at whitespace or at the end of the text.
pub proof fn lemma_first_word(s: Seq<char>)
    ensures
        first_word(s) is None <==> text::all_ws(s),
        first_word(s) matches Some(w) ==> {
            let m = s.len() - text::trim_start(s).len();
            &&& w.len() > 0
            &&& 0 <= m && m + w.len() <= s.len()
            &&& text::all_ws(s.subrange(0, m))
            &&& s.subrange(m, m + w.len()) == w
            &&& forall|i: int| 0 <= i < w.len() ==> !text::is_ws(#[trigger] w[i])
            &&& m + w.len() < s.len() ==> text::is_ws(s[m + w.len()])
        },
{
    let t = text::trim_start(s);
    text::lemma_trim_start_suffix(s);
    let m = s.len() - t.len();
    if t.len() == 0 {
        assert(s.subrange(0, m) =~= s);
    } else {
        assert(t[0] == s[m]);
        lemma_leading_word(t);
        let w = leading_word(t);
        assert(w.len() > 0) by {
            assert(leading_word(t) == seq![t[0]] + leading_word(t.drop_first()));
        }
        assert(s.subrange(m, m + w.len()) =~= t.subrange(0, w.len() as int));
        if m + w.len() < s.len() {
            assert(s[m + w.len()] == t[w.len() as int]);
        }
        if text::all_ws(s) {
            assert(text::is_ws(s[m]));
        }
    }
}

/// The revision of `main` in the output of `git ls-remote <url> refs/heads/main`:
/// its first word, or nothing when the remote has no such branch.
pub fn remote_main_revision(ls_remote_output: &str) -> (r: Option<String>)
    ensures
        match r {
            Some(w) => first_word(ls_remote_output@) == Some(w@),
            None => first_word(ls_remote_output@) is None,
        },
{
    let s = chars_of(ls_remote_output);
    let start = trim_start_at(&s, 0, s.len());
    assert(s@.subrange(0, s.len() as int) =~= s@);
    if start == s.len() {
        return None;
    }
    let ghost t = s@.subrange(start as int, s.len() as int);
    let mut word: Vec<char> = Vec::new();
    let mut i = start;
    while i < s.len() && !text::is_whitespace(s[i])
        invariant
            start <= i <= s.len(),
            t == s@.subrange(start as int, s.len() as int),
            word@ + leading_word(s@.subrange(i as int, s.len() as int)) == leading_word(t),
        decreases s.len() - i,
    {
        let ghost rest = s@.subrange(i as int, s.len() as int);
        assert(rest.drop_first() =~= s@.subrange(i + 1, s.len() as int));
        assert(word@.push(s[i as int]) + leading_word(rest.drop_first()) =~= word@ + (seq![rest[0]]
            + leading_word(rest.drop_first())));
        word.push(s[i]);
        i = i + 1;
    }
    assert(word@ + leading_word(s@.subrange(i as int, s.len() as int)) =~= word@);
    Some(string_of(word.as_slice()))
}

/// The arguments of `git ls-remote` that ask for the tip of `main`.
pub fn ls_remote_args(url: &str) -> (r: Vec<String>)
    ensures
        strings_view(r@) == seq!["ls-remote"@, url@, "refs/heads/main"@],
{
    let mut r: Vec<String> = Vec::new();
    r.push(owned("ls-remote"));
    r.push(owned(url));
    r.push(owned("refs/heads/main"));
    assert(strings_view(r@) =~= seq!["ls-remote"@, url@, "refs/heads/main"@]);
    r
}

/// The `git` invocations, in order, that fetch revision `rev` of `url` into an
/// empty directory: a new repository, the remote, a shallow fetch of the one
/// revision, and a checkout of it.
pub open spec fn fetch_steps_spec(url: Seq<char>, rev: Seq<char>) -> Seq<Seq<Seq<char>>> {
    seq![
        seq!["init"@, "--quiet"@],
        seq!["remote"@, "add"@, "origin"@, url],
        seq!["fetch"@, "--quiet"@, "--depth"@, "1"@, "origin"@, rev],
        seq!["checkout"@, "--quiet"@, "FETCH_HEAD"@],
    ]
}

/// The model of a list of argument lists.
pub open spec fn steps_view(steps: Seq<Vec<String>>) -> Seq<Seq<Seq<char>>> {
    Seq::new(steps.len(), |i: int| strings_view(steps[i]@))
}

fn args_of(parts: Vec<&str>) -> (r: Vec<String>)
    ensures
        r.len() == parts.len(),
        forall|i: int| 0 <= i < r.len() ==> #[trigger] r[i]@ == parts[i]@,
{
    let mut r: Vec<String> = Vec::new();
    let mut i: usize = 0;
    while i < parts.len()
        invariant
            i <= parts.len(),
            r.len() == i,
            forall|k: int| 0 <= k < i ==> #[trigger] r[k]@ == parts[k]@,
        decreases parts.len() - i,
    {
        r.push(owned(parts[i]));
        i = i + 1;
    }
    r
}

/// The `git` invocations that fetch revision `rev` of `url`.
pub fn fetch_steps(url: &str, rev: &str) -> (r: Vec<Vec<String>>)
    ensures
        steps_view(r@) == fetch_steps_spec(url@, rev@),
{
    let mut r: Vec<Vec<String>> = Vec::new();
    let s1 = args_of(vec!["init", "--quiet"]);
    let s2 = args_of(vec!["remote", "add", "origin", url]);
    let s3 = args_of(vec!["fetch", "--quiet", "--depth", "1", "origin", rev]);
    let s4 = args_of(vec!["checkout", "--quiet", "FETCH_HEAD"]);
    assert(strings_view(s1@) =~= seq!["init"@, "--quiet"@]);
    assert(strings_view(s2@) =~= seq!["remote"@, "add"@, "origin"@, url@]);
    assert(strings_view(s3@) =~= seq!["fetch"@, "--quiet"@, "--depth"@, "1"@, "origin"@, rev@]);
    assert(strings_view(s4@) =~= seq!["checkout"@, "--quiet"@, "FETCH_HEAD"@]);
    r.push(s1);
    r.push(s2);
    r.push(s3);
    r.push(s4);
    assert(steps_view(r@) =~= fetch_steps_spec(url@, rev@));
    r
}

} // verus!
