//! Environment files (`KEY=value` lines) and the bot credentials they hold.
use vstd::prelude::*;
use crate::text;
use crate::text::{chars_of, find_chars, push_all, push_range, string_of, trimmed};
use crate::json::{owned, strings_view};

verus! {

/// The key and value of one line: the line is trimmed; a line starting with
/// `#` is a comment; otherwise it splits at its first `=` into a trimmed key and
/// a trimmed value. A line without `=` holds nothing.
pub open spec fn parse_line(line: Seq<char>) -> Option<(Seq<char>, Seq<char>)> {
    let l = text::trim(line);
    if l.len() > 0 && l[0] == '#' {
        None
    } else {
        match text::find(l, seq!['=']) {
            Some(i) => Some((text::trim(l.subrange(0, i)), text::trim(l.subrange(i + 1, l.len() as int)))),
            None => None,
        }
    }
}

/// `m` after reading one line: a later key replaces an earlier one.
pub open spec fn apply_line(m: Map<Seq<char>, Seq<char>>, line: Seq<char>) -> Map<Seq<char>, Seq<char>> {
    match parse_line(line) {
        Some((k, v)) => m.insert(k, v),
        None => m,
    }
}

/// Reading `s` character by character: the variables of its completed lines,
/// and the line still open at its end.
pub open spec fn env_scan(s: Seq<char>) -> (Map<Seq<char>, Seq<char>>, Seq<char>)
    decreases s.len(),
{
    if s.len() == 0 {
        (Map::empty(), Seq::empty())
    } else {
        let (m, cur) = env_scan(s.drop_last());
        if s.last() == '\n' {
            (apply_line(m, cur), Seq::empty())
        } else {
            (m, cur.push(s.last()))
        }
    }
}

/// The variables of an environment file: each line (split at line breaks; a
/// carriage return before a break is whitespace and trims away) read in order.
pub open spec fn env_file_spec(s: Seq<char>) -> Map<Seq<char>, Seq<char>> {
    apply_line(env_scan(s).0, env_scan(s).1)
}

/// The map that a list of assignments builds, later ones winning.
pub open spec fn assignments_map(es: Seq<(String, String)>) -> Map<Seq<char>, Seq<char>>
    decreases es.len(),
{
    if es.len() == 0 {
        Map::empty()
    } else {
        assignments_map(es.drop_last()).insert(es.last().0@, es.last().1@)
    }
}

/// The variables read from an environment file.
pub struct EnvFile {
    assignments: Vec<(String, String)>,
}

impl EnvFile {
    pub closed spec fn view(&self) -> Map<Seq<char>, Seq<char>> {
        assignments_map(self.assignments@)
    }

    /// No variables (what a missing file holds).
    pub fn empty() -> (r: EnvFile)
        ensures
            r@ == Map::<Seq<char>, Seq<char>>::empty(),
    {
        EnvFile { assignments: Vec::new() }
    }

    /// Sets `key` to `value`, replacing an earlier value.
    pub fn insert(&mut self, key: String, value: String)
        ensures
            final(self)@ == old(self)@.insert(key@, value@),
    {
        self.assignments.push((key, value));
        assert(self.assignments@.drop_last() =~= old(self).assignments@);
    }

    /// `key` is set.
    pub fn contains_key(&self, key: &str) -> (b: bool)
        ensures
            b == self@.dom().contains(key@),
    {
        let k = owned(key);
        let mut i = self.assignments.len();
        assert(self.assignments@.take(i as int) =~= self.assignments@);
        while i > 0
            invariant
                i <= self.assignments.len(),
                k@ == key@,
                self@.dom().contains(key@) == assignments_map(self.assignments@.take(i as int)).dom().contains(key@),
            decreases i,
        {
            let ghost t = self.assignments@.take(i as int);
            assert(t.drop_last() =~= self.assignments@.take(i - 1));
            if self.assignments[i - 1].0 == k {
                return true;
            }
            i = i - 1;
        }
        false
    }

    /// The value of `key`, if it is set.
    pub fn get(&self, key: &str) -> (r: Option<String>)
        ensures
            match r {
                Some(v) => self@.dom().contains(key@) && self@[key@] == v@,
                None => !self@.dom().contains(key@),
            },
    {
        let k = owned(key);
        let mut i = self.assignments.len();
        assert(self.assignments@.take(i as int) =~= self.assignments@);
        while i > 0
            invariant
                i <= self.assignments.len(),
                k@ == key@,
                self@.dom().contains(key@) == assignments_map(self.assignments@.take(i as int)).dom().contains(key@),
                self@.dom().contains(key@) ==> self@[key@] == assignments_map(self.assignments@.take(i as int))[key@],
            decreases i,
        {
            let ghost t = self.assignments@.take(i as int);
            assert(t.drop_last() =~= self.assignments@.take(i - 1));
            if self.assignments[i - 1].0 == k {
                return Some(self.assignments[i - 1].1.clone());
            }
            i = i - 1;
        }
        None
    }
}

/// Applies one line to the variables read so far.
fn read_line_into(vars: &mut EnvFile, line: &Vec<char>)
    ensures
        final(vars)@ == apply_line(old(vars)@, line@),
{
    let l = trimmed(line);
    if l.len() > 0 && l[0] == '#' {
        return;
    }
    let mut eq: Vec<char> = Vec::new();
    eq.push('=');
    assert(eq@ =~= seq!['=']);
    match find_chars(&l, &eq) {
        Some(i) => {
            proof {
                text::lemma_find_from(l@, eq@, 0);
            }
            let mut key_part: Vec<char> = Vec::new();
            push_range(&mut key_part, &l, 0, i);
            let mut value_part: Vec<char> = Vec::new();
            push_range(&mut value_part, &l, i + 1, l.len());
            let k = trimmed(&key_part);
            let v = trimmed(&value_part);
            vars.insert(string_of(k.as_slice()), string_of(v.as_slice()));
        },
        None => {},
    }
}

/// The variables of an environment file's text.
pub fn parse_env_file(text: &str) -> (vars: EnvFile)
    ensures
        vars@ == env_file_spec(text@),
{
    let s = chars_of(text);
    let mut vars = EnvFile::empty();
    let mut cur: Vec<char> = Vec::new();
    let mut i: usize = 0;
    while i < s.len()
        invariant
            i <= s.len(),
            (vars@, cur@) == env_scan(s@.take(i as int)),
        decreases s.len() - i,
    {
        assert(s@.take(i + 1).drop_last() =~= s@.take(i as int));
        if s[i] == '\n' {
            read_line_into(&mut vars, &cur);
            cur = Vec::new();
            assert(cur@ =~= Seq::<char>::empty());
        } else {
            cur.push(s[i]);
        }
        i = i + 1;
    }
    assert(s@.take(s.len() as int) =~= s@);
    read_line_into(&mut vars, &cur);
    vars
}

/// The environment variables that hold the bot's credentials.
pub open spec fn cred_keys_v() -> Seq<Seq<char>> {
    seq!["BOT_GH_APP_ID"@, "BOT_GH_INSTALLATION_ID"@, "BOT_GH_APP_KEY"@]
}

/// The environment variables that hold the bot's credentials.
pub fn cred_keys() -> (v: Vec<String>)
    ensures
        strings_view(v@) == cred_keys_v(),
{
    let mut v: Vec<String> = Vec::new();
    v.push(owned("BOT_GH_APP_ID"));
    v.push(owned("BOT_GH_INSTALLATION_ID"));
    v.push(owned("BOT_GH_APP_KEY"));
    assert(strings_view(v@) =~= cred_keys_v());
    v
}

/// Every credential is set somewhere: in the process environment (`in_env`
/// names the variables set there), in the repository's `.env`, or in the
/// global file.
pub open spec fn credentials_available_spec(
    in_env: Seq<Seq<char>>,
    local: Map<Seq<char>, Seq<char>>,
    global: Map<Seq<char>, Seq<char>>,
) -> bool {
    forall|i: int|
        0 <= i < cred_keys_v().len() ==> {
            let k = #[trigger] cred_keys_v()[i];
            in_env.contains(k) || local.dom().contains(k) || global.dom().contains(k)
        }
}

/// The credentials are available exactly when each of the three keys
/// (`BOT_GH_APP_ID`, `BOT_GH_INSTALLATION_ID`, `BOT_GH_APP_KEY`) is set in
/// the environment, in the local file or in the global file: one key set
/// nowhere makes them unavailable.
pub proof fn lemma_credentials_need_every_key(
    in_env: Seq<Seq<char>>,
    local: Map<Seq<char>, Seq<char>>,
    global: Map<Seq<char>, Seq<char>>,
)
    ensures
        credentials_available_spec(in_env, local, global) <==> {
            &&& (in_env.contains("BOT_GH_APP_ID"@) || local.dom().contains("BOT_GH_APP_ID"@)
                || global.dom().contains("BOT_GH_APP_ID"@))
            &&& (in_env.contains("BOT_GH_INSTALLATION_ID"@) || local.dom().contains(
                "BOT_GH_INSTALLATION_ID"@,
            ) || global.dom().contains("BOT_GH_INSTALLATION_ID"@))
            &&& (in_env.contains("BOT_GH_APP_KEY"@) || local.dom().contains("BOT_GH_APP_KEY"@)
                || global.dom().contains("BOT_GH_APP_KEY"@))
        },
{
    let ks = cred_keys_v();
    assert(ks[0] == "BOT_GH_APP_ID"@);
    assert(ks[1] == "BOT_GH_INSTALLATION_ID"@);
    assert(ks[2] == "BOT_GH_APP_KEY"@);
}

fn names_contain(names: &Vec<String>, key: &String) -> (b: bool)
    ensures
        b == strings_view(names@).contains(key@),
{
    let ghost nv = strings_view(names@);
    let mut i: usize = 0;
    while i < names.len()
        invariant
            i <= names.len(),
            nv == strings_view(names@),
            forall|j: int| 0 <= j < i ==> nv[j] != key@,
        decreases names.len() - i,
    {
        if names[i] == *key {
            assert(nv[i as int] == key@);
            return true;
        }
        i = i + 1;
    }
    false
}

/// Whether the bot's credentials are all set; `in_env` names the process
/// environment variables that are set.
pub fn credentials_available(in_env: &Vec<String>, local: &EnvFile, global: &EnvFile) -> (b: bool)
    ensures
        b == credentials_available_spec(strings_view(in_env@), local@, global@),
{
    let keys = cred_keys();
    let mut i: usize = 0;
    while i < keys.len()
        invariant
            i <= keys.len(),
            strings_view(keys@) == cred_keys_v(),
            forall|j: int|
                0 <= j < i ==> {
                    let k = #[trigger] cred_keys_v()[j];
                    strings_view(in_env@).contains(k) || local@.dom().contains(k)
                        || global@.dom().contains(k)
                },
        decreases keys.len() - i,
    {
        let k = &keys[i];
        assert(cred_keys_v()[i as int] == k@);
        if !(names_contain(in_env, k) || local.contains_key(k.as_str()) || global.contains_key(k.as_str())) {
            return false;
        }
        i = i + 1;
    }
    true
}

/// The text of the global credentials file: one `KEY=value` line per credential.
pub open spec fn credentials_file_spec(app_id: Seq<char>, installation_id: Seq<char>, key_path: Seq<char>) -> Seq<char> {
    cred_keys_v()[0] + seq!['='] + app_id + seq!['\n'] + cred_keys_v()[1] + seq!['='] + installation_id
        + seq!['\n'] + cred_keys_v()[2] + seq!['='] + key_path + seq!['\n']
}

/// The text of the global credentials file for the answers given.
pub fn credentials_file_text(app_id: &str, installation_id: &str, key_path: &str) -> (out: String)
    ensures
        out@ == credentials_file_spec(app_id@, installation_id@, key_path@),
{
    let mut out: Vec<char> = Vec::new();
    push_all(&mut out, &chars_of("BOT_GH_APP_ID"));
    out.push('=');
    push_all(&mut out, &chars_of(app_id));
    out.push('\n');
    push_all(&mut out, &chars_of("BOT_GH_INSTALLATION_ID"));
    out.push('=');
    push_all(&mut out, &chars_of(installation_id));
    out.push('\n');
    push_all(&mut out, &chars_of("BOT_GH_APP_KEY"));
    out.push('=');
    push_all(&mut out, &chars_of(key_path));
    out.push('\n');
    assert(out@ =~= credentials_file_spec(app_id@, installation_id@, key_path@));
    string_of(out.as_slice())
}

/// The answer to a prompt, from the line typed: the trimmed line, or nothing
/// when it is blank (the prompt is then asked again).
pub fn prompt_answer(line: &str) -> (r: Option<String>)
    ensures
        match r {
            Some(v) => text::trim(line@).len() > 0 && v@ == text::trim(line@),
            None => text::trim(line@).len() == 0,
        },
{
    let t = trimmed(&chars_of(line));
    if t.len() > 0 {
        Some(string_of(t.as_slice()))
    } else {
        None
    }
}

/// The home directory: `HOME`, else `USERPROFILE`, else the current directory.
pub fn home_dir(home: Option<String>, user_profile: Option<String>) -> (r: String)
    ensures
        r@ == match home {
            Some(h) => h@,
            None => match user_profile {
                Some(u) => u@,
                None => "."@,
            },
        },
{
    match home {
        Some(h) => h,
        None => match user_profile {
            Some(u) => u,
            None => owned("."),
        },
    }
}

/// `base` is a bare drive such as `C:`: an ASCII letter and a colon.
pub open spec fn bare_drive(base: Seq<char>) -> bool {
    &&& base.len() == 2
    &&& base[1] == ':'
    &&& (('a' <= base[0] && base[0] <= 'z') || ('A' <= base[0] && base[0] <= 'Z'))
}

/// `rel` joined onto the directory `base` with the path separator `sep`
/// between them, as `Path::join` does for a relative path: none when `base`
/// is empty or already ends with a separator (`/`, or `sep` itself), nor,
/// with Windows' separator `\\`, after a bare drive such as `C:`.
pub open spec fn join_path(base: Seq<char>, rel: Seq<char>, sep: char) -> Seq<char> {
    if base.len() == 0 || base.last() == '/' || base.last() == sep || (sep == '\\' && bare_drive(base)) {
        base + rel
    } else {
        base + seq![sep] + rel
    }
}

/// The global credentials file under the home directory `home`, where `sep`
/// is the platform's path separator (`/` on Unix, `\\` on Windows).
pub fn global_env_file(home: &str, sep: char) -> (r: String)
    ensures
        r@ == join_path(home@, ".config/agent-harness/env"@, sep),
{
    let h = chars_of(home);
    let rel = chars_of(".config/agent-harness/env");
    let mut out: Vec<char> = Vec::new();
    push_all(&mut out, &h);
    let n = h.len();
    let drive = n == 2 && h[1] == ':' && (('a' <= h[0] && h[0] <= 'z') || ('A' <= h[0] && h[0] <= 'Z'));
    if n > 0 && h[n - 1] != '/' && h[n - 1] != sep && !(sep == '\\' && drive) {
        out.push(sep);
    }
    push_all(&mut out, &rel);
    assert(out@ =~= join_path(home@, ".config/agent-harness/env"@, sep));
    string_of(out.as_slice())
}


/// Characters without a line break extend the open line.
proof fn lemma_scan_extend(s: Seq<char>, line: Seq<char>)
    requires
        forall|i: int| 0 <= i < line.len() ==> line[i] != '\n',
    ensures
        env_scan(s + line) == (env_scan(s).0, env_scan(s).1 + line),
    decreases line.len(),
{
    if line.len() == 0 {
        assert(s + line =~= s);
        assert(env_scan(s).1 + line =~= env_scan(s).1);
    } else {
        let p = line.drop_last();
        lemma_scan_extend(s, p);
        assert((s + line).drop_last() =~= s + p);
        assert((s + line).last() == line.last());
        assert(env_scan(s).1 + p.push(line.last()) =~= (env_scan(s).1 + p).push(line.last()));
        assert(p.push(line.last()) =~= line);
    }
}

/// A whole line, after the previous one was closed, is read as one assignment.
proof fn lemma_scan_line(s: Seq<char>, line: Seq<char>)
    requires
        env_scan(s).1 == Seq::<char>::empty(),
        forall|i: int| 0 <= i < line.len() ==> line[i] != '\n',
    ensures
        env_scan(s + line + seq!['\n']) == (apply_line(env_scan(s).0, line), Seq::<char>::empty()),
{
    lemma_scan_extend(s, line);
    assert((s + line + seq!['\n']).drop_last() =~= s + line);
    assert(Seq::<char>::empty() + line =~= line);
}

/// A `KEY=value` line whose key is made of letters and underscores, and whose
/// value is trimmed, assigns exactly that value.
proof fn lemma_parse_assignment(k: Seq<char>, v: Seq<char>)
    requires
        k.len() > 0,
        forall|i: int| 0 <= i < k.len() ==> (k[i] == '_' || ('A' <= k[i] <= 'Z')),
        text::trim(v) == v,
    ensures
        parse_line(k + seq!['='] + v) == Some((k, v)),
{
    let l = k + seq!['='] + v;
    assert(!text::is_ws(l[0]));
    text::lemma_trim_of_trimmed(v);
    if v.len() > 0 {
        assert(l.last() == v.last());
    } else {
        assert(l.last() == '=');
    }
    text::lemma_trim_end_fixed(l);
    text::lemma_trim_start_fixed(l);
    assert(text::trim(l) == l);
    assert(l[0] != '#');
    let eq = seq!['='];
    assert(l.subrange(k.len() as int, k.len() + 1int) =~= eq);
    assert forall|j: int| 0 <= j < k.len() implies !text::occurs_at(l, eq, j) by {
        if text::occurs_at(l, eq, j) {
            assert(l.subrange(j, j + 1)[0] == eq[0]);
        }
    }
    text::lemma_find_is(l, eq, k.len() as int);
    assert(l.subrange(0, k.len() as int) =~= k);
    assert(l.subrange(k.len() + 1int, l.len() as int) =~= v);
    text::lemma_trim_end_fixed(k);
    text::lemma_trim_start_fixed(k);
}

/// What the global credentials file holds after the answers were saved: each
/// credential variable with the answer given for it, so that the credentials
/// count as available. Answers are read as trimmed lines, so they are trimmed
/// and hold no line break.
pub proof fn lemma_saved_credentials_read_back(app_id: Seq<char>, installation_id: Seq<char>, key_path: Seq<char>)
    requires
        text::trim(app_id) == app_id,
        text::trim(installation_id) == installation_id,
        text::trim(key_path) == key_path,
        forall|i: int| 0 <= i < app_id.len() ==> app_id[i] != '\n',
        forall|i: int| 0 <= i < installation_id.len() ==> installation_id[i] != '\n',
        forall|i: int| 0 <= i < key_path.len() ==> key_path[i] != '\n',
    ensures
        env_file_spec(credentials_file_spec(app_id, installation_id, key_path)) == Map::<Seq<char>, Seq<char>>::empty()
            .insert(cred_keys_v()[0], app_id)
            .insert(cred_keys_v()[1], installation_id)
            .insert(cred_keys_v()[2], key_path),
        credentials_available_spec(
            Seq::empty(),
            Map::empty(),
            env_file_spec(credentials_file_spec(app_id, installation_id, key_path)),
        ),
{
    reveal_strlit("BOT_GH_APP_ID");
    reveal_strlit("BOT_GH_INSTALLATION_ID");
    reveal_strlit("BOT_GH_APP_KEY");
    let k1 = cred_keys_v()[0];
    let k2 = cred_keys_v()[1];
    let k3 = cred_keys_v()[2];
    let eq = seq!['='];
    let nl = seq!['\n'];
    let l1 = k1 + eq + app_id;
    let l2 = k2 + eq + installation_id;
    let l3 = k3 + eq + key_path;
    assert forall|i: int| 0 <= i < l1.len() implies l1[i] != '\n' by {
        if i >= k1.len() + 1 {
            assert(l1[i] == app_id[i - k1.len() - 1]);
        }
    }
    assert forall|i: int| 0 <= i < l2.len() implies l2[i] != '\n' by {
        if i >= k2.len() + 1 {
            assert(l2[i] == installation_id[i - k2.len() - 1]);
        }
    }
    assert forall|i: int| 0 <= i < l3.len() implies l3[i] != '\n' by {
        if i >= k3.len() + 1 {
            assert(l3[i] == key_path[i - k3.len() - 1]);
        }
    }
    let e = Seq::<char>::empty();
    assert(env_scan(e) == (Map::<Seq<char>, Seq<char>>::empty(), e));
    lemma_scan_line(e, l1);
    let s1 = e + l1 + nl;
    lemma_scan_line(s1, l2);
    let s2 = s1 + l2 + nl;
    lemma_scan_line(s2, l3);
    let s3 = s2 + l3 + nl;
    assert(s3 =~= credentials_file_spec(app_id, installation_id, key_path));
    lemma_parse_assignment(k1, app_id);
    lemma_parse_assignment(k2, installation_id);
    lemma_parse_assignment(k3, key_path);
    assert(text::trim(e) == e);
    assert(text::find(e, eq) is None);
    assert(parse_line(e) is None);
    let m = Map::<Seq<char>, Seq<char>>::empty().insert(k1, app_id).insert(k2, installation_id).insert(k3, key_path);
    assert(env_file_spec(s3) == m);
    assert forall|i: int| 0 <= i < cred_keys_v().len() implies {
        let k = #[trigger] cred_keys_v()[i];
        Seq::<Seq<char>>::empty().contains(k) || Map::<Seq<char>, Seq<char>>::empty().dom().contains(k) || m.dom().contains(k)
    } by {}
}

} // verus!
