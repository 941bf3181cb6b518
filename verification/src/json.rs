//! A JSON document held as plain values, and the object operations that the
//! configuration merges use. Numbers are carried through untouched, as
//! `serde_json` parsed them.
use vstd::prelude::*;

verus! {

/// A JSON number, as `serde_json` holds it; the library never looks inside it.
#[verifier::external_type_specification]
#[verifier::external_body]
pub struct ExNumber(serde_json::Number);

/// A JSON value. An object is its list of entries, in order; where a key
/// repeats, its last entry is the one that counts, as in a parsed object.
#[derive(Debug, PartialEq)]
pub enum Json {
    Null,
    Bool(bool),
    Number(serde_json::Number),
    Str(String),
    Array(Vec<Json>),
    Object(Vec<(String, Json)>),
}

/// The mathematical model of a JSON value.
pub enum JsonV {
    Null,
    Bool(bool),
    Number(serde_json::Number),
    Str(Seq<char>),
    Array(Seq<JsonV>),
    Object(Seq<(Seq<char>, JsonV)>),
}

/// The model of a list of object entries.
pub type EntriesV = Seq<(Seq<char>, JsonV)>;

impl Json {
    pub open spec fn view(self) -> JsonV
        decreases self,
    {
        match self {
            Json::Null => JsonV::Null,
            Json::Bool(b) => JsonV::Bool(b),
            Json::Number(n) => JsonV::Number(n),
            Json::Str(s) => JsonV::Str(s@),
            Json::Array(items) => JsonV::Array(
                Seq::new(
                    items.len() as nat,
                    |i: int|
                        if 0 <= i < items.len() {
                            items[i].view()
                        } else {
                            JsonV::Null
                        },
                ),
            ),
            Json::Object(entries) => JsonV::Object(
                Seq::new(
                    entries.len() as nat,
                    |i: int|
                        if 0 <= i < entries.len() {
                            (entries[i].0@, entries[i].1.view())
                        } else {
                            (Seq::empty(), JsonV::Null)
                        },
                ),
            ),
        }
    }
}

/// The models of a list of values.
pub open spec fn items_view(items: Seq<Json>) -> Seq<JsonV> {
    Seq::new(items.len(), |i: int| items[i]@)
}

/// The model of a list of object entries.
pub open spec fn entries_view(entries: Seq<(String, Json)>) -> EntriesV {
    Seq::new(entries.len(), |i: int| (entries[i].0@, entries[i].1@))
}

/// The models of a list of strings.
pub open spec fn strings_view(strings: Seq<String>) -> Seq<Seq<char>> {
    Seq::new(strings.len(), |i: int| strings[i]@)
}

pub proof fn lemma_array_view(items: Vec<Json>)
    ensures
        Json::Array(items)@ == JsonV::Array(items_view(items@)),
{
    let j = Json::Array(items);
    match j@ {
        JsonV::Array(s) => {
            assert(s =~= items_view(items@));
        },
        _ => {},
    }
}

pub proof fn lemma_object_view(entries: Vec<(String, Json)>)
    ensures
        Json::Object(entries)@ == JsonV::Object(entries_view(entries@)),
{
    let j = Json::Object(entries);
    match j@ {
        JsonV::Object(s) => {
            assert(s =~= entries_view(entries@));
        },
        _ => {},
    }
}

/// The last index before `i` whose key is `k`.
pub open spec fn key_index_before(es: EntriesV, k: Seq<char>, i: int) -> Option<int>
    decreases i,
{
    if i <= 0 {
        None
    } else if es[i - 1].0 == k {
        Some(i - 1)
    } else {
        key_index_before(es, k, i - 1)
    }
}

/// The index of the last entry whose key is `k`: of entries that repeat a
/// key, the last one is what a parsed object keeps.
pub open spec fn key_index(es: EntriesV, k: Seq<char>) -> Option<int> {
    key_index_before(es, k, es.len() as int)
}

/// The value under key `k` (its last entry), as `Map::get` reads it once the
/// entries are collected into a `serde_json` map.
pub open spec fn obj_get(es: EntriesV, k: Seq<char>) -> Option<JsonV> {
    match key_index(es, k) {
        Some(i) => Some(es[i].1),
        None => None,
    }
}

/// The entries with the value under `k` set to `v`: in place when `k` is
/// present, as a new last entry otherwise.
pub open spec fn obj_set(es: EntriesV, k: Seq<char>, v: JsonV) -> EntriesV {
    match key_index(es, k) {
        Some(i) => es.update(i, (k, v)),
        None => es.push((k, v)),
    }
}

/// The entries of an object value, or none for any other value.
pub open spec fn object_entries(v: Option<JsonV>) -> EntriesV {
    match v {
        Some(JsonV::Object(es)) => es,
        _ => Seq::empty(),
    }
}

/// The items of an array value, or none for any other value.
pub open spec fn array_items(v: Option<JsonV>) -> Seq<JsonV> {
    match v {
        Some(JsonV::Array(a)) => a,
        _ => Seq::empty(),
    }
}

/// The string held by a value, if it is a string.
pub open spec fn as_str(v: Option<JsonV>) -> Option<Seq<char>> {
    match v {
        Some(JsonV::Str(s)) => Some(s),
        _ => None,
    }
}

pub proof fn lemma_key_index_before(es: EntriesV, k: Seq<char>, i: int)
    requires
        i <= es.len(),
    ensures
        match key_index_before(es, k, i) {
            Some(j) => 0 <= j < i && es[j].0 == k && forall|m: int| j < m < i ==> es[m].0 != k,
            None => forall|m: int| 0 <= m < i ==> es[m].0 != k,
        },
    decreases i,
{
    if i > 0 && es[i - 1].0 != k {
        lemma_key_index_before(es, k, i - 1);
    }
}

/// `key_index` finds the last entry with the key, and only such an entry.
pub proof fn lemma_key_index(es: EntriesV, k: Seq<char>)
    ensures
        match key_index(es, k) {
            Some(j) => 0 <= j < es.len() && es[j].0 == k && forall|m: int|
                j < m < es.len() ==> es[m].0 != k,
            None => forall|m: int| 0 <= m < es.len() ==> es[m].0 != k,
        },
{
    lemma_key_index_before(es, k, es.len() as int);
}

/// An entry with the key and none after it is what `key_index` finds.
pub proof fn lemma_key_index_is(es: EntriesV, k: Seq<char>, j: int)
    requires
        0 <= j < es.len(),
        es[j].0 == k,
        forall|m: int| j < m < es.len() ==> es[m].0 != k,
    ensures
        key_index(es, k) == Some(j),
{
    lemma_key_index(es, k);
}

/// After setting `k`, reading `k` gives the value set.
pub proof fn lemma_get_set_same(es: EntriesV, k: Seq<char>, v: JsonV)
    ensures
        obj_get(obj_set(es, k, v), k) == Some(v),
        key_index(obj_set(es, k, v), k) is Some,
{
    lemma_key_index(es, k);
    let r = obj_set(es, k, v);
    match key_index(es, k) {
        Some(i) => {
            lemma_key_index_is(r, k, i);
        },
        None => {
            lemma_key_index_is(r, k, es.len() as int);
        },
    }
}

/// Setting `k` leaves every other key's value alone.
pub proof fn lemma_get_set_other(es: EntriesV, k: Seq<char>, v: JsonV, k2: Seq<char>)
    requires
        k != k2,
    ensures
        obj_get(obj_set(es, k, v), k2) == obj_get(es, k2),
{
    lemma_key_index(es, k);
    lemma_key_index(es, k2);
    let r = obj_set(es, k, v);
    lemma_key_index(r, k2);
    match key_index(es, k2) {
        Some(j) => {
            lemma_key_index_is(r, k2, j);
        },
        None => {
            assert forall|m: int| 0 <= m < r.len() implies r[m].0 != k2 by {}
            match key_index(r, k2) {
                Some(j) => {
                    assert(r[j].0 == k2);
                },
                None => {},
            }
        },
    }
}

/// Setting a key to the value it already has changes nothing.
pub proof fn lemma_set_same_value(es: EntriesV, k: Seq<char>, v: JsonV)
    requires
        obj_get(es, k) == Some(v),
    ensures
        obj_set(es, k, v) == es,
{
    lemma_key_index(es, k);
    let i = key_index(es, k)->0;
    assert(es.update(i, (k, v)) =~= es);
}

/// The position of the last entry whose key is `key`.
pub fn key_position(entries: &Vec<(String, Json)>, key: &String) -> (r: Option<usize>)
    ensures
        match r {
            Some(i) => key_index(entries_view(entries@), key@) == Some(i as int),
            None => key_index(entries_view(entries@), key@) is None,
        },
{
    let ghost es = entries_view(entries@);
    let mut i: usize = entries.len();
    while i > 0
        invariant
            i <= entries.len(),
            es == entries_view(entries@),
            key_index(es, key@) == key_index_before(es, key@, i as int),
        decreases i,
    {
        if entries[i - 1].0 == *key {
            return Some(i - 1);
        }
        i = i - 1;
    }
    None
}

/// Takes the last entry whose key is `key` out of `entries`, with its position.
pub fn take_entry(entries: &mut Vec<(String, Json)>, key: &String) -> (r: Option<(usize, Json)>)
    ensures
        match r {
            Some((i, v)) => {
                &&& key_index(entries_view(old(entries)@), key@) == Some(i as int)
                &&& v@ == entries_view(old(entries)@)[i as int].1
                &&& final(entries)@ == old(entries)@.remove(i as int)
            },
            None => {
                &&& key_index(entries_view(old(entries)@), key@) is None
                &&& final(entries)@ == old(entries)@
            },
        },
{
    let pos = key_position(entries, key);
    proof {
        lemma_key_index(entries_view(entries@), key@);
    }
    match pos {
        Some(i) => {
            let (_k, v) = entries.remove(i);
            Some((i, v))
        },
        None => None,
    }
}

/// Puts `(key, v)` back where `take_entry` found it, or at the end when it found nothing.
pub fn put_entry(entries: &mut Vec<(String, Json)>, pos: Option<usize>, key: String, v: Json)
    requires
        match pos {
            Some(i) => i <= old(entries).len(),
            None => true,
        },
    ensures
        match pos {
            Some(i) => final(entries)@ == old(entries)@.insert(i as int, (key, v)),
            None => final(entries)@ == old(entries)@.push((key, v)),
        },
{
    match pos {
        Some(i) => entries.insert(i, (key, v)),
        None => entries.push((key, v)),
    }
}

/// Taking an entry out and putting `(k, v)` in its place is `obj_set`.
pub proof fn lemma_take_put(old_es: Seq<(String, Json)>, k: String, v: Json, pos: Option<usize>)
    requires
        match pos {
            Some(i) => key_index(entries_view(old_es), k@) == Some(i as int),
            None => key_index(entries_view(old_es), k@) is None,
        },
    ensures
        entries_view(
            match pos {
                Some(i) => old_es.remove(i as int).insert(i as int, (k, v)),
                None => old_es.push((k, v)),
            },
        ) == obj_set(entries_view(old_es), k@, v@),
{
    lemma_key_index(entries_view(old_es), k@);
    match pos {
        Some(i) => {
            assert(entries_view(old_es.remove(i as int).insert(i as int, (k, v))) =~= entries_view(
                old_es,
            ).update(i as int, (k@, v@)));
        },
        None => {
            assert(entries_view(old_es.push((k, v))) =~= entries_view(old_es).push((k@, v@)));
        },
    }
}

/// A `String` holding the characters of a literal.
pub fn owned(s: &str) -> (r: String)
    ensures
        r@ == s@,
{
    s.to_owned()
}


/// A parsed JSON value, as `serde_json` holds it.
#[verifier::external_type_specification]
#[verifier::external_body]
pub struct ExValue(serde_json::Value);

/// The text that `serde_json::to_string_pretty` writes for a document: keys
/// of an object in their map's order, two spaces of indentation per level.
pub uninterp spec fn json_pretty(v: JsonV) -> Seq<char>;

/// Builds the `serde_json::Value` that holds the same document, one variant for
/// one, through `serde_json`'s variants and its `Map`'s `FromIterator` (a later
/// entry with a key already present replaces it); nothing is claimed of the result.
#[verifier::external_body]
fn serde_value(j: &Json) -> serde_json::Value {
    match j {
        Json::Null => serde_json::Value::Null,
        Json::Bool(b) => serde_json::Value::Bool(*b),
        Json::Number(n) => serde_json::Value::Number(n.clone()),
        Json::Str(s) => serde_json::Value::String(s.clone()),
        Json::Array(items) => serde_json::Value::Array(items.iter().map(serde_value).collect()),
        Json::Object(es) => serde_json::Value::Object(es.iter().map(|(k, v)| (k.clone(), serde_value(v))).collect()),
    }
}

/// The text of a document through `serde_json::to_string_pretty`; the contract
/// names its result `json_pretty` of the document's model. Writing a value made
/// of strings, numbers, booleans and containers does not fail; the empty text
/// stands in for a failure that cannot happen.
#[verifier::external_body]
pub(crate) fn pretty_text(j: &Json) -> (s: String)
    ensures
        s@ == json_pretty(j@),
{
    serde_json::to_string_pretty(&serde_value(j)).unwrap_or_default()
}

/// `s` followed by a line break.
pub fn with_newline(s: String) -> (r: String)
    ensures
        r@ == s@ + seq!['\n'],
{
    let mut v = crate::text::chars_of(s.as_str());
    v.push('\n');
    crate::text::string_of(v.as_slice())
}

/// The document that `serde_json::from_str::<serde_json::Value>` reads from a
/// text, or nothing when it refuses the text.
pub uninterp spec fn json_parse(text: Seq<char>) -> Option<JsonV>;

/// Builds the library's `Json` that holds the same document as a
/// `serde_json::Value`, one variant for one (an object's entries in the map's
/// order); nothing is claimed of the result.
#[verifier::external_body]
fn json_of_value(v: serde_json::Value) -> Json {
    match v {
        serde_json::Value::Null => Json::Null,
        serde_json::Value::Bool(b) => Json::Bool(b),
        serde_json::Value::Number(n) => Json::Number(n),
        serde_json::Value::String(s) => Json::Str(s),
        serde_json::Value::Array(items) => Json::Array(items.into_iter().map(json_of_value).collect()),
        serde_json::Value::Object(map) => Json::Object(map.into_iter().map(|(k, v)| (k, json_of_value(v))).collect()),
    }
}

/// Parses a text through `serde_json::from_str::<serde_json::Value>`; the
/// contract names the document `json_parse` of the text, and says that the
/// parse fails exactly when that name gives nothing. The error is handed on
/// as `serde_json` words it; nothing is claimed of that message.
#[verifier::external_body]
pub(crate) fn parse_json(text: &str) -> (r: Result<Json, String>)
    ensures
        match r {
            Ok(j) => json_parse(text@) == Some(j@),
            Err(_) => json_parse(text@) is None,
        },
{
    match serde_json::from_str::<serde_json::Value>(text) {
        Ok(v) => Ok(json_of_value(v)),
        Err(e) => Err(e.to_string()),
    }
}

} // verus!
