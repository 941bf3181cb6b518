//! The pin (`.harness-version`): the repository of the shared harness and the
//! revision that the project uses.
use vstd::prelude::*;
use crate::json::{
    Json,
    JsonV,
    EntriesV,
    owned,
    key_position,
    object_entries,
    obj_get,
    as_str,
    entries_view,
    lemma_object_view,
    lemma_key_index,
    lemma_key_index_is,
    json_pretty,
    json_parse,
    parse_json,
    pretty_text,
    with_newline,
};

verus! {

/// A pinned revision of the shared harness.
#[derive(Debug, PartialEq)]
pub struct Pin {
    pub repository: String,
    pub revision: String,
}

/// A pin document that lacks a field.
#[derive(Debug, PartialEq, Clone, Copy)]
pub enum PinError {
    /// `repository` is missing or not a string.
    MissingRepository,
    /// `revision` is missing or not a string.
    MissingRevision,
}

/// The string field `key` of a document (nothing when the document is not an
/// object, or the field is missing or not a string).
pub open spec fn string_field(doc: JsonV, key: Seq<char>) -> Option<Seq<char>> {
    as_str(obj_get(object_entries(Some(doc)), key))
}

/// What reading a pin document gives: its repository and revision, or which
/// of them is missing (the repository is looked at first).
pub open spec fn pin_spec(doc: JsonV) -> Result<(Seq<char>, Seq<char>), PinError> {
    match string_field(doc, "repository"@) {
        None => Err(PinError::MissingRepository),
        Some(repo) => match string_field(doc, "revision"@) {
            None => Err(PinError::MissingRevision),
            Some(rev) => Ok((repo, rev)),
        },
    }
}

fn string_field_of(doc: &Json, key: &str) -> (r: Option<String>)
    ensures
        match r {
            Some(s) => string_field(doc@, key@) == Some(s@),
            None => string_field(doc@, key@) is None,
        },
{
    match doc {
        Json::Object(es) => {
            proof {
                lemma_object_view(*es);
                lemma_key_index(entries_view(es@), key@);
            }
            let k = owned(key);
            match key_position(es, &k) {
                Some(i) => match &es[i].1 {
                    Json::Str(s) => Some(s.clone()),
                    _ => None,
                },
                None => None,
            }
        },
        _ => None,
    }
}

/// Reads a parsed pin document.
pub fn pin_from_json(doc: &Json) -> (r: Result<Pin, PinError>)
    ensures
        match r {
            Ok(p) => pin_spec(doc@) == Ok::<(Seq<char>, Seq<char>), PinError>((p.repository@, p.revision@)),
            Err(e) => pin_spec(doc@) == Err::<(Seq<char>, Seq<char>), PinError>(e),
        },
{
    let repository = match string_field_of(doc, "repository") {
        Some(s) => s,
        None => return Err(PinError::MissingRepository),
    };
    let revision = match string_field_of(doc, "revision") {
        Some(s) => s,
        None => return Err(PinError::MissingRevision),
    };
    Ok(Pin { repository, revision })
}

/// The model of the pin document for a repository and revision.
pub open spec fn pin_doc(repository: Seq<char>, revision: Seq<char>) -> JsonV {
    JsonV::Object(seq![("repository"@, JsonV::Str(repository)), ("revision"@, JsonV::Str(revision))])
}

/// The pin document for a repository and revision.
pub fn pin_json(repository: &str, revision: &str) -> (doc: Json)
    ensures
        doc@ == pin_doc(repository@, revision@),
{
    let mut es: Vec<(String, Json)> = Vec::new();
    es.push((owned("repository"), Json::Str(owned(repository))));
    es.push((owned("revision"), Json::Str(owned(revision))));
    proof {
        lemma_object_view(es);
        assert(entries_view(es@) =~= seq![
            ("repository"@, JsonV::Str(repository@)),
            ("revision"@, JsonV::Str(revision@)),
        ]);
    }
    Json::Object(es)
}

/// Reading the pin that was written gives back its repository and revision.
pub proof fn lemma_pin_read_after_write(repository: Seq<char>, revision: Seq<char>)
    ensures
        pin_spec(pin_doc(repository, revision)) == Ok::<(Seq<char>, Seq<char>), PinError>((repository, revision)),
{
    reveal_strlit("repository");
    reveal_strlit("revision");
    let es: EntriesV = seq![("repository"@, JsonV::Str(repository)), ("revision"@, JsonV::Str(revision))];
    assert("repository"@ != "revision"@) by {
        assert("repository"@.len() != "revision"@.len());
    }
    lemma_key_index_is(es, "repository"@, 0);
    lemma_key_index_is(es, "revision"@, 1);
}


/// The text of the pin file: the pin document as `serde_json` writes it, then a line break.
pub fn pin_text(repository: &str, revision: &str) -> (s: String)
    ensures
        s@ == json_pretty(pin_doc(repository@, revision@)) + seq!['\n'],
{
    let doc = pin_json(repository, revision);
    with_newline(pretty_text(&doc))
}

/// Why the text of a pin file gives no pin.
#[derive(Debug, PartialEq)]
pub enum PinReadError {
    /// The text is not JSON; `serde_json`'s own words on it.
    BrokenJson(String),
    /// The document lacks a field.
    Incomplete(PinError),
}

/// Reads the text of a pin file: the error for broken JSON comes exactly when
/// the text does not parse; otherwise the result is what the parsed document
/// gives (`pin_spec`).
pub fn pin_from_text(text: &str) -> (r: Result<Pin, PinReadError>)
    ensures
        match r {
            Ok(p) => json_parse(text@) matches Some(d) && pin_spec(d) == Ok::<
                (Seq<char>, Seq<char>),
                PinError,
            >((p.repository@, p.revision@)),
            Err(PinReadError::BrokenJson(_)) => json_parse(text@) is None,
            Err(PinReadError::Incomplete(e)) => json_parse(text@) matches Some(d) && pin_spec(d)
                == Err::<(Seq<char>, Seq<char>), PinError>(e),
        },
{
    match parse_json(text) {
        Err(msg) => Err(PinReadError::BrokenJson(msg)),
        Ok(doc) => match pin_from_json(&doc) {
            Ok(p) => Ok(p),
            Err(e) => Err(PinReadError::Incomplete(e)),
        },
    }
}

/// Where the written pin text reads back as the pin document it was printed
/// from, reading it gives back the repository and revision that were written.
pub proof fn lemma_pin_text_read_back(repository: Seq<char>, revision: Seq<char>)
    requires
        json_parse(json_pretty(pin_doc(repository, revision)) + seq!['\n']) == Some(
            pin_doc(repository, revision),
        ),
    ensures
        json_parse(json_pretty(pin_doc(repository, revision)) + seq!['\n']) matches Some(d)
            && pin_spec(d) == Ok::<(Seq<char>, Seq<char>), PinError>((repository, revision)),
{
    lemma_pin_read_after_write(repository, revision);
}

} // verus!
