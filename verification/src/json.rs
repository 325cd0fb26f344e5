//! JSON as far as reference data needs it: what a parsed document holds for
//! this library, and the framing of JSON arrays.
//!
//! Parsing and the quoting of strings are serde_json's; their results are
//! named here and not described.

use vstd::prelude::*;
use vstd::string::{StringExecFns, StringSliceAdditionalSpecFns};
use vstd::utf8::encode_utf8;
use crate::text::{lemma_encode_concat, option_bytes};

verus! {

/// serde_json's error: why a text is not JSON.
#[verifier::external_type_specification]
#[verifier::external_body]
pub struct ExJsonError(serde_json::Error);

/// One element of a JSON array, as far as it is read: the string under the
/// key that was asked for, if there is one, and the element as compact JSON.
#[derive(Debug)]
pub struct Reference {
    pub id: Option<String>,
    pub json: String,
}

/// A parsed JSON document: an array with its elements, or another value as
/// compact JSON.
#[derive(Debug)]
pub enum Document {
    Array(Vec<Reference>),
    Other(String),
}

/// An element as the contracts see it.
pub struct ReferenceView {
    pub id: Option<Seq<u8>>,
    pub json: Seq<u8>,
}

/// A document as the contracts see it.
pub enum DocumentView {
    Array(Seq<ReferenceView>),
    Other(Seq<u8>),
}

impl View for Reference {
    type V = ReferenceView;

    open spec fn view(&self) -> ReferenceView {
        ReferenceView { id: option_bytes(self.id), json: encode_utf8(self.json@) }
    }
}

/// The views of a sequence of elements.
pub open spec fn reference_views(refs: Seq<Reference>) -> Seq<ReferenceView> {
    refs.map_values(|r: Reference| r@)
}

impl View for Document {
    type V = DocumentView;

    open spec fn view(&self) -> DocumentView {
        match self {
            Document::Array(refs) => DocumentView::Array(reference_views(refs@)),
            Document::Other(text) => DocumentView::Other(encode_utf8(text@)),
        }
    }
}

/// The key under which a reference holds its citation key.
pub open spec fn id_key() -> Seq<u8> {
    encode_utf8("id"@)
}

/// What serde_json makes of the text `json`, read with the key `key`: `None`
/// where it is not JSON.
pub uninterp spec fn parsed_document(json: Seq<u8>, key: Seq<u8>) -> Option<DocumentView>;

/// The JSON string literal that serde_json writes for the text `s`.
pub uninterp spec fn quoted(s: Seq<u8>) -> Seq<u8>;

/// Parses `json` with `serde_json::from_str` into a `serde_json::Value` and
/// converts the value: an array gives its elements, each with the string
/// that `Value::get` and `Value::as_str` find under `key` and with the
/// compact JSON that its `to_string` writes; any other value gives its
/// compact JSON. The contract only names the result: the same text and key
/// give the same document, and an error exactly where the text is not JSON.
#[verifier::external_body]
pub(crate) fn parse_document(json: &str, key: &str) -> (r: Result<Document, serde_json::Error>)
    ensures
        match r {
            Ok(document) => parsed_document(json.spec_bytes(), key.spec_bytes()) == Some(
                document@,
            ),
            Err(_) => parsed_document(json.spec_bytes(), key.spec_bytes()) is None,
        },
{
    match serde_json::from_str::<serde_json::Value>(json)? {
        serde_json::Value::Array(items) => Ok(
            Document::Array(
                items.iter().map(
                    |v| Reference {
                        id: v.get(key).and_then(|id| id.as_str()).map(|id| id.to_owned()),
                        json: v.to_string(),
                    },
                ).collect(),
            ),
        ),
        other => Ok(Document::Other(other.to_string())),
    }
}

/// The message of a serde_json error, as its `Display` writes it. Nothing is
/// claimed of the text.
#[verifier::external_body]
pub(crate) fn error_text(error: &serde_json::Error) -> (r: String) {
    error.to_string()
}

/// The JSON string literal for `s`: `to_string` of `serde_json::Value::String`,
/// which puts the text in double quotes and escapes what JSON asks to be
/// escaped. The contract only names the result.
#[verifier::external_body]
pub(crate) fn quote(s: &str) -> (r: String)
    ensures
        encode_utf8(r@) == quoted(s.spec_bytes()),
{
    serde_json::Value::String(s.to_owned()).to_string()
}

/// The parts written one after the other with `sep` between them.
pub open spec fn joined(parts: Seq<Seq<u8>>, sep: Seq<u8>) -> Seq<u8>
    decreases parts.len(),
{
    if parts.len() == 0 {
        Seq::empty()
    } else if parts.len() == 1 {
        parts[0]
    } else {
        joined(parts.drop_last(), sep) + sep + parts.last()
    }
}

/// The JSON array whose elements are the given JSON texts, in compact form.
pub open spec fn array_of(parts: Seq<Seq<u8>>) -> Seq<u8> {
    encode_utf8("["@) + joined(parts, encode_utf8(","@)) + encode_utf8("]"@)
}

/// Appends `s` to `out`.
pub fn push_text(out: &mut String, s: &str)
    ensures
        encode_utf8(final(out)@) == encode_utf8(old(out)@) + s.spec_bytes(),
{
    proof {
        lemma_encode_concat(out@, s@);
    }
    out.append(s);
}

/// The bytes of the strings.
pub open spec fn texts(parts: Seq<String>) -> Seq<Seq<u8>> {
    parts.map_values(|s: String| encode_utf8(s@))
}

/// Writes the JSON array whose elements are the given JSON texts.
pub fn write_array(parts: &Vec<String>) -> (r: String)
    ensures
        encode_utf8(r@) == array_of(texts(parts@)),
{
    let ghost all = texts(parts@);
    let mut out: String = "[".to_owned();
    let mut i: usize = 0;
    proof {
        assert(all.take(0) =~= Seq::<Seq<u8>>::empty());
        assert(encode_utf8(out@) + joined(all.take(0), encode_utf8(","@)) =~= encode_utf8(out@));
    }
    while i < parts.len()
        invariant
            i <= parts.len(),
            all == texts(parts@),
            encode_utf8(out@) == encode_utf8("["@) + joined(all.take(i as int), encode_utf8(","@)),
        decreases parts.len() - i,
    {
        proof {
            assert(all.take(i + 1).drop_last() =~= all.take(i as int));
            assert(all.take(i + 1).last() == encode_utf8(parts@[i as int]@));
            if i == 0 {
                assert(joined(all.take(0), encode_utf8(","@)) =~= Seq::<u8>::empty());
                assert(all.take(1)[0] == encode_utf8(parts@[0]@));
            }
        }
        if i > 0 {
            push_text(&mut out, ",");
        }
        push_text(&mut out, parts[i].as_str());
        proof {
            let sep = encode_utf8(","@);
            let part = encode_utf8(parts@[i as int]@);
            if i > 0 {
                assert(encode_utf8("["@) + joined(all.take(i as int), sep) + sep + part
                    =~= encode_utf8("["@) + (joined(all.take(i as int), sep) + sep + part));
            } else {
                assert(encode_utf8("["@) + Seq::<u8>::empty() + part =~= encode_utf8("["@) + part);
            }
        }
        i = i + 1;
    }
    proof {
        assert(all.take(i as int) =~= all);
    }
    push_text(&mut out, "]");
    out
}

} // verus!
