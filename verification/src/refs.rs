//! Reference data: a JSON array of references, or one JSON value per line.

use vstd::prelude::*;
use vstd::string::{StringExecFns, StringSliceAdditionalSpecFns};
use vstd::utf8::{encode_utf8, valid_utf8};
use crate::json::{
    array_of, error_text, id_key, parse_document, parsed_document, reference_views, texts, write_array,
    Document, DocumentView, Reference, ReferenceView,
};
use crate::scan::OPEN_BRACKET;
use crate::text::{
    decimal, decimal_digits, is_char_range, lemma_str_bytes, line_ranges, lines_of, substring,
    trim, trim_range,
};

verus! {

/// Errors that can occur when reference data is read.
#[derive(Debug)]
pub enum RefsError {
    /// The text is not JSON.
    JsonError(serde_json::Error),
    /// A line of line-delimited data is not JSON. Lines count from 1.
    JsonlError { line: usize, message: String },
    /// The text is JSON, but not an array.
    NotAnArray,
}

impl RefsError {
    /// The error as a line of text: for text that is not JSON, `Invalid
    /// JSON: ` and what the parser said.
    pub fn message(&self) -> (r: String)
        ensures
            match self {
                RefsError::JsonError(_) => "Invalid JSON: "@.is_prefix_of(r@),
                RefsError::JsonlError { line, message } => r@ == "Invalid JSONL at line "@
                    + decimal_digits(*line as nat) + ": "@ + message@,
                RefsError::NotAnArray => r@ == "References must be a JSON array"@,
            },
    {
        match self {
            RefsError::JsonError(e) => {
                let mut out: String = "Invalid JSON: ".to_owned();
                let detail: String = error_text(e);
                out.append(detail.as_str());
                assert(out@.subrange(0, "Invalid JSON: "@.len() as int) =~= "Invalid JSON: "@);
                out
            },
            RefsError::JsonlError { line, message } => {
                let mut out: String = "Invalid JSONL at line ".to_owned();
                let number: String = decimal(*line);
                out.append(number.as_str());
                out.append(": ");
                out.append(message.as_str());
                out
            },
            RefsError::NotAnArray => "References must be a JSON array".to_owned(),
        }
    }
}

/// The JSON texts of the elements.
pub open spec fn element_texts(refs: Seq<ReferenceView>) -> Seq<Seq<u8>> {
    refs.map_values(|r: ReferenceView| r.json)
}

/// The document as compact JSON.
pub open spec fn compact(document: DocumentView) -> Seq<u8> {
    match document {
        DocumentView::Array(refs) => array_of(element_texts(refs)),
        DocumentView::Other(text) => text,
    }
}

/// Whether reference data is acceptable.
pub enum Validity {
    Valid,
    NotJson,
    NotArray,
}

/// Whether a parsed text is acceptable as reference data: it must be a JSON
/// array.
pub open spec fn validity(document: Option<DocumentView>) -> Validity {
    match document {
        None => Validity::NotJson,
        Some(DocumentView::Other(_)) => Validity::NotArray,
        Some(DocumentView::Array(_)) => Validity::Valid,
    }
}

/// Whether `r` says what `validity` says.
pub open spec fn reports(r: Result<(), RefsError>, v: Validity) -> bool {
    match v {
        Validity::Valid => r is Ok,
        Validity::NotJson => r matches Err(RefsError::JsonError(_)),
        Validity::NotArray => r matches Err(RefsError::NotAnArray),
    }
}

/// Whether what parsing gave is acceptable as reference data.
pub fn validate_parsed(document: Result<Document, serde_json::Error>) -> (r: Result<(), RefsError>)
    ensures
        reports(
            r,
            validity(
                match document {
                    Ok(d) => Some(d@),
                    Err(_) => None,
                },
            ),
        ),
{
    match document {
        Err(e) => Err(RefsError::JsonError(e)),
        Ok(Document::Other(_)) => Err(RefsError::NotAnArray),
        Ok(Document::Array(_)) => Ok(()),
    }
}

/// Validates that the given JSON string contains valid CSL-JSON references.
pub fn validate_refs(json: &str) -> (r: Result<(), RefsError>)
    ensures
        reports(r, validity(parsed_document(json.spec_bytes(), id_key()))),
{
    validate_parsed(parse_document(json, "id"))
}

/// Writes the document as compact JSON.
pub fn write_compact(document: &Document) -> (r: String)
    ensures
        encode_utf8(r@) == compact(document@),
{
    match document {
        Document::Other(text) => text.clone(),
        Document::Array(refs) => {
            let ghost views = reference_views(refs@);
            let mut parts: Vec<String> = Vec::new();
            let mut i: usize = 0;
            while i < refs.len()
                invariant
                    i <= refs.len(),
                    views == reference_views(refs@),
                    texts(parts@) == element_texts(views.take(i as int)),
                decreases refs.len() - i,
            {
                let part: String = refs[i].json.clone();
                proof {
                    assert(views[i as int] == refs@[i as int]@);
                    let before = texts(parts@);
                    assert(texts(parts@.push(part)) =~= before.push(encode_utf8(part@)));
                    assert(element_texts(views.take(i + 1)) =~= element_texts(
                        views.take(i as int),
                    ).push(views[i as int].json));
                }
                parts.push(part);
                i = i + 1;
            }
            proof {
                assert(views.take(i as int) =~= views);
            }
            write_array(&parts)
        },
    }
}

/// What reading line-delimited data gives from the line of index `from` on,
/// where `done` holds the compact JSON of the lines before it: the index of
/// the first line that is not blank and not JSON, or the compact JSON of all
/// lines that are not blank.
pub open spec fn lines_read(lines: Seq<Seq<u8>>, from: int, done: Seq<Seq<u8>>) -> Result<
    Seq<Seq<u8>>,
    int,
>
    decreases lines.len() - from,
{
    if from < 0 || from >= lines.len() {
        Ok(done)
    } else if trim(lines[from]).len() == 0 {
        lines_read(lines, from + 1, done)
    } else {
        match parsed_document(trim(lines[from]), id_key()) {
            None => Err(from),
            Some(document) => lines_read(lines, from + 1, done.push(compact(document))),
        }
    }
}

/// What normalising reference data gives.
pub enum Normal {
    /// The data as one compact JSON array.
    Array(Seq<u8>),
    /// The data begins with `[` and is not JSON.
    NotJson,
    /// The data begins with `[` and is JSON, but not an array.
    NotArray,
    /// The line of this number, counted from 1, is not JSON.
    BadLine(int),
}

/// The normal form of reference data. Blank data is the empty array. Data
/// that, trimmed, begins with `[` must be a JSON array and is written
/// compactly. Other data is read line by line: every line that is not blank
/// must be JSON, and the values of the lines form the array.
pub open spec fn normal_form(content: Seq<u8>) -> Normal {
    let t = trim(content);
    if t.len() == 0 {
        Normal::Array(array_of(Seq::empty()))
    } else if t[0] == OPEN_BRACKET {
        match parsed_document(t, id_key()) {
            None => Normal::NotJson,
            Some(DocumentView::Other(_)) => Normal::NotArray,
            Some(DocumentView::Array(refs)) => Normal::Array(array_of(element_texts(refs))),
        }
    } else {
        match lines_read(lines_of(content), 0, Seq::empty()) {
            Ok(parts) => Normal::Array(array_of(parts)),
            Err(k) => Normal::BadLine(k + 1),
        }
    }
}

/// Whether `r` is the normal form `n`.
pub open spec fn normalized(r: Result<String, RefsError>, n: Normal) -> bool {
    match n {
        Normal::Array(json) => r matches Ok(text) && encode_utf8(text@) == json,
        Normal::NotJson => r matches Err(RefsError::JsonError(_)),
        Normal::NotArray => r matches Err(RefsError::NotAnArray),
        Normal::BadLine(number) => r matches Err(RefsError::JsonlError { line, message: _ })
            && line == number,
    }
}

/// Normalizes reference content to a JSON array.
///
/// Supports two input formats: a JSON array, and one JSON value per line.
pub fn normalize_refs(content: &str) -> (r: Result<String, RefsError>)
    ensures
        normalized(r, normal_form(content.spec_bytes())),
{
    let bytes: &[u8] = content.as_bytes();
    proof {
        lemma_str_bytes(content@);
        assert(bytes@.subrange(0, bytes@.len() as int) =~= bytes@);
    }
    let (a, b) = trim_range(bytes, 0, bytes.len());
    if a == b {
        let none: Vec<String> = Vec::new();
        proof {
            assert(texts(none@) =~= Seq::<Seq<u8>>::empty());
        }
        return Ok(write_array(&none));
    }
    let ghost t = bytes@.subrange(a as int, b as int);
    assert(t[0] == bytes@[a as int]);
    if bytes[a] == OPEN_BRACKET {
        let trimmed: &str = substring(content, a, b);
        return match parse_document(trimmed, "id") {
            Err(e) => Err(RefsError::JsonError(e)),
            Ok(Document::Other(_)) => Err(RefsError::NotAnArray),
            Ok(document) => Ok(write_compact(&document)),
        };
    }
    let ranges: Vec<(usize, usize)> = line_ranges(bytes);
    let ghost lines = lines_of(bytes@);
    let mut parts: Vec<String> = Vec::new();
    let mut i: usize = 0;
    proof {
        assert(texts(parts@) =~= Seq::<Seq<u8>>::empty());
    }
    while i < ranges.len()
        invariant
            i <= ranges.len(),
            bytes@ == content.spec_bytes(),
            valid_utf8(bytes@),
            lines == lines_of(bytes@),
            ranges@.len() == lines.len(),
            forall|k: int|
                0 <= k < ranges@.len() ==> {
                    &&& is_char_range(bytes@, (#[trigger] ranges@[k]).0 as int, ranges@[k].1 as int)
                    &&& bytes@.subrange(ranges@[k].0 as int, ranges@[k].1 as int) == lines[k]
                },
            trim(bytes@).len() > 0,
            trim(bytes@)[0] != OPEN_BRACKET,
            lines_read(lines, i as int, texts(parts@)) == lines_read(lines, 0, Seq::empty()),
        decreases ranges.len() - i,
    {
        let (la, lb) = trim_range(bytes, ranges[i].0, ranges[i].1);
        if la < lb {
            let line: &str = substring(content, la, lb);
            match parse_document(line, "id") {
                Err(e) => {
                    return Err(RefsError::JsonlError { line: i + 1, message: error_text(&e) });
                },
                Ok(document) => {
                    let part: String = write_compact(&document);
                    proof {
                        let before = texts(parts@);
                        assert(texts(parts@.push(part)) =~= before.push(compact(document@)));
                    }
                    parts.push(part);
                },
            }
        }
        i = i + 1;
    }
    Ok(write_array(&parts))
}

} // verus!
