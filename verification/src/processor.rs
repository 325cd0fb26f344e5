//! Formatted citations: what a citation style made of a citation or cluster.

use vstd::prelude::*;
use vstd::string::{StringExecFns, StringSliceAdditionalSpecFns};
use vstd::utf8::encode_utf8;
use crate::cluster::{
    cluster_views, item_of, item_views, CitationCluster, CitationItem, ClusterView, ItemView,
};
use crate::json::{
    array_of, error_text, id_key, parse_document, parsed_document, push_text, quote, quoted,
    reference_views, texts, write_array, Document, DocumentView, Reference, ReferenceView,
};
use crate::markdown::{citation_views, Citation, CitationView};
use crate::text::{
    lemma_str_bytes, line_ranges, lines_of, option_bytes, str_eq, substring,
};

verus! {

/// A citation that has been formatted by a citation style.
#[derive(Debug, PartialEq)]
pub struct ProcessedCitation {
    /// The span in the original text where this citation was found
    pub original_span: (usize, usize),
    /// The formatted citation text (e.g., "(Doe, 2021)")
    pub formatted: String,
}

/// A replacement as the contracts see it: the bytes `start..end` of a text
/// give way to `text`.
pub struct Edit {
    pub start: int,
    pub end: int,
    pub text: Seq<u8>,
}

impl View for ProcessedCitation {
    type V = Edit;

    open spec fn view(&self) -> Edit {
        Edit {
            start: self.original_span.0 as int,
            end: self.original_span.1 as int,
            text: encode_utf8(self.formatted@),
        }
    }
}

impl Clone for ProcessedCitation {
    fn clone(&self) -> (r: Self)
        ensures
            r == *self,
    {
        ProcessedCitation {
            original_span: (self.original_span.0, self.original_span.1),
            formatted: self.formatted.clone(),
        }
    }
}

/// The views of a sequence of formatted citations.
pub open spec fn edit_views(processed: Seq<ProcessedCitation>) -> Seq<Edit> {
    processed.map_values(|p: ProcessedCitation| p@)
}

/// Errors that can occur during processing.
#[derive(Debug)]
pub enum ProcessorError {
    /// The citation style could not be applied.
    CslError(String),
    /// A cited key has no reference.
    ReferenceNotFound(String),
    /// The reference data is not a JSON array.
    InvalidJson(String),
}

impl ProcessorError {
    /// The error as a line of text: what went wrong, then the detail.
    pub fn message(&self) -> (r: String)
        ensures
            r@ == match self {
                ProcessorError::CslError(detail) => "CSL processing error: "@ + detail@,
                ProcessorError::ReferenceNotFound(detail) => "Reference not found: "@ + detail@,
                ProcessorError::InvalidJson(detail) => "Invalid JSON: "@ + detail@,
            },
    {
        match self {
            ProcessorError::CslError(detail) => "CSL processing error: ".to_owned().concat(
                detail.as_str(),
            ),
            ProcessorError::ReferenceNotFound(detail) => "Reference not found: ".to_owned().concat(
                detail.as_str(),
            ),
            ProcessorError::InvalidJson(detail) => "Invalid JSON: ".to_owned().concat(
                detail.as_str(),
            ),
        }
    }
}

/// Whether one of the references has the citation key `id`.
pub open spec fn is_available(refs: Seq<ReferenceView>, id: Seq<u8>) -> bool {
    exists|i: int| 0 <= i < refs.len() && (#[trigger] refs[i]).id == Some(id)
}

/// Index, from `from` on, of the first key that no reference has; the number
/// of keys where each has one.
pub open spec fn first_missing(ids: Seq<Seq<u8>>, refs: Seq<ReferenceView>, from: int) -> int
    decreases ids.len() - from,
{
    if from < 0 || from >= ids.len() {
        ids.len() as int
    } else if !is_available(refs, ids[from]) {
        from
    } else {
        first_missing(ids, refs, from + 1)
    }
}

/// The keys of the citations, in their order.
pub open spec fn citation_ids(citations: Seq<CitationView>) -> Seq<Seq<u8>> {
    citations.map_values(|c: CitationView| c.id)
}

/// The keys of the items, in their order.
pub open spec fn item_ids(items: Seq<ItemView>) -> Seq<Seq<u8>> {
    items.map_values(|i: ItemView| i.id)
}

/// The keys of the items of all clusters: cluster by cluster, item by item.
pub open spec fn cluster_ids(clusters: Seq<ClusterView>) -> Seq<Seq<u8>>
    decreases clusters.len(),
{
    if clusters.len() == 0 {
        Seq::empty()
    } else {
        cluster_ids(clusters.drop_last()) + item_ids(clusters.last().items)
    }
}

/// A member of a JSON object after its first: a comma, the key and the value
/// as a string literal; nothing where the value is absent.
pub open spec fn member_json(key: Seq<char>, value: Option<Seq<u8>>) -> Seq<u8> {
    match value {
        Some(v) => encode_utf8(",\""@) + encode_utf8(key) + encode_utf8("\":"@) + quoted(v),
        None => Seq::empty(),
    }
}

/// The JSON object that stands for an item: its key under `id` and, where it
/// has them, its label and locator. URLs are not handed on.
pub open spec fn item_json(item: ItemView) -> Seq<u8> {
    encode_utf8("{\"id\":"@) + quoted(item.id) + member_json("label"@, item.label) + member_json(
        "locator"@,
        item.locator,
    ) + encode_utf8("}"@)
}

/// The JSON array that stands for the items of one cluster.
pub open spec fn items_json(items: Seq<ItemView>) -> Seq<u8> {
    array_of(items.map_values(|i: ItemView| item_json(i)))
}

/// The JSON array of arrays that asks for the clusters to be formatted, one
/// inner array for each cluster.
pub open spec fn clusters_json(clusters: Seq<ClusterView>) -> Seq<u8> {
    array_of(clusters.map_values(|c: ClusterView| items_json(c.items)))
}

/// The JSON array of arrays that asks for each citation to be formatted by
/// itself.
pub open spec fn citations_json(citations: Seq<CitationView>) -> Seq<u8> {
    array_of(citations.map_values(|c: CitationView| items_json(seq![item_of(c)])))
}

/// What is to be done for a set of citations, given the reference data.
pub enum Request {
    /// Nothing is cited: there is nothing to format.
    Nothing,
    /// The reference data is not JSON.
    NotJson,
    /// The reference data is JSON, but not an array.
    NotArray,
    /// The key that is cited first among those that have no reference.
    Missing(Seq<u8>),
    /// The JSON to hand to the citation style.
    Call(Seq<u8>),
}

/// The request for the keys `ids`, where `json` would be handed on, given the
/// parsed reference data.
pub open spec fn request_for(ids: Seq<Seq<u8>>, json: Seq<u8>, document: Option<DocumentView>) -> Request {
    if ids.len() == 0 {
        Request::Nothing
    } else {
        match document {
            None => Request::NotJson,
            Some(DocumentView::Other(_)) => Request::NotArray,
            Some(DocumentView::Array(refs)) => {
                let m = first_missing(ids, refs, 0);
                if m < ids.len() {
                    Request::Missing(ids[m])
                } else {
                    Request::Call(json)
                }
            },
        }
    }
}

/// Whether `r` is the outcome that the request asks for: no call where
/// nothing is cited, the JSON where all is well, and the error otherwise.
pub open spec fn answers(r: Result<Option<String>, ProcessorError>, request: Request) -> bool {
    match request {
        Request::Nothing => r matches Ok(None),
        Request::NotJson => r matches Err(ProcessorError::InvalidJson(_)),
        Request::NotArray => r matches Err(ProcessorError::InvalidJson(detail)) && detail@
            == "References must be a JSON array"@,
        Request::Missing(id) => r matches Err(ProcessorError::ReferenceNotFound(detail))
            && encode_utf8(detail@) == id,
        Request::Call(json) => r matches Ok(Some(text)) && encode_utf8(text@) == json,
    }
}

/// Whether one of the references has the citation key `id`.
fn has_reference(refs: &Vec<Reference>, id: &str) -> (r: bool)
    ensures
        r == is_available(reference_views(refs@), id.spec_bytes()),
{
    let ghost views = reference_views(refs@);
    let mut i: usize = 0;
    while i < refs.len()
        invariant
            i <= refs.len(),
            views == reference_views(refs@),
            forall|k: int| 0 <= k < i ==> (#[trigger] views[k]).id != Some(id.spec_bytes()),
        decreases refs.len() - i,
    {
        proof {
            assert(views[i as int] == refs@[i as int]@);
            vstd::utf8::encode_utf8_decode_utf8(id@);
        }
        match &refs[i].id {
            Some(other) => {
                proof {
                    vstd::utf8::encode_utf8_decode_utf8(other@);
                }
                if str_eq(other.as_str(), id) {
                    return true;
                }
            },
            None => {},
        }
        i = i + 1;
    }
    false
}

/// The bytes of the string slices.
pub open spec fn slice_texts(parts: Seq<&str>) -> Seq<Seq<u8>> {
    parts.map_values(|s: &str| s.spec_bytes())
}

/// Index of the first key that no reference has.
fn find_missing(ids: &Vec<&str>, refs: &Vec<Reference>) -> (r: usize)
    ensures
        r <= ids.len(),
        r == first_missing(slice_texts(ids@), reference_views(refs@), 0),
{
    let ghost keys = slice_texts(ids@);
    let ghost views = reference_views(refs@);
    let mut i: usize = 0;
    while i < ids.len()
        invariant
            i <= ids.len(),
            keys == slice_texts(ids@),
            views == reference_views(refs@),
            first_missing(keys, views, i as int) == first_missing(keys, views, 0),
        decreases ids.len() - i,
    {
        assert(keys[i as int] == ids@[i as int].spec_bytes());
        if !has_reference(refs, ids[i]) {
            return i;
        }
        i = i + 1;
    }
    i
}

/// The request for the keys `ids`, where `json` would be handed on, given
/// what parsing the reference data gave.
fn decide(ids: &Vec<&str>, json: String, document: Result<Document, serde_json::Error>) -> (r:
    Result<Option<String>, ProcessorError>)
    ensures
        answers(
            r,
            request_for(
                slice_texts(ids@),
                encode_utf8(json@),
                match document {
                    Ok(d) => Some(d@),
                    Err(_) => None,
                },
            ),
        ),
{
    if ids.len() == 0 {
        return Ok(None);
    }
    match document {
        Err(e) => Err(ProcessorError::InvalidJson(error_text(&e))),
        Ok(Document::Other(_)) => Err(
            ProcessorError::InvalidJson("References must be a JSON array".to_owned()),
        ),
        Ok(Document::Array(refs)) => {
            let m: usize = find_missing(ids, &refs);
            if m < ids.len() {
                assert(slice_texts(ids@)[m as int] == ids@[m as int].spec_bytes());
                Err(ProcessorError::ReferenceNotFound(ids[m].to_owned()))
            } else {
                Ok(Some(json))
            }
        },
    }
}

/// Appends a member of a JSON object after its first, where it has a value.
fn push_member(out: &mut String, key: &str, value: &Option<String>)
    ensures
        encode_utf8(final(out)@) == encode_utf8(old(out)@) + member_json(
            key@,
            option_bytes(*value),
        ),
{
    match value {
        Some(v) => {
            let ghost start = encode_utf8(out@);
            push_text(out, ",\"");
            push_text(out, key);
            push_text(out, "\":");
            let literal: String = quote(v.as_str());
            push_text(out, literal.as_str());
            proof {
                assert(encode_utf8(out@) =~= start + (encode_utf8(",\""@) + encode_utf8(key@)
                    + encode_utf8("\":"@) + quoted(encode_utf8(v@))));
            }
        },
        None => {
            assert(encode_utf8(out@) + Seq::<u8>::empty() =~= encode_utf8(out@));
        },
    }
}

/// Writes the JSON object that stands for an item.
fn write_item(id: &str, locator: &Option<String>, label: &Option<String>) -> (r: String)
    ensures
        encode_utf8(r@) == item_json(
            ItemView {
                id: id.spec_bytes(),
                locator: option_bytes(*locator),
                label: option_bytes(*label),
                url: None,
            },
        ),
{
    let mut out: String = "{\"id\":".to_owned();
    let literal: String = quote(id);
    push_text(&mut out, literal.as_str());
    push_member(&mut out, "label", label);
    push_member(&mut out, "locator", locator);
    push_text(&mut out, "}");
    out
}

/// The JSON object of an item does not depend on its URL.
proof fn lemma_item_json_without_url(item: ItemView)
    ensures
        item_json(item) == item_json(
            ItemView { id: item.id, locator: item.locator, label: item.label, url: None },
        ),
{
}

/// Writes the JSON array that stands for the items of one cluster.
fn write_items(items: &Vec<CitationItem>) -> (r: String)
    ensures
        encode_utf8(r@) == items_json(item_views(items@)),
{
    let ghost views = item_views(items@);
    let mut parts: Vec<String> = Vec::new();
    let mut i: usize = 0;
    while i < items.len()
        invariant
            i <= items.len(),
            views == item_views(items@),
            texts(parts@) == views.take(i as int).map_values(|v: ItemView| item_json(v)),
        decreases items.len() - i,
    {
        let part: String = write_item(items[i].id.as_str(), &items[i].locator, &items[i].label);
        proof {
            assert(views[i as int] == items@[i as int]@);
            lemma_item_json_without_url(views[i as int]);
            let before = texts(parts@);
            assert(texts(parts@.push(part)) =~= before.push(encode_utf8(part@)));
            assert(views.take(i + 1).map_values(|v: ItemView| item_json(v)) =~= views.take(
                i as int,
            ).map_values(|v: ItemView| item_json(v)).push(item_json(views[i as int])));
        }
        parts.push(part);
        i = i + 1;
    }
    proof {
        assert(views.take(i as int) =~= views);
    }
    write_array(&parts)
}

/// Writes the JSON that asks for the clusters to be formatted.
fn write_clusters(clusters: &[CitationCluster]) -> (r: String)
    ensures
        encode_utf8(r@) == clusters_json(cluster_views(clusters@)),
{
    let ghost views = cluster_views(clusters@);
    let mut parts: Vec<String> = Vec::new();
    let mut i: usize = 0;
    while i < clusters.len()
        invariant
            i <= clusters.len(),
            views == cluster_views(clusters@),
            texts(parts@) == views.take(i as int).map_values(|c: ClusterView| items_json(c.items)),
        decreases clusters.len() - i,
    {
        let part: String = write_items(&clusters[i].items);
        proof {
            assert(views[i as int] == clusters@[i as int]@);
            let before = texts(parts@);
            assert(texts(parts@.push(part)) =~= before.push(encode_utf8(part@)));
            assert(views.take(i + 1).map_values(|c: ClusterView| items_json(c.items))
                =~= views.take(i as int).map_values(|c: ClusterView| items_json(c.items)).push(
                items_json(views[i as int].items),
            ));
        }
        parts.push(part);
        i = i + 1;
    }
    proof {
        assert(views.take(i as int) =~= views);
    }
    write_array(&parts)
}

/// Writes the JSON that asks for each citation to be formatted by itself.
fn write_citations(citations: &[Citation]) -> (r: String)
    ensures
        encode_utf8(r@) == citations_json(citation_views(citations@)),
{
    let ghost views = citation_views(citations@);
    let mut parts: Vec<String> = Vec::new();
    let mut i: usize = 0;
    while i < citations.len()
        invariant
            i <= citations.len(),
            views == citation_views(citations@),
            texts(parts@) == views.take(i as int).map_values(
                |c: CitationView| items_json(seq![item_of(c)]),
            ),
        decreases citations.len() - i,
    {
        let c: &Citation = &citations[i];
        let item: String = write_item(c.id.as_str(), &c.locator, &c.label);
        let mut one: Vec<String> = Vec::new();
        one.push(item);
        let part: String = write_array(&one);
        proof {
            assert(views[i as int] == c@);
            lemma_item_json_without_url(item_of(c@));
            assert(texts(one@) =~= seq![item_of(c@)].map_values(|v: ItemView| item_json(v)));
            let before = texts(parts@);
            assert(texts(parts@.push(part)) =~= before.push(encode_utf8(part@)));
            assert(views.take(i + 1).map_values(|c: CitationView| items_json(seq![item_of(c)]))
                =~= views.take(i as int).map_values(
                |c: CitationView| items_json(seq![item_of(c)]),
            ).push(items_json(seq![item_of(views[i as int])])));
        }
        parts.push(part);
        i = i + 1;
    }
    proof {
        assert(views.take(i as int) =~= views);
    }
    write_array(&parts)
}

/// The keys of the citations.
fn ids_of_citations(citations: &[Citation]) -> (r: Vec<&str>)
    ensures
        slice_texts(r@) == citation_ids(citation_views(citations@)),
{
    let ghost views = citation_views(citations@);
    let mut ids: Vec<&str> = Vec::new();
    let mut i: usize = 0;
    while i < citations.len()
        invariant
            i <= citations.len(),
            views == citation_views(citations@),
            slice_texts(ids@) == citation_ids(views.take(i as int)),
        decreases citations.len() - i,
    {
        let id: &str = citations[i].id.as_str();
        proof {
            assert(views[i as int] == citations@[i as int]@);
            let before = slice_texts(ids@);
            assert(slice_texts(ids@.push(id)) =~= before.push(id.spec_bytes()));
            assert(citation_ids(views.take(i + 1)) =~= citation_ids(views.take(i as int)).push(
                views[i as int].id,
            ));
        }
        ids.push(id);
        i = i + 1;
    }
    proof {
        assert(views.take(i as int) =~= views);
    }
    ids
}

/// The keys of the items of all clusters.
fn ids_of_clusters(clusters: &[CitationCluster]) -> (r: Vec<&str>)
    ensures
        slice_texts(r@) == cluster_ids(cluster_views(clusters@)),
{
    let ghost views = cluster_views(clusters@);
    let mut ids: Vec<&str> = Vec::new();
    let mut i: usize = 0;
    proof {
        assert(views.take(0) =~= Seq::<ClusterView>::empty());
    }
    while i < clusters.len()
        invariant
            i <= clusters.len(),
            views == cluster_views(clusters@),
            slice_texts(ids@) == cluster_ids(views.take(i as int)),
        decreases clusters.len() - i,
    {
        let items: &Vec<CitationItem> = &clusters[i].items;
        let ghost before = slice_texts(ids@);
        let ghost item_list = item_views(items@);
        let mut k: usize = 0;
        proof {
            assert(views[i as int] == clusters@[i as int]@);
            assert(views.take(i + 1).drop_last() =~= views.take(i as int));
            assert(item_ids(item_list.take(0)) =~= Seq::<Seq<u8>>::empty());
            assert(before + item_ids(item_list.take(0)) =~= before);
        }
        while k < items.len()
            invariant
                k <= items.len(),
                item_list == item_views(items@),
                slice_texts(ids@) == before + item_ids(item_list.take(k as int)),
            decreases items.len() - k,
        {
            let id: &str = items[k].id.as_str();
            proof {
                assert(item_list[k as int] == items@[k as int]@);
                let so_far = slice_texts(ids@);
                assert(slice_texts(ids@.push(id)) =~= so_far.push(id.spec_bytes()));
                assert(item_ids(item_list.take(k + 1)) =~= item_ids(item_list.take(k as int)).push(
                    item_list[k as int].id,
                ));
            }
            ids.push(id);
            k = k + 1;
        }
        proof {
            assert(item_list.take(k as int) =~= item_list);
        }
        i = i + 1;
    }
    proof {
        assert(views.take(i as int) =~= views);
    }
    ids
}

/// What is to be done for the clusters, given what parsing the reference
/// data gave: nothing where there are none, an error where the data is no
/// array or lacks a cited key, else the JSON to hand to the citation style.
pub fn cluster_request_with(
    clusters: &[CitationCluster],
    document: Result<Document, serde_json::Error>,
) -> (r: Result<Option<String>, ProcessorError>)
    ensures
        answers(
            r,
            request_for(
                cluster_ids(cluster_views(clusters@)),
                clusters_json(cluster_views(clusters@)),
                match document {
                    Ok(d) => Some(d@),
                    Err(_) => None,
                },
            ),
        ),
{
    let ids: Vec<&str> = ids_of_clusters(clusters);
    let json: String = write_clusters(clusters);
    decide(&ids, json, document)
}

/// What is to be done for the clusters with the reference data `refs_json`.
pub fn cluster_request(clusters: &[CitationCluster], refs_json: &str) -> (r: Result<
    Option<String>,
    ProcessorError,
>)
    ensures
        answers(
            r,
            request_for(
                cluster_ids(cluster_views(clusters@)),
                clusters_json(cluster_views(clusters@)),
                parsed_document(refs_json.spec_bytes(), id_key()),
            ),
        ),
{
    if clusters.len() == 0 {
        proof {
            assert(cluster_views(clusters@) =~= Seq::<ClusterView>::empty());
        }
        return Ok(None);
    }
    cluster_request_with(clusters, parse_document(refs_json, "id"))
}

/// What is to be done for the citations, each formatted by itself, given
/// what parsing the reference data gave.
pub fn citation_request_with(
    citations: &[Citation],
    document: Result<Document, serde_json::Error>,
) -> (r: Result<Option<String>, ProcessorError>)
    ensures
        answers(
            r,
            request_for(
                citation_ids(citation_views(citations@)),
                citations_json(citation_views(citations@)),
                match document {
                    Ok(d) => Some(d@),
                    Err(_) => None,
                },
            ),
        ),
{
    let ids: Vec<&str> = ids_of_citations(citations);
    let json: String = write_citations(citations);
    decide(&ids, json, document)
}

/// What is to be done for the citations with the reference data `refs_json`.
pub fn citation_request(citations: &[Citation], refs_json: &str) -> (r: Result<
    Option<String>,
    ProcessorError,
>)
    ensures
        answers(
            r,
            request_for(
                citation_ids(citation_views(citations@)),
                citations_json(citation_views(citations@)),
                parsed_document(refs_json.spec_bytes(), id_key()),
            ),
        ),
{
    if citations.len() == 0 {
        proof {
            assert(citation_ids(citation_views(citations@)) =~= Seq::<Seq<u8>>::empty());
        }
        return Ok(None);
    }
    citation_request_with(citations, parse_document(refs_json, "id"))
}

/// The spans of the citations.
pub open spec fn citation_spans(citations: Seq<CitationView>) -> Seq<(int, int)> {
    citations.map_values(|c: CitationView| c.span)
}

/// The spans of the clusters.
pub open spec fn cluster_spans(clusters: Seq<ClusterView>) -> Seq<(int, int)> {
    clusters.map_values(|c: ClusterView| c.span)
}

/// The replacements that the lines of a citation style's output stand for:
/// the line of the same index for each span, and nothing for a span for
/// which no line is left.
pub open spec fn processed_of(spans: Seq<(int, int)>, lines: Seq<Seq<u8>>) -> Seq<Edit> {
    Seq::new(
        spans.len(),
        |i: int|
            Edit {
                start: spans[i].0,
                end: spans[i].1,
                text: if i < lines.len() {
                    lines[i]
                } else {
                    Seq::empty()
                },
            },
    )
}

/// The line of index `i` of `output`, or the empty text.
fn line_or_empty(output: &str, ranges: &Vec<(usize, usize)>, i: usize) -> (r: String)
    requires
        ranges@.len() == lines_of(output.spec_bytes()).len(),
        forall|k: int|
            0 <= k < ranges@.len() ==> {
                &&& crate::text::is_char_range(
                    output.spec_bytes(),
                    (#[trigger] ranges@[k]).0 as int,
                    ranges@[k].1 as int,
                )
                &&& output.spec_bytes().subrange(ranges@[k].0 as int, ranges@[k].1 as int)
                    == lines_of(output.spec_bytes())[k]
            },
    ensures
        encode_utf8(r@) == if i < lines_of(output.spec_bytes()).len() {
            lines_of(output.spec_bytes())[i as int]
        } else {
            Seq::<u8>::empty()
        },
{
    if i < ranges.len() {
        substring(output, ranges[i].0, ranges[i].1).to_owned()
    } else {
        let empty: String = String::new();
        assert(encode_utf8(empty@) =~= Seq::<u8>::empty());
        empty
    }
}

/// The formatted citations that a citation style's output stands for: one
/// for each citation, with that citation's span and the output's line of the
/// same index.
pub fn processed_citations(citations: &[Citation], output: &str) -> (r: Vec<ProcessedCitation>)
    ensures
        edit_views(r@) == processed_of(
            citation_spans(citation_views(citations@)),
            lines_of(output.spec_bytes()),
        ),
{
    let ghost views = citation_views(citations@);
    let ghost lines = lines_of(output.spec_bytes());
    let bytes: &[u8] = output.as_bytes();
    proof {
        lemma_str_bytes(output@);
    }
    let ranges: Vec<(usize, usize)> = line_ranges(bytes);
    let mut out: Vec<ProcessedCitation> = Vec::new();
    let mut i: usize = 0;
    while i < citations.len()
        invariant
            i <= citations.len(),
            views == citation_views(citations@),
            lines == lines_of(output.spec_bytes()),
            ranges@.len() == lines.len(),
            forall|k: int|
                0 <= k < ranges@.len() ==> {
                    &&& crate::text::is_char_range(
                        output.spec_bytes(),
                        (#[trigger] ranges@[k]).0 as int,
                        ranges@[k].1 as int,
                    )
                    &&& output.spec_bytes().subrange(ranges@[k].0 as int, ranges@[k].1 as int)
                        == lines[k]
                },
            edit_views(out@) == processed_of(citation_spans(views.take(i as int)), lines),
        decreases citations.len() - i,
    {
        let formatted: String = line_or_empty(output, &ranges, i);
        let p = ProcessedCitation {
            original_span: (citations[i].span.0, citations[i].span.1),
            formatted,
        };
        proof {
            assert(views[i as int] == citations@[i as int]@);
            let before = edit_views(out@);
            assert(edit_views(out@.push(p)) =~= before.push(p@));
            assert(processed_of(citation_spans(views.take(i + 1)), lines) =~= processed_of(
                citation_spans(views.take(i as int)),
                lines,
            ).push(p@));
        }
        out.push(p);
        i = i + 1;
    }
    proof {
        assert(views.take(i as int) =~= views);
    }
    out
}

/// The formatted citations that a citation style's output stands for: one
/// for each cluster, with that cluster's span and the output's line of the
/// same index.
pub fn processed_clusters(clusters: &[CitationCluster], output: &str) -> (r: Vec<
    ProcessedCitation,
>)
    ensures
        edit_views(r@) == processed_of(
            cluster_spans(cluster_views(clusters@)),
            lines_of(output.spec_bytes()),
        ),
{
    let ghost views = cluster_views(clusters@);
    let ghost lines = lines_of(output.spec_bytes());
    let bytes: &[u8] = output.as_bytes();
    proof {
        lemma_str_bytes(output@);
    }
    let ranges: Vec<(usize, usize)> = line_ranges(bytes);
    let mut out: Vec<ProcessedCitation> = Vec::new();
    let mut i: usize = 0;
    while i < clusters.len()
        invariant
            i <= clusters.len(),
            views == cluster_views(clusters@),
            lines == lines_of(output.spec_bytes()),
            ranges@.len() == lines.len(),
            forall|k: int|
                0 <= k < ranges@.len() ==> {
                    &&& crate::text::is_char_range(
                        output.spec_bytes(),
                        (#[trigger] ranges@[k]).0 as int,
                        ranges@[k].1 as int,
                    )
                    &&& output.spec_bytes().subrange(ranges@[k].0 as int, ranges@[k].1 as int)
                        == lines[k]
                },
            edit_views(out@) == processed_of(cluster_spans(views.take(i as int)), lines),
        decreases clusters.len() - i,
    {
        let formatted: String = line_or_empty(output, &ranges, i);
        let p = ProcessedCitation {
            original_span: (clusters[i].span.0, clusters[i].span.1),
            formatted,
        };
        proof {
            assert(views[i as int] == clusters@[i as int]@);
            let before = edit_views(out@);
            assert(edit_views(out@.push(p)) =~= before.push(p@));
            assert(processed_of(cluster_spans(views.take(i + 1)), lines) =~= processed_of(
                cluster_spans(views.take(i as int)),
                lines,
            ).push(p@));
        }
        out.push(p);
        i = i + 1;
    }
    proof {
        assert(views.take(i as int) =~= views);
    }
    out
}

/// Index of the last reference that has the citation key `id`.
pub open spec fn lookup(refs: Seq<ReferenceView>, id: Seq<u8>) -> Option<int>
    decreases refs.len(),
{
    if refs.len() == 0 {
        None
    } else if refs.last().id == Some(id) {
        Some(refs.len() - 1)
    } else {
        lookup(refs.drop_last(), id)
    }
}

/// The references that are cited, as JSON texts, in the order in which their
/// keys are first cited. A key counts once however often it is cited; a key
/// without a reference is passed over; of several references with one key
/// the last is taken.
pub open spec fn cited_refs(ids: Seq<Seq<u8>>, refs: Seq<ReferenceView>) -> Seq<Seq<u8>>
    decreases ids.len(),
{
    if ids.len() == 0 {
        Seq::empty()
    } else {
        let front = cited_refs(ids.drop_last(), refs);
        if ids.drop_last().contains(ids.last()) {
            front
        } else {
            match lookup(refs, ids.last()) {
                Some(k) => front.push(refs[k].json),
                None => front,
            }
        }
    }
}

/// What is to be done for the bibliography of the keys `ids`, given the
/// parsed reference data: nothing where nothing is cited or no cited key has
/// a reference, else the cited references as a JSON array.
pub open spec fn bibliography_for(ids: Seq<Seq<u8>>, document: Option<DocumentView>) -> Request {
    if ids.len() == 0 {
        Request::Nothing
    } else {
        match document {
            None => Request::NotJson,
            Some(DocumentView::Other(_)) => Request::NotArray,
            Some(DocumentView::Array(refs)) => {
                if cited_refs(ids, refs).len() == 0 {
                    Request::Nothing
                } else {
                    Request::Call(array_of(cited_refs(ids, refs)))
                }
            },
        }
    }
}

/// Index of the last reference that has the citation key `id`.
fn find_reference(refs: &Vec<Reference>, id: &str) -> (r: Option<usize>)
    ensures
        match r {
            Some(k) => k < refs.len() && lookup(reference_views(refs@), id.spec_bytes()) == Some(
                k as int,
            ),
            None => lookup(reference_views(refs@), id.spec_bytes()) is None,
        },
{
    let ghost views = reference_views(refs@);
    let mut i: usize = refs.len();
    proof {
        assert(views.take(i as int) =~= views);
    }
    while i > 0
        invariant
            i <= refs.len(),
            views == reference_views(refs@),
            lookup(views.take(i as int), id.spec_bytes()) == lookup(views, id.spec_bytes()),
        decreases i,
    {
        proof {
            assert(views.take(i as int).last() == refs@[i - 1]@);
            assert(views.take(i as int).drop_last() =~= views.take(i - 1));
            vstd::utf8::encode_utf8_decode_utf8(id@);
        }
        match &refs[i - 1].id {
            Some(other) => {
                proof {
                    vstd::utf8::encode_utf8_decode_utf8(other@);
                }
                if str_eq(other.as_str(), id) {
                    return Some(i - 1);
                }
            },
            None => {},
        }
        i = i - 1;
    }
    None
}

/// Whether one of the first `n` keys is the key `id`.
fn seen_before(ids: &Vec<&str>, n: usize, id: &str) -> (r: bool)
    requires
        n <= ids.len(),
    ensures
        r == slice_texts(ids@).take(n as int).contains(id.spec_bytes()),
{
    let ghost keys = slice_texts(ids@).take(n as int);
    let mut i: usize = 0;
    while i < n
        invariant
            i <= n <= ids.len(),
            keys == slice_texts(ids@).take(n as int),
            forall|k: int| 0 <= k < i ==> keys[k] != id.spec_bytes(),
        decreases n - i,
    {
        proof {
            assert(keys[i as int] == ids@[i as int].spec_bytes());
            vstd::utf8::encode_utf8_decode_utf8(id@);
            vstd::utf8::encode_utf8_decode_utf8(ids@[i as int]@);
        }
        if str_eq(ids[i], id) {
            return true;
        }
        i = i + 1;
    }
    false
}

/// What is to be done for the bibliography of the citations, given what
/// parsing the reference data gave.
pub fn bibliography_request_with(
    citations: &[Citation],
    document: Result<Document, serde_json::Error>,
) -> (r: Result<Option<String>, ProcessorError>)
    ensures
        answers(
            r,
            bibliography_for(
                citation_ids(citation_views(citations@)),
                match document {
                    Ok(d) => Some(d@),
                    Err(_) => None,
                },
            ),
        ),
{
    let ids: Vec<&str> = ids_of_citations(citations);
    if ids.len() == 0 {
        return Ok(None);
    }
    match document {
        Err(e) => Err(ProcessorError::InvalidJson(error_text(&e))),
        Ok(Document::Other(_)) => Err(
            ProcessorError::InvalidJson("References must be a JSON array".to_owned()),
        ),
        Ok(Document::Array(refs)) => {
            let ghost keys = slice_texts(ids@);
            let ghost views = reference_views(refs@);
            let mut cited: Vec<String> = Vec::new();
            let mut i: usize = 0;
            proof {
                assert(keys.take(0) =~= Seq::<Seq<u8>>::empty());
            }
            while i < ids.len()
                invariant
                    i <= ids.len(),
                    keys == slice_texts(ids@),
                    views == reference_views(refs@),
                    texts(cited@) == cited_refs(keys.take(i as int), views),
                decreases ids.len() - i,
            {
                proof {
                    assert(keys.take(i + 1).drop_last() =~= keys.take(i as int));
                    assert(keys.take(i + 1).last() == ids@[i as int].spec_bytes());
                }
                if !seen_before(&ids, i, ids[i]) {
                    match find_reference(&refs, ids[i]) {
                        Some(k) => {
                            let json: String = refs[k].json.clone();
                            proof {
                                assert(views[k as int] == refs@[k as int]@);
                                let before = texts(cited@);
                                assert(texts(cited@.push(json)) =~= before.push(
                                    encode_utf8(json@),
                                ));
                            }
                            cited.push(json);
                        },
                        None => {},
                    }
                }
                i = i + 1;
            }
            proof {
                assert(keys.take(i as int) =~= keys);
            }
            if cited.len() == 0 {
                Ok(None)
            } else {
                Ok(Some(write_array(&cited)))
            }
        },
    }
}

/// What is to be done for the bibliography of the citations with the
/// reference data `refs_json`.
pub fn bibliography_request(citations: &[Citation], refs_json: &str) -> (r: Result<
    Option<String>,
    ProcessorError,
>)
    ensures
        answers(
            r,
            bibliography_for(
                citation_ids(citation_views(citations@)),
                parsed_document(refs_json.spec_bytes(), id_key()),
            ),
        ),
{
    if citations.len() == 0 {
        proof {
            assert(citation_ids(citation_views(citations@)) =~= Seq::<Seq<u8>>::empty());
        }
        return Ok(None);
    }
    bibliography_request_with(citations, parse_document(refs_json, "id"))
}

} // verus!
