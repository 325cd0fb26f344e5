//! Citation markers in Markdown text: `[@key]`, `[@key, locator]` and
//! `[@key](url)`.
//!
//! The grammar is stated over the bytes of the text. Its delimiters are ASCII,
//! which in UTF-8 never occur inside a longer character, so matching bytes
//! is matching characters.

use vstd::prelude::*;
use vstd::string::StringSliceAdditionalSpecFns;
use vstd::utf8::encode_utf8;
use crate::locator::{parse_locator_range, parsed_locator};
use crate::scan::{
    find_byte, find_in, key_end, key_end_in, lemma_find_byte, lemma_key_end, AT_SIGN,
    CLOSE_BRACKET, CLOSE_PAREN, COMMA, OPEN_BRACKET, OPEN_PAREN,
};
use crate::text::{
    clone_option, is_char_range, lemma_ascii_boundaries, lemma_str_bytes, option_bytes,
    substring, trim, trim_range,
};

verus! {

/// A citation marker found in Markdown text.
#[derive(Debug, PartialEq)]
pub struct Citation {
    /// The citation key (e.g., "item-1" or "pmid:12345")
    pub id: String,
    /// Optional locator value (e.g., "42" for page 42)
    pub locator: Option<String>,
    /// Optional locator label (e.g., "page", "chapter")
    pub label: Option<String>,
    /// Optional URL associated with the citation
    pub url: Option<String>,
    /// Start and end byte positions in the original text
    pub span: (usize, usize),
}

/// A citation as the contracts see it: its texts as bytes, its span as
/// integers.
pub struct CitationView {
    pub id: Seq<u8>,
    pub locator: Option<Seq<u8>>,
    pub label: Option<Seq<u8>>,
    pub url: Option<Seq<u8>>,
    pub span: (int, int),
}

impl View for Citation {
    type V = CitationView;

    open spec fn view(&self) -> CitationView {
        CitationView {
            id: encode_utf8(self.id@),
            locator: option_bytes(self.locator),
            label: option_bytes(self.label),
            url: option_bytes(self.url),
            span: (self.span.0 as int, self.span.1 as int),
        }
    }
}

impl Clone for Citation {
    fn clone(&self) -> (r: Self)
        ensures
            r == *self,
    {
        Citation {
            id: self.id.clone(),
            locator: clone_option(&self.locator),
            label: clone_option(&self.label),
            url: clone_option(&self.url),
            span: (self.span.0, self.span.1),
        }
    }
}

/// The views of a sequence of citations.
pub open spec fn citation_views(citations: Seq<Citation>) -> Seq<CitationView> {
    citations.map_values(|c: Citation| c@)
}

/// Where the parts of one marker lie. The key is `start + 2..key_end`. The
/// closing bracket is at `close`; where `close` is past `key_end`, a comma is
/// at `key_end` and the locator text is `key_end + 1..close`. Where `end` is
/// past `close + 1`, the URL is `close + 2..end - 1`, between parentheses.
pub struct Marker {
    pub start: int,
    pub key_end: int,
    pub close: int,
    pub end: int,
}

/// End of the marker whose closing bracket is at `close`: past a
/// parenthesised, non-empty URL where one follows directly, else past the
/// bracket.
pub open spec fn marker_end(bytes: Seq<u8>, close: int) -> int {
    let paren = find_byte(bytes, close + 2, CLOSE_PAREN);
    if close + 1 < bytes.len() && bytes[close + 1] == OPEN_PAREN && close + 2 < paren
        < bytes.len() {
        paren + 1
    } else {
        close + 1
    }
}

/// The marker that starts at offset `p`, if one does: `[@`, a non-empty run
/// of key bytes, optionally a comma and a non-empty run of bytes other than
/// `]`, then `]`, optionally followed by a URL in parentheses.
pub open spec fn marker_at(bytes: Seq<u8>, p: int) -> Option<Marker> {
    let q = key_end(bytes, p + 2);
    let r = find_byte(bytes, q + 1, CLOSE_BRACKET);
    if !(0 <= p && p + 2 < bytes.len() && bytes[p] == OPEN_BRACKET && bytes[p + 1] == AT_SIGN) {
        None
    } else if q == p + 2 || q >= bytes.len() {
        None
    } else if bytes[q] == CLOSE_BRACKET {
        Some(Marker { start: p, key_end: q, close: q, end: marker_end(bytes, q) })
    } else if bytes[q] == COMMA && q + 1 < r < bytes.len() {
        Some(Marker { start: p, key_end: q, close: r, end: marker_end(bytes, r) })
    } else {
        None
    }
}

/// What `lemma_marker_at` shows of a marker: the order of its parts and the
/// delimiters between them.
pub open spec fn marker_well_formed(bytes: Seq<u8>, m: Marker) -> bool {
    &&& 0 <= m.start
    &&& m.start + 2 < m.key_end <= m.close < m.end <= bytes.len()
    &&& bytes[m.start] == OPEN_BRACKET
    &&& bytes[m.start + 1] == AT_SIGN
    &&& bytes[m.close] == CLOSE_BRACKET
    &&& (m.key_end == m.close || (bytes[m.key_end] == COMMA && m.key_end + 1 < m.close))
    &&& (m.end == m.close + 1 || (bytes[m.close + 1] == OPEN_PAREN && m.close + 3 < m.end
        && bytes[m.end - 1] == CLOSE_PAREN))
}

/// Every marker is well formed and starts where it was looked for.
pub proof fn lemma_marker_at(bytes: Seq<u8>, p: int)
    requires
        marker_at(bytes, p) is Some,
    ensures
        marker_at(bytes, p)->0.start == p,
        marker_well_formed(bytes, marker_at(bytes, p)->0),
{
    let q = key_end(bytes, p + 2);
    lemma_key_end(bytes, p + 2);
    lemma_find_byte(bytes, q + 1, CLOSE_BRACKET);
    let m = marker_at(bytes, p)->0;
    if m.close + 2 <= bytes.len() {
        lemma_find_byte(bytes, m.close + 2, CLOSE_PAREN);
    }
}

/// The citation that a marker in `bytes` stands for. The key is trimmed, the
/// locator text is parsed, the URL is taken as it stands.
pub open spec fn citation_at(bytes: Seq<u8>, m: Marker) -> CitationView {
    let locator = parsed_locator(bytes.subrange(m.key_end + 1, m.close));
    CitationView {
        id: trim(bytes.subrange(m.start + 2, m.key_end)),
        locator: if m.key_end < m.close {
            locator.locator
        } else {
            None
        },
        label: if m.key_end < m.close {
            locator.label
        } else {
            None
        },
        url: if m.close + 1 < m.end {
            Some(bytes.subrange(m.close + 2, m.end - 1))
        } else {
            None
        },
        span: (m.start, m.end),
    }
}

/// The citations of the markers found from offset `from` on, scanning left
/// to right: the first marker that starts at or after `from`, then those
/// found from its end on.
pub open spec fn citations_from(bytes: Seq<u8>, from: int) -> Seq<CitationView>
    decreases bytes.len() - from,
{
    if from < 0 || from >= bytes.len() {
        Seq::empty()
    } else {
        match marker_at(bytes, from) {
            Some(m) => {
                proof {
                    lemma_marker_at(bytes, from);
                }
                seq![citation_at(bytes, m)] + citations_from(bytes, m.end)
            },
            None => citations_from(bytes, from + 1),
        }
    }
}

/// All citations of a text, in document order.
pub open spec fn citations_in(bytes: Seq<u8>) -> Seq<CitationView> {
    citations_from(bytes, 0)
}

/// `span` covers a marker of `bytes`: it lies within the text, begins with
/// `[@` and ends with `]` or `)`.
pub open spec fn is_marker_span(bytes: Seq<u8>, span: (int, int)) -> bool {
    &&& 0 <= span.0
    &&& span.0 + 4 <= span.1 <= bytes.len()
    &&& bytes[span.0] == OPEN_BRACKET
    &&& bytes[span.0 + 1] == AT_SIGN
    &&& (bytes[span.1 - 1] == CLOSE_BRACKET || bytes[span.1 - 1] == CLOSE_PAREN)
}

/// The citations come in document order and do not overlap.
pub open spec fn citations_in_order(citations: Seq<CitationView>) -> bool {
    forall|i: int, j: int|
        0 <= i < j < citations.len() ==> (#[trigger] citations[i]).span.1 <= (
        #[trigger] citations[j]).span.0
}

/// The marker at `p`, if one starts there, as the offsets `key_end`, `close`
/// and `end`.
fn scan_marker(bytes: &[u8], p: usize) -> (r: Option<(usize, usize, usize)>)
    requires
        p < bytes@.len(),
    ensures
        match r {
            Some(m) => marker_at(bytes@, p as int) == Some(
                Marker { start: p as int, key_end: m.0 as int, close: m.1 as int, end: m.2 as int },
            ),
            None => marker_at(bytes@, p as int) is None,
        },
{
    let n: usize = bytes.len();
    if n - p <= 2 || bytes[p] != OPEN_BRACKET || bytes[p + 1] != AT_SIGN {
        return None;
    }
    let q: usize = key_end_in(bytes, p + 2);
    if q == p + 2 || q >= n {
        return None;
    }
    let close: usize;
    if bytes[q] == CLOSE_BRACKET {
        close = q;
    } else if bytes[q] == COMMA {
        let r: usize = find_in(bytes, q + 1, n, CLOSE_BRACKET);
        assert(bytes@.take(n as int) =~= bytes@);
        if r == q + 1 || r >= n {
            return None;
        }
        close = r;
    } else {
        return None;
    }
    let mut end: usize = close + 1;
    if n - close > 2 && bytes[close + 1] == OPEN_PAREN {
        let paren: usize = find_in(bytes, close + 2, n, CLOSE_PAREN);
        assert(bytes@.take(n as int) =~= bytes@);
        if close + 2 < paren && paren < n {
            end = paren + 1;
        }
    }
    Some((q, close, end))
}

/// Builds the citation of the marker at `p`.
fn citation_of_marker(text: &str, bytes: &[u8], p: usize, m: (usize, usize, usize)) -> (r:
    Citation)
    requires
        bytes@ == text.spec_bytes(),
        marker_at(bytes@, p as int) == Some(
            Marker { start: p as int, key_end: m.0 as int, close: m.1 as int, end: m.2 as int },
        ),
    ensures
        r@ == citation_at(bytes@, marker_at(bytes@, p as int)->0),
        r.label is Some ==> r.locator is Some,
{
    let (q, close, end) = m;
    proof {
        lemma_str_bytes(text@);
        lemma_marker_at(bytes@, p as int);
        lemma_ascii_boundaries(bytes@, p + 1);
        lemma_ascii_boundaries(bytes@, q as int);
        lemma_ascii_boundaries(bytes@, close as int);
    }
    let (a, b) = trim_range(bytes, p + 2, q);
    let id: String = substring(text, a, b).to_owned();
    let mut locator: Option<String> = None;
    let mut label: Option<String> = None;
    if q < close {
        let parsed = parse_locator_range(text, bytes, q + 1, close);
        locator = parsed.0;
        label = parsed.1;
    }
    let mut url: Option<String> = None;
    if close + 1 < end {
        proof {
            lemma_ascii_boundaries(bytes@, close + 1);
            lemma_ascii_boundaries(bytes@, end - 1);
        }
        url = Some(substring(text, close + 2, end - 1).to_owned());
    }
    Citation { id, locator, label, url, span: (p, end) }
}

/// Extracts all citations from the given Markdown text.
///
/// The result is the sequence of markers found by scanning from left to
/// right, each one starting at or after the end of the one before it. Every
/// span covers a marker: it begins with `[@` and ends with `]` or `)`, and
/// its two ends are character boundaries of the text.
pub fn extract_citations(markdown: &str) -> (r: Vec<Citation>)
    ensures
        citation_views(r@) == citations_in(markdown.spec_bytes()),
        citations_in_order(citation_views(r@)),
        forall|i: int|
            0 <= i < r.len() ==> is_marker_span(markdown.spec_bytes(), (#[trigger] r[i])@.span),
        forall|i: int|
            0 <= i < r.len() ==> is_char_range(
                markdown.spec_bytes(),
                (#[trigger] r[i])@.span.0,
                r[i]@.span.1,
            ),
        forall|i: int| 0 <= i < r.len() ==> ((#[trigger] r[i]).label is Some ==> r[i].locator is Some),
{
    let bytes: &[u8] = markdown.as_bytes();
    let n: usize = bytes.len();
    let mut out: Vec<Citation> = Vec::new();
    let mut pos: usize = 0;
    while pos < n
        invariant
            pos <= n,
            n == bytes@.len(),
            bytes@ == markdown.spec_bytes(),
            citation_views(out@) + citations_from(bytes@, pos as int) == citations_in(bytes@),
            forall|i: int|
                0 <= i < out.len() ==> ((#[trigger] out[i]).label is Some ==> out[i].locator is Some),
        decreases n - pos,
    {
        match scan_marker(bytes, pos) {
            Some(m) => {
                let c: Citation = citation_of_marker(markdown, bytes, pos, m);
                proof {
                    lemma_marker_at(bytes@, pos as int);
                    assert(citation_views(out@.push(c)) =~= citation_views(out@) + seq![c@]);
                }
                out.push(c);
                pos = m.2;
            },
            None => {
                pos = pos + 1;
            },
        }
    }
    proof {
        assert(citation_views(out@) =~= citations_in(bytes@));
        lemma_citations_from(bytes@, 0);
        lemma_str_bytes(markdown@);
        assert forall|i: int| 0 <= i < out.len() implies is_char_range(
            bytes@,
            (#[trigger] out[i])@.span.0,
            out[i]@.span.1,
        ) by {
            let c = citation_views(out@)[i];
            assert(c == out[i]@);
            assert(is_marker_span(bytes@, c.span));
            lemma_ascii_boundaries(bytes@, c.span.0);
            lemma_ascii_boundaries(bytes@, c.span.1 - 1);
        }
        assert forall|i: int| 0 <= i < out.len() implies is_marker_span(
            bytes@,
            (#[trigger] out[i])@.span,
        ) by {
            assert(citation_views(out@)[i] == out[i]@);
        }
    }
    out
}

/// Every citation found from `from` on covers a marker that starts at or
/// after `from`, and the citations come in document order without overlap.
pub proof fn lemma_citations_from(bytes: Seq<u8>, from: int)
    requires
        0 <= from,
    ensures
        forall|i: int|
            0 <= i < citations_from(bytes, from).len() ==> is_marker_span(
                bytes,
                (#[trigger] citations_from(bytes, from)[i]).span,
            ) && from <= citations_from(bytes, from)[i].span.0,
        citations_in_order(citations_from(bytes, from)),
    decreases bytes.len() - from,
{
    if from < bytes.len() {
        match marker_at(bytes, from) {
            Some(m) => {
                lemma_marker_at(bytes, from);
                lemma_citations_from(bytes, m.end);
                let rest = citations_from(bytes, m.end);
                let all = citations_from(bytes, from);
                assert(all =~= seq![citation_at(bytes, m)] + rest);
                assert forall|i: int| 0 <= i < all.len() implies is_marker_span(
                    bytes,
                    (#[trigger] all[i]).span,
                ) && from <= all[i].span.0 by {
                    if i > 0 {
                        assert(all[i] == rest[i - 1]);
                    }
                }
                assert forall|i: int, j: int| 0 <= i < j < all.len() implies (#[trigger] all[i]).span.1
                    <= (#[trigger] all[j]).span.0 by {
                    assert(all[j] == rest[j - 1]);
                    if i > 0 {
                        assert(all[i] == rest[i - 1]);
                    }
                }
            },
            None => {
                lemma_citations_from(bytes, from + 1);
            },
        }
    }
}

/// Whether the two bytes `[@`, with which every marker begins, stand at
/// offset `p`.
pub open spec fn opens_marker(bytes: Seq<u8>, p: int) -> bool {
    0 <= p && p + 1 < bytes.len() && bytes[p] == OPEN_BRACKET && bytes[p + 1] == AT_SIGN
}

/// Where no marker starts from `from` on, no citation is found from there
/// on.
pub proof fn lemma_no_citations_from(bytes: Seq<u8>, from: int)
    requires
        forall|p: int| from <= p ==> marker_at(bytes, p) is None,
    ensures
        citations_from(bytes, from) == Seq::<CitationView>::empty(),
    decreases bytes.len() - from,
{
    if 0 <= from < bytes.len() {
        lemma_no_citations_from(bytes, from + 1);
    }
}

/// A text in which no marker starts holds no citation.
pub proof fn lemma_no_markers_no_citations(bytes: Seq<u8>)
    requires
        forall|p: int| marker_at(bytes, p) is None,
    ensures
        citations_in(bytes) == Seq::<CitationView>::empty(),
{
    lemma_no_citations_from(bytes, 0);
}

/// A text in which `[@` stands nowhere holds no citation: no marker starts
/// without it.
pub proof fn lemma_no_opening_no_citations(bytes: Seq<u8>)
    requires
        forall|p: int| !opens_marker(bytes, p),
    ensures
        citations_in(bytes) == Seq::<CitationView>::empty(),
{
    assert forall|p: int| marker_at(bytes, p) is None by {
        assert(!opens_marker(bytes, p));
    }
    lemma_no_markers_no_citations(bytes);
}

/// Scanning is a function of the text: two scans of one text give the same
/// citations.
pub proof fn lemma_rescan_same(bytes: Seq<u8>, first: Seq<Citation>, second: Seq<Citation>)
    requires
        citation_views(first) == citations_in(bytes),
        citation_views(second) == citations_in(bytes),
    ensures
        citation_views(first) == citation_views(second),
        first.len() == second.len(),
{
    assert(citation_views(first).len() == first.len());
    assert(citation_views(second).len() == second.len());
}

} // verus!
