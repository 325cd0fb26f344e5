//! The rewritten document: formatted citations in place of their markers,
//! and the bibliography under its header.

use vstd::prelude::*;
use vstd::seq_lib::{to_multiset_contains, to_multiset_len, to_multiset_remove};
use vstd::string::{StringExecFns, StringSliceAdditionalSpecFns};
use vstd::utf8::{encode_utf8, is_char_boundary, valid_utf8};
use crate::processor::{edit_views, Edit, ProcessedCitation};
use crate::text::{
    is_char_range, lemma_encode_concat, lemma_encode_empty, lemma_str_bytes, substring, trim_end,
    trim_end_range,
};
use crate::whitespace::{lemma_trim_end_chars, trim_end_chars};

verus! {

/// Index of the edit that starts first; of those that start alike, the first.
pub open spec fn first_edit(edits: Seq<Edit>) -> int
    decreases edits.len(),
{
    if edits.len() <= 1 {
        0
    } else {
        let k = first_edit(edits.drop_last());
        if edits.last().start < edits[k].start {
            edits.len() - 1
        } else {
            k
        }
    }
}

/// The text from offset `pos` on with the edits made: up to the edit that
/// starts first the text is kept, then comes that edit's replacement, then
/// what the other edits make of the text from that edit's end on.
pub open spec fn spliced(bytes: Seq<u8>, edits: Seq<Edit>, pos: int) -> Seq<u8>
    decreases edits.len(),
{
    if edits.len() == 0 {
        bytes.subrange(pos, bytes.len() as int)
    } else {
        let k = first_edit(edits);
        proof {
            lemma_first_edit(edits);
        }
        bytes.subrange(pos, edits[k].start) + edits[k].text + spliced(
            bytes,
            edits.remove(k),
            edits[k].end,
        )
    }
}

/// The text with every edit made.
pub open spec fn rewritten(bytes: Seq<u8>, edits: Seq<Edit>) -> Seq<u8> {
    spliced(bytes, edits, 0)
}

/// `a` lies before `b`: it starts before `b` starts and ends by then.
pub open spec fn lies_before(a: Edit, b: Edit) -> bool {
    a.start < b.start && a.end <= b.start
}

/// What `replace_citations` asks of its edits: every span is a range of
/// whole characters of the text, and of any two edits one lies before the
/// other.
pub open spec fn replaceable(bytes: Seq<u8>, edits: Seq<Edit>) -> bool {
    &&& forall|i: int|
        0 <= i < edits.len() ==> is_char_range(bytes, (#[trigger] edits[i]).start, edits[i].end)
    &&& forall|i: int, j: int|
        0 <= i < j < edits.len() ==> lies_before(#[trigger] edits[i], #[trigger] edits[j])
            || lies_before(edits[j], edits[i])
}

/// `first_edit` is an index of the sequence, and no edit starts before the
/// one it names.
pub proof fn lemma_first_edit(edits: Seq<Edit>)
    requires
        edits.len() > 0,
    ensures
        0 <= first_edit(edits) < edits.len(),
        forall|i: int|
            0 <= i < edits.len() ==> edits[first_edit(edits)].start <= (#[trigger] edits[i]).start,
    decreases edits.len(),
{
    if edits.len() > 1 {
        let front = edits.drop_last();
        lemma_first_edit(front);
        let k = first_edit(front);
        assert(front[k] == edits[k]);
        assert forall|i: int| 0 <= i < edits.len() implies edits[first_edit(edits)].start <= (
        #[trigger] edits[i]).start by {
            if i < edits.len() - 1 {
                assert(front[i] == edits[i]);
            }
        }
    }
}

/// The edits that the indices `rest` name, in that order.
pub open spec fn picked(edits: Seq<Edit>, rest: Seq<usize>) -> Seq<Edit> {
    rest.map_values(|i: usize| edits[i as int])
}

/// Index, within `rest`, of the edit that starts first.
fn first_remaining(processed: &[ProcessedCitation], rest: &Vec<usize>) -> (k: usize)
    requires
        rest.len() > 0,
        forall|m: int| 0 <= m < rest.len() ==> (#[trigger] rest[m]) < processed@.len(),
    ensures
        k < rest.len(),
        k == first_edit(picked(edit_views(processed@), rest@)),
{
    let ghost edits = picked(edit_views(processed@), rest@);
    let mut best: usize = 0;
    let mut m: usize = 1;
    proof {
        assert(edits.take(1).len() == 1);
    }
    while m < rest.len()
        invariant
            1 <= m <= rest.len(),
            best < m,
            edits == picked(edit_views(processed@), rest@),
            forall|m: int| 0 <= m < rest.len() ==> (#[trigger] rest[m]) < processed@.len(),
            best == first_edit(edits.take(m as int)),
        decreases rest.len() - m,
    {
        proof {
            assert(edits.take(m + 1).drop_last() =~= edits.take(m as int));
            assert(edits.take(m + 1).last() == edits[m as int]);
            assert(edits.take(m + 1)[best as int] == edits[best as int]);
            assert(edits[m as int] == processed@[rest[m as int] as int]@);
            assert(edits[best as int] == processed@[rest[best as int] as int]@);
        }
        if processed[rest[m]].original_span.0 < processed[rest[best]].original_span.0 {
            best = m;
        }
        m = m + 1;
    }
    proof {
        assert(edits.take(m as int) =~= edits);
    }
    best
}

/// Whether each span starts after the one before it.
fn starts_increase(processed: &[ProcessedCitation]) -> (r: bool)
    ensures
        r == forall|i: int, j: int|
            0 <= i < j < processed@.len() ==> (#[trigger] edit_views(processed@)[i]).start < (
            #[trigger] edit_views(processed@)[j]).start,
{
    let ghost edits = edit_views(processed@);
    let mut i: usize = 1;
    while i < processed.len()
        invariant
            1 <= i,
            edits == edit_views(processed@),
            forall|a: int, b: int|
                0 <= a < b < i && b < processed@.len() ==> (#[trigger] edits[a]).start < (
                #[trigger] edits[b]).start,
        decreases processed.len() - i,
    {
        assert(edits[i as int] == processed@[i as int]@);
        assert(edits[i - 1] == processed@[i - 1]@);
        if processed[i - 1].original_span.0 >= processed[i].original_span.0 {
            return false;
        }
        assert forall|a: int, b: int| 0 <= a < b < i + 1 implies (#[trigger] edits[a]).start < (
        #[trigger] edits[b]).start by {
            if b == i && a < i - 1 {
                assert(edits[a].start < edits[i - 1].start);
            }
        }
        i = i + 1;
    }
    true
}

/// Replaces the spans, which come in the order of their starts, in one pass
/// over the text.
fn replace_in_order(markdown: &str, processed: &[ProcessedCitation]) -> (r: String)
    requires
        replaceable(markdown.spec_bytes(), edit_views(processed@)),
        forall|i: int, j: int|
            0 <= i < j < processed@.len() ==> (#[trigger] edit_views(processed@)[i]).start < (
            #[trigger] edit_views(processed@)[j]).start,
    ensures
        encode_utf8(r@) == rewritten(markdown.spec_bytes(), edit_views(processed@)),
{
    let ghost bytes = markdown.spec_bytes();
    let ghost edits = edit_views(processed@);
    let n: usize = markdown.as_bytes().len();
    let mut out: String = String::new();
    let mut pos: usize = 0;
    let mut i: usize = 0;
    proof {
        lemma_str_bytes(markdown@);
        assert(edits.skip(0) =~= edits);
        assert(encode_utf8(out@) + spliced(bytes, edits, 0) =~= spliced(bytes, edits, 0));
    }
    while i < processed.len()
        invariant
            i <= processed.len(),
            bytes == markdown.spec_bytes(),
            edits == edit_views(processed@),
            n == bytes.len(),
            valid_utf8(bytes),
            replaceable(bytes, edits),
            forall|a: int, b: int|
                0 <= a < b < edits.len() ==> (#[trigger] edits[a]).start < (
                #[trigger] edits[b]).start,
            forall|m: int| i <= m < edits.len() ==> pos <= (#[trigger] edits[m]).start,
            pos <= n,
            is_char_boundary(bytes, pos as int),
            encode_utf8(out@) + spliced(bytes, edits.skip(i as int), pos as int) == rewritten(
                bytes,
                edits,
            ),
        decreases processed.len() - i,
    {
        let ghost left = edits.skip(i as int);
        let ghost done = encode_utf8(out@);
        let e: &ProcessedCitation = &processed[i];
        proof {
            assert(edits[i as int] == e@);
            assert(is_char_range(bytes, edits[i as int].start, edits[i as int].end));
            assert(left[0] == e@);
            assert(distinct_starts(left)) by {
                assert forall|a: int, b: int| 0 <= a < b < left.len() implies (
                #[trigger] left[a]).start != (#[trigger] left[b]).start by {
                    assert(left[a] == edits[i + a] && left[b] == edits[i + b]);
                }
            }
            assert forall|a: int| 0 <= a < left.len() implies left[0].start <= (
            #[trigger] left[a]).start by {
                assert(left[a] == edits[i + a]);
                if a > 0 {
                    assert(edits[i as int].start < edits[i + a].start);
                }
            }
            lemma_first_edit_is(left, 0);
            assert(left.remove(0) =~= edits.skip(i + 1));
            assert forall|m: int| i + 1 <= m < edits.len() implies e@.end <= (
            #[trigger] edits[m]).start by {
                assert(lies_before(edits[i as int], edits[m]) || lies_before(
                    edits[m],
                    edits[i as int],
                ));
            }
        }
        let kept: &str = substring(markdown, pos, e.original_span.0);
        proof {
            lemma_encode_concat(out@, kept@);
            lemma_encode_concat(out@ + kept@, e.formatted@);
        }
        out.append(kept);
        out.append(e.formatted.as_str());
        proof {
            assert(encode_utf8(out@) =~= done + bytes.subrange(pos as int, e@.start) + e@.text);
            assert(encode_utf8(out@) + spliced(bytes, edits.skip(i + 1), e@.end) =~= done + spliced(
                bytes,
                left,
                pos as int,
            ));
        }
        pos = e.original_span.1;
        i = i + 1;
    }
    proof {
        is_char_boundary_end(bytes);
        assert(edits.skip(i as int) =~= Seq::<Edit>::empty());
    }
    let tail: &str = substring(markdown, pos, n);
    proof {
        lemma_encode_concat(out@, tail@);
    }
    out.append(tail);
    out
}

/// Replaces citation markers in the Markdown with formatted citations.
///
/// The spans refer to the text as it is given: each replacement stands where
/// its span stood, whatever the lengths of the replacements and in whatever
/// order they are handed in. The result is what replacing in place gives,
/// span by span from the one that starts last to the one that starts first.
pub fn replace_citations(markdown: &str, processed: &[ProcessedCitation]) -> (r: String)
    requires
        replaceable(markdown.spec_bytes(), edit_views(processed@)),
    ensures
        encode_utf8(r@) == rewritten(markdown.spec_bytes(), edit_views(processed@)),
        encode_utf8(r@) == applied_from_end(markdown.spec_bytes(), edit_views(processed@)),
{
    proof {
        lemma_replaceable_fits(markdown.spec_bytes(), edit_views(processed@));
        lemma_rewrite_from_end(markdown.spec_bytes(), edit_views(processed@));
    }
    if starts_increase(processed) {
        replace_in_order(markdown, processed)
    } else {
        replace_in_any_order(markdown, processed)
    }
}

/// Replaces the spans, in whatever order they come, taking each time the one
/// that starts first among those that are left.
fn replace_in_any_order(markdown: &str, processed: &[ProcessedCitation]) -> (r: String)
    requires
        replaceable(markdown.spec_bytes(), edit_views(processed@)),
    ensures
        encode_utf8(r@) == rewritten(markdown.spec_bytes(), edit_views(processed@)),
{
    let ghost bytes = markdown.spec_bytes();
    let ghost edits = edit_views(processed@);
    let n: usize = markdown.as_bytes().len();
    let mut rest: Vec<usize> = Vec::new();
    let mut i: usize = 0;
    while i < processed.len()
        invariant
            i <= processed.len(),
            rest.len() == i,
            forall|m: int| 0 <= m < i ==> (#[trigger] rest[m]) == m,
        decreases processed.len() - i,
    {
        rest.push(i);
        i = i + 1;
    }
    let mut out: String = String::new();
    let mut pos: usize = 0;
    proof {
        lemma_str_bytes(markdown@);
        assert(picked(edits, rest@) =~= edits);
        assert(encode_utf8(out@) + spliced(bytes, edits, 0) =~= spliced(bytes, edits, 0));
    }
    while rest.len() > 0
        invariant
            bytes == markdown.spec_bytes(),
            edits == edit_views(processed@),
            n == bytes.len(),
            valid_utf8(bytes),
            forall|m: int| 0 <= m < rest.len() ==> (#[trigger] rest[m]) < processed@.len(),
            replaceable(bytes, picked(edits, rest@)),
            forall|m: int| 0 <= m < rest.len() ==> pos <= (#[trigger] picked(edits, rest@)[m]).start,
            pos <= n,
            is_char_boundary(bytes, pos as int),
            encode_utf8(out@) + spliced(bytes, picked(edits, rest@), pos as int) == rewritten(
                bytes,
                edits,
            ),
        decreases rest.len(),
    {
        let ghost now = picked(edits, rest@);
        let ghost done = encode_utf8(out@);
        let k: usize = first_remaining(processed, &rest);
        let e: &ProcessedCitation = &processed[rest[k]];
        proof {
            lemma_first_edit(now);
            assert(now[k as int] == e@);
            assert(is_char_range(bytes, now[k as int].start, now[k as int].end));
        }
        let kept: &str = substring(markdown, pos, e.original_span.0);
        proof {
            lemma_encode_concat(out@, kept@);
            lemma_encode_concat(out@ + kept@, e.formatted@);
        }
        out.append(kept);
        out.append(e.formatted.as_str());
        let ghost old_pos = pos;
        pos = e.original_span.1;
        rest.remove(k);
        proof {
            let next = picked(edits, rest@);
            assert(next =~= now.remove(k as int));
            assert forall|m: int| 0 <= m < next.len() implies pos <= (#[trigger] next[m]).start by {
                let o = if m < k {
                    m
                } else {
                    m + 1
                };
                assert(next[m] == now[o]);
                if o < k {
                    assert(lies_before(now[o], now[k as int]) || lies_before(
                        now[k as int],
                        now[o],
                    ));
                } else {
                    assert(lies_before(now[k as int], now[o]) || lies_before(
                        now[o],
                        now[k as int],
                    ));
                }
            }
            assert forall|a: int, b: int| 0 <= a < b < next.len() implies lies_before(
                #[trigger] next[a],
                #[trigger] next[b],
            ) || lies_before(next[b], next[a]) by {
                let oa = if a < k {
                    a
                } else {
                    a + 1
                };
                let ob = if b < k {
                    b
                } else {
                    b + 1
                };
                assert(next[a] == now[oa]);
                assert(next[b] == now[ob]);
                assert(lies_before(now[oa], now[ob]) || lies_before(now[ob], now[oa]));
            }
            assert forall|m: int| 0 <= m < next.len() implies is_char_range(
                bytes,
                (#[trigger] next[m]).start,
                next[m].end,
            ) by {
                let o = if m < k {
                    m
                } else {
                    m + 1
                };
                assert(next[m] == now[o]);
            }
            assert(encode_utf8(out@) =~= done + bytes.subrange(old_pos as int, e@.start) + e@.text);
            assert(encode_utf8(out@) + spliced(bytes, next, pos as int) =~= done + spliced(
                bytes,
                now,
                old_pos as int,
            ));
        }
    }
    proof {
        is_char_boundary_end(bytes);
    }
    let tail: &str = substring(markdown, pos, n);
    proof {
        lemma_encode_concat(out@, tail@);
        assert(picked(edits, rest@) =~= Seq::<Edit>::empty());
    }
    out.append(tail);
    out
}

/// Whether the spans can be replaced in `markdown`: whether they meet what
/// `replace_citations` asks of them.
pub fn spans_replaceable(markdown: &str, processed: &[ProcessedCitation]) -> (r: bool)
    ensures
        r == replaceable(markdown.spec_bytes(), edit_views(processed@)),
{
    let ghost bytes = markdown.spec_bytes();
    let ghost edits = edit_views(processed@);
    let n: usize = markdown.as_bytes().len();
    let mut i: usize = 0;
    while i < processed.len()
        invariant
            i <= processed.len(),
            bytes == markdown.spec_bytes(),
            edits == edit_views(processed@),
            n == bytes.len(),
            forall|k: int|
                0 <= k < i ==> is_char_range(bytes, (#[trigger] edits[k]).start, edits[k].end),
            forall|a: int, b: int|
                0 <= a < b < i ==> lies_before(#[trigger] edits[a], #[trigger] edits[b])
                    || lies_before(edits[b], edits[a]),
        decreases processed.len() - i,
    {
        let (start, end) = (processed[i].original_span.0, processed[i].original_span.1);
        assert(edits[i as int] == processed@[i as int]@);
        if !(start <= end && end <= n && markdown.is_char_boundary(start)
            && markdown.is_char_boundary(end)) {
            assert(!is_char_range(bytes, edits[i as int].start, edits[i as int].end));
            return false;
        }
        let mut j: usize = 0;
        while j < i
            invariant
                j <= i < processed.len(),
                edits == edit_views(processed@),
                start == processed[i as int].original_span.0,
                end == processed[i as int].original_span.1,
                forall|a: int|
                    0 <= a < j ==> lies_before(#[trigger] edits[a], edits[i as int])
                        || lies_before(edits[i as int], edits[a]),
            decreases i - j,
        {
            let (other_start, other_end) = (
                processed[j].original_span.0,
                processed[j].original_span.1,
            );
            assert(edits[j as int] == processed@[j as int]@);
            assert(edits[i as int] == processed@[i as int]@);
            let before: bool = other_start < start && other_end <= start;
            let after: bool = start < other_start && end <= other_start;
            if !before && !after {
                assert(!(lies_before(edits[j as int], edits[i as int]) || lies_before(
                    edits[i as int],
                    edits[j as int],
                )));
                return false;
            }
            j = j + 1;
        }
        i = i + 1;
    }
    true
}

/// Replaces citation markers in the Markdown with formatted citations where
/// the spans allow it, and gives nothing where they do not.
pub fn try_replace_citations(markdown: &str, processed: &[ProcessedCitation]) -> (r: Option<
    String,
>)
    ensures
        match r {
            Some(text) => replaceable(markdown.spec_bytes(), edit_views(processed@))
                && encode_utf8(text@) == rewritten(
                markdown.spec_bytes(),
                edit_views(processed@),
            ),
            None => !replaceable(markdown.spec_bytes(), edit_views(processed@)),
        },
{
    if spans_replaceable(markdown, processed) {
        Some(replace_citations(markdown, processed))
    } else {
        None
    }
}

/// The end of valid UTF-8 text is a character boundary.
proof fn is_char_boundary_end(bytes: Seq<u8>)
    requires
        valid_utf8(bytes),
    ensures
        is_char_boundary(bytes, bytes.len() as int),
{
    vstd::utf8::is_char_boundary_start_end_of_seq(bytes);
}

/// The document: the content without trailing whitespace, and, where a
/// bibliography is given and not empty, a blank line, the header, a blank
/// line and the bibliography after it.
pub open spec fn assembled(content: Seq<u8>, bibliography: Option<Seq<u8>>, header: Seq<u8>) -> Seq<
    u8,
> {
    let body = trim_end(content);
    let blank = encode_utf8("\n\n"@);
    match bibliography {
        Some(b) => if b.len() > 0 {
            body + blank + header + blank + b
        } else {
            body
        },
        None => body,
    }
}

/// The bytes of an optional string slice.
pub open spec fn option_str_bytes(s: Option<&str>) -> Option<Seq<u8>> {
    match s {
        Some(s) => Some(s.spec_bytes()),
        None => None,
    }
}

/// The characters of an optional string slice.
pub open spec fn option_str_chars(s: Option<&str>) -> Option<Seq<char>> {
    match s {
        Some(s) => Some(s@),
        None => None,
    }
}

/// The document as characters: the content without trailing whitespace,
/// and, where a bibliography is given and not empty, a blank line, the
/// header, a blank line and the bibliography after it.
pub open spec fn assembled_text(
    content: Seq<char>,
    bibliography: Option<Seq<char>>,
    header: Seq<char>,
) -> Seq<char> {
    let body = trim_end_chars(content);
    match bibliography {
        Some(b) => if b.len() > 0 {
            body + "\n\n"@ + header + "\n\n"@ + b
        } else {
            body
        },
        None => body,
    }
}

/// Generates the final output with formatted citations and bibliography.
pub fn generate_output(content: &str, bibliography: Option<&str>, bib_header: &str) -> (r: String)
    ensures
        r@ == assembled_text(content@, option_str_chars(bibliography), bib_header@),
        encode_utf8(r@) == assembled(
            content.spec_bytes(),
            option_str_bytes(bibliography),
            bib_header.spec_bytes(),
        ),
{
    let bytes: &[u8] = content.as_bytes();
    proof {
        lemma_str_bytes(content@);
        assert(bytes@.subrange(0, bytes@.len() as int) =~= bytes@);
    }
    let end: usize = trim_end_range(bytes, 0, bytes.len());
    let body: &str = substring(content, 0, end);
    let mut out: String = body.to_owned();
    proof {
        lemma_trim_end_chars(content@);
        vstd::utf8::encode_utf8_decode_utf8(body@);
        vstd::utf8::encode_utf8_decode_utf8(trim_end_chars(content@));
        assert(out@ == trim_end_chars(content@));
    }
    if let Some(bib) = bibliography {
        proof {
            lemma_encode_empty(bib@);
        }
        if !bib.is_empty() {
            proof {
                let blank = "\n\n"@;
                lemma_encode_concat(out@, blank);
                lemma_encode_concat(out@ + blank, bib_header@);
                lemma_encode_concat(out@ + blank + bib_header@, blank);
                lemma_encode_concat(out@ + blank + bib_header@ + blank, bib@);
            }
            out.append("\n\n");
            out.append(bib_header);
            out.append("\n\n");
            out.append(bib);
        }
    }
    out
}

/// Without edits the text stays as it is.
pub proof fn lemma_rewrite_none(bytes: Seq<u8>)
    ensures
        rewritten(bytes, Seq::<Edit>::empty()) == bytes,
{
    assert(bytes.subrange(0, bytes.len() as int) =~= bytes);
}

/// One edit leaves what stands before its span and what stands after it, and
/// puts its text between them, whether that text is shorter than the span,
/// as long or longer.
pub proof fn lemma_rewrite_one(bytes: Seq<u8>, e: Edit)
    requires
        0 <= e.start <= e.end <= bytes.len(),
    ensures
        rewritten(bytes, seq![e]) == bytes.subrange(0, e.start) + e.text + bytes.subrange(
            e.end,
            bytes.len() as int,
        ),
        rewritten(bytes, seq![e]).len() == bytes.len() - (e.end - e.start) + e.text.len(),
{
    let edits = seq![e];
    assert(edits.remove(0) =~= Seq::<Edit>::empty());
    assert(spliced(bytes, edits.remove(0), e.end) == bytes.subrange(e.end, bytes.len() as int));
}

/// Two edits of which one lies before the other give the same text in
/// either order: the text before the first, its replacement, the text
/// between the two, the replacement of the second, and the text after it.
pub proof fn lemma_rewrite_two(bytes: Seq<u8>, a: Edit, b: Edit)
    requires
        0 <= a.start <= a.end <= b.start <= b.end <= bytes.len(),
        a.start < b.start,
    ensures
        rewritten(bytes, seq![a, b]) == rewritten(bytes, seq![b, a]),
        rewritten(bytes, seq![a, b]) == bytes.subrange(0, a.start) + a.text + bytes.subrange(
            a.end,
            b.start,
        ) + b.text + bytes.subrange(b.end, bytes.len() as int),
{
    let ab = seq![a, b];
    let ba = seq![b, a];
    reveal_with_fuel(first_edit, 3);
    assert(ab.drop_last() =~= seq![a]);
    assert(ba.drop_last() =~= seq![b]);
    assert(first_edit(seq![a]) == 0);
    assert(first_edit(seq![b]) == 0);
    assert(first_edit(ab) == 0);
    assert(first_edit(ba) == 1);
    assert(ab.remove(0) =~= seq![b]);
    assert(ba.remove(1) =~= seq![b]);
    assert(seq![b].remove(0) =~= Seq::<Edit>::empty());
    assert(spliced(bytes, seq![b].remove(0), b.end) == bytes.subrange(b.end, bytes.len() as int));
    assert(spliced(bytes, seq![b], a.end) == bytes.subrange(a.end, b.start) + b.text
        + bytes.subrange(b.end, bytes.len() as int));
    assert(rewritten(bytes, ab) =~= bytes.subrange(0, a.start) + a.text + bytes.subrange(
        a.end,
        b.start,
    ) + b.text + bytes.subrange(b.end, bytes.len() as int));
}

/// No two of the edits start at the same offset.
pub open spec fn distinct_starts(edits: Seq<Edit>) -> bool {
    forall|i: int, j: int|
        0 <= i < j < edits.len() ==> (#[trigger] edits[i]).start != (#[trigger] edits[j]).start
}

/// The order in which the edits are handed in does not matter: two
/// sequences that hold the same edits, none of which start alike, give the
/// same text.
pub proof fn lemma_rewrite_any_order(bytes: Seq<u8>, a: Seq<Edit>, b: Seq<Edit>, pos: int)
    requires
        distinct_starts(a),
        a.to_multiset() == b.to_multiset(),
    ensures
        spliced(bytes, a, pos) == spliced(bytes, b, pos),
    decreases a.len(),
{
    to_multiset_len(a);
    to_multiset_len(b);
    if a.len() > 0 {
        let ka = first_edit(a);
        let kb = first_edit(b);
        lemma_first_edit(a);
        lemma_first_edit(b);
        to_multiset_contains(a, b[kb]);
        to_multiset_contains(b, b[kb]);
        to_multiset_contains(a, a[ka]);
        to_multiset_contains(b, a[ka]);
        assert(b.contains(b[kb]));
        assert(a.contains(a[ka]));
        let m = choose|m: int| 0 <= m < a.len() && a[m] == b[kb];
        let j = choose|j: int| 0 <= j < b.len() && b[j] == a[ka];
        assert(a[ka].start <= a[m].start);
        assert(b[kb].start <= b[j].start);
        assert(m == ka);
        to_multiset_remove(a, ka);
        to_multiset_remove(b, kb);
        let rest = a.remove(ka);
        assert(distinct_starts(rest)) by {
            assert forall|x: int, y: int| 0 <= x < y < rest.len() implies (#[trigger] rest[x]).start
                != (#[trigger] rest[y]).start by {
                let ox = if x < ka {
                    x
                } else {
                    x + 1
                };
                let oy = if y < ka {
                    y
                } else {
                    y + 1
                };
                assert(rest[x] == a[ox] && rest[y] == a[oy]);
            }
        }
        lemma_rewrite_any_order(bytes, rest, b.remove(kb), a[ka].end);
    }
}

/// Edits that can be replaced do not start alike.
pub proof fn lemma_replaceable_distinct(bytes: Seq<u8>, edits: Seq<Edit>)
    requires
        replaceable(bytes, edits),
    ensures
        distinct_starts(edits),
{
    assert forall|i: int, j: int| 0 <= i < j < edits.len() implies (#[trigger] edits[i]).start != (
    #[trigger] edits[j]).start by {
        assert(lies_before(edits[i], edits[j]) || lies_before(edits[j], edits[i]));
    }
}

/// The text with one edit made in place.
pub open spec fn applied(text: Seq<u8>, e: Edit) -> Seq<u8> {
    text.subrange(0, e.start) + e.text + text.subrange(e.end, text.len() as int)
}

/// Index of the edit that starts last; of those that start alike, the first.
pub open spec fn last_edit(edits: Seq<Edit>) -> int
    decreases edits.len(),
{
    if edits.len() <= 1 {
        0
    } else {
        let k = last_edit(edits.drop_last());
        if edits.last().start > edits[k].start {
            edits.len() - 1
        } else {
            k
        }
    }
}

/// The text after the edits are made in place one after the other, from the
/// one that starts last to the one that starts first, each with the offsets
/// that it was given for the text as it was.
pub open spec fn applied_from_end(text: Seq<u8>, edits: Seq<Edit>) -> Seq<u8>
    decreases edits.len(),
{
    if edits.len() == 0 {
        text
    } else {
        let k = last_edit(edits);
        proof {
            lemma_last_edit(edits);
        }
        applied_from_end(applied(text, edits[k]), edits.remove(k))
    }
}

/// The spans of the edits lie in `pos..end`, and of any two edits one lies
/// before the other.
pub open spec fn fits(edits: Seq<Edit>, pos: int, end: int) -> bool {
    &&& forall|i: int|
        0 <= i < edits.len() ==> pos <= (#[trigger] edits[i]).start <= edits[i].end <= end
    &&& forall|i: int, j: int|
        0 <= i < j < edits.len() ==> lies_before(#[trigger] edits[i], #[trigger] edits[j])
            || lies_before(edits[j], edits[i])
}

/// `last_edit` is an index of the sequence, and no edit starts after the
/// one it names.
pub proof fn lemma_last_edit(edits: Seq<Edit>)
    requires
        edits.len() > 0,
    ensures
        0 <= last_edit(edits) < edits.len(),
        forall|i: int|
            0 <= i < edits.len() ==> (#[trigger] edits[i]).start <= edits[last_edit(edits)].start,
    decreases edits.len(),
{
    if edits.len() > 1 {
        let front = edits.drop_last();
        lemma_last_edit(front);
        let k = last_edit(front);
        assert(front[k] == edits[k]);
        assert forall|i: int| 0 <= i < edits.len() implies (#[trigger] edits[i]).start
            <= edits[last_edit(edits)].start by {
            if i < edits.len() - 1 {
                assert(front[i] == edits[i]);
            }
        }
    }
}

/// Edits that fit a range do not start alike, and they fit every wider
/// range.
proof fn lemma_fits(edits: Seq<Edit>, pos: int, end: int)
    requires
        fits(edits, pos, end),
    ensures
        distinct_starts(edits),
        forall|lower: int, upper: int| lower <= pos && end <= upper ==> fits(edits, lower, upper),
{
    assert forall|i: int, j: int| 0 <= i < j < edits.len() implies (#[trigger] edits[i]).start != (
    #[trigger] edits[j]).start by {
        assert(lies_before(edits[i], edits[j]) || lies_before(edits[j], edits[i]));
    }
}

/// What is left of edits that fit a range after one is taken out: the
/// others still fit, after it where it started first, before it where it
/// started last.
proof fn lemma_fits_remove(edits: Seq<Edit>, pos: int, end: int, k: int)
    requires
        fits(edits, pos, end),
        0 <= k < edits.len(),
    ensures
        fits(edits.remove(k), pos, end),
        (forall|i: int| 0 <= i < edits.len() ==> edits[k].start <= (#[trigger] edits[i]).start)
            ==> fits(edits.remove(k), edits[k].end, end),
        (forall|i: int| 0 <= i < edits.len() ==> (#[trigger] edits[i]).start <= edits[k].start)
            ==> fits(edits.remove(k), pos, edits[k].start),
{
    let rest = edits.remove(k);
    assert forall|i: int| 0 <= i < rest.len() implies {
        &&& pos <= (#[trigger] rest[i]).start <= rest[i].end <= end
        &&& (lies_before(rest[i], edits[k]) || lies_before(edits[k], rest[i]))
    } by {
        let o = if i < k {
            i
        } else {
            i + 1
        };
        assert(rest[i] == edits[o]);
        if o < k {
            assert(lies_before(edits[o], edits[k]) || lies_before(edits[k], edits[o]));
        } else {
            assert(lies_before(edits[k], edits[o]) || lies_before(edits[o], edits[k]));
        }
    }
    assert forall|i: int, j: int| 0 <= i < j < rest.len() implies lies_before(
        #[trigger] rest[i],
        #[trigger] rest[j],
    ) || lies_before(rest[j], rest[i]) by {
        let oi = if i < k {
            i
        } else {
            i + 1
        };
        let oj = if j < k {
            j
        } else {
            j + 1
        };
        assert(rest[i] == edits[oi] && rest[j] == edits[oj]);
        assert(lies_before(edits[oi], edits[oj]) || lies_before(edits[oj], edits[oi]));
    }
    if forall|i: int| 0 <= i < edits.len() ==> edits[k].start <= (#[trigger] edits[i]).start {
        assert forall|i: int| 0 <= i < rest.len() implies edits[k].end <= (
        #[trigger] rest[i]).start by {
            let o = if i < k {
                i
            } else {
                i + 1
            };
            assert(rest[i] == edits[o]);
        }
    }
    if forall|i: int| 0 <= i < edits.len() ==> (#[trigger] edits[i]).start <= edits[k].start {
        assert forall|i: int| 0 <= i < rest.len() implies (#[trigger] rest[i]).end
            <= edits[k].start by {
            let o = if i < k {
                i
            } else {
                i + 1
            };
            assert(rest[i] == edits[o]);
        }
    }
}

/// Among edits that do not start alike, the one before which none starts
/// is the one that `first_edit` names.
proof fn lemma_first_edit_is(edits: Seq<Edit>, k: int)
    requires
        distinct_starts(edits),
        0 <= k < edits.len(),
        forall|i: int| 0 <= i < edits.len() ==> edits[k].start <= (#[trigger] edits[i]).start,
    ensures
        first_edit(edits) == k,
{
    lemma_first_edit(edits);
    let f = first_edit(edits);
    assert(edits[k].start <= edits[f].start);
    assert(edits[f].start <= edits[k].start);
}

/// Among edits that do not start alike, the one after which none starts is
/// the one that `last_edit` names.
proof fn lemma_last_edit_is(edits: Seq<Edit>, k: int)
    requires
        distinct_starts(edits),
        0 <= k < edits.len(),
        forall|i: int| 0 <= i < edits.len() ==> (#[trigger] edits[i]).start <= edits[k].start,
    ensures
        last_edit(edits) == k,
{
    lemma_last_edit(edits);
    let l = last_edit(edits);
    assert(edits[k].start <= edits[l].start);
    assert(edits[l].start <= edits[k].start);
}

/// What follows the last of the edits has no part in what they make of the
/// text before it.
proof fn lemma_spliced_prefix(text: Seq<u8>, p: int, edits: Seq<Edit>, pos: int)
    requires
        0 <= pos <= p <= text.len(),
        fits(edits, pos, p),
    ensures
        spliced(text, edits, pos) == spliced(text.take(p), edits, pos) + text.skip(p),
    decreases edits.len(),
{
    if edits.len() == 0 {
        assert(text.subrange(pos, text.len() as int) =~= text.take(p).subrange(pos, p) + text.skip(
            p,
        ));
    } else {
        let k = first_edit(edits);
        lemma_first_edit(edits);
        let e = edits[k];
        lemma_fits_remove(edits, pos, p, k);
        lemma_spliced_prefix(text, p, edits.remove(k), e.end);
        assert(text.subrange(pos, e.start) =~= text.take(p).subrange(pos, e.start));
        assert(spliced(text, edits, pos) =~= spliced(text.take(p), edits, pos) + text.skip(p));
    }
}

/// Among two or more edits that do not start alike, the one that starts
/// first is not the one that starts last.
proof fn lemma_first_is_not_last(edits: Seq<Edit>)
    requires
        edits.len() > 1,
        distinct_starts(edits),
    ensures
        first_edit(edits) != last_edit(edits),
{
    lemma_first_edit(edits);
    lemma_last_edit(edits);
    let k = last_edit(edits);
    if first_edit(edits) == k {
        let other = if k == 0 {
            1int
        } else {
            0int
        };
        assert(edits[other].start <= edits[k].start && edits[k].start <= edits[other].start);
    }
}

/// Index of the element of index `k` after the element of index `gone` is
/// taken out.
spec fn index_without(k: int, gone: int) -> int {
    if k < gone {
        k
    } else {
        k - 1
    }
}

/// Taking out two elements gives the same whichever is taken out first.
proof fn lemma_remove_two(edits: Seq<Edit>, a: int, b: int)
    requires
        0 <= a < edits.len(),
        0 <= b < edits.len(),
        a != b,
    ensures
        edits.remove(a)[index_without(b, a)] == edits[b],
        edits.remove(b)[index_without(a, b)] == edits[a],
        edits.remove(a).remove(index_without(b, a)) == edits.remove(b).remove(index_without(a, b)),
{
    assert(edits.remove(a).remove(index_without(b, a)) =~= edits.remove(b).remove(
        index_without(a, b),
    ));
}

/// After the edit that starts first is taken out, the one that starts last
/// still does; after the one that starts last is taken out, the one that
/// starts first still does.
proof fn lemma_ends_stay(edits: Seq<Edit>)
    requires
        edits.len() > 1,
        distinct_starts(edits),
    ensures
        last_edit(edits.remove(first_edit(edits))) == index_without(
            last_edit(edits),
            first_edit(edits),
        ),
        first_edit(edits.remove(last_edit(edits))) == index_without(
            first_edit(edits),
            last_edit(edits),
        ),
{
    let k = last_edit(edits);
    let kf = first_edit(edits);
    lemma_first_edit(edits);
    lemma_last_edit(edits);
    lemma_first_is_not_last(edits);
    lemma_remove_two(edits, kf, k);
    let after = edits.remove(kf);
    let others = edits.remove(k);
    let k1 = index_without(k, kf);
    let kf1 = index_without(kf, k);
    assert forall|i: int| 0 <= i < after.len() implies (#[trigger] after[i]).start
        <= after[k1].start by {
        let o = if i < kf {
            i
        } else {
            i + 1
        };
        assert(after[i] == edits[o]);
    }
    assert forall|i: int| 0 <= i < others.len() implies others[kf1].start <= (
    #[trigger] others[i]).start by {
        let o = if i < k {
            i
        } else {
            i + 1
        };
        assert(others[i] == edits[o]);
    }
    assert(distinct_starts(after)) by {
        assert forall|x: int, y: int| 0 <= x < y < after.len() implies (#[trigger] after[x]).start
            != (#[trigger] after[y]).start by {
            let ox = if x < kf {
                x
            } else {
                x + 1
            };
            let oy = if y < kf {
                y
            } else {
                y + 1
            };
            assert(after[x] == edits[ox] && after[y] == edits[oy]);
        }
    }
    assert(distinct_starts(others)) by {
        assert forall|x: int, y: int| 0 <= x < y < others.len() implies (
        #[trigger] others[x]).start != (#[trigger] others[y]).start by {
            let ox = if x < k {
                x
            } else {
                x + 1
            };
            let oy = if y < k {
                y
            } else {
                y + 1
            };
            assert(others[x] == edits[ox] && others[y] == edits[oy]);
        }
    }
    lemma_last_edit_is(after, k1);
    lemma_first_edit_is(others, kf1);
}

/// The edit that starts last can be made by itself: the others make of the
/// text before it what they make of it anyway.
proof fn lemma_peel_last(text: Seq<u8>, edits: Seq<Edit>, pos: int)
    requires
        edits.len() > 0,
        0 <= pos,
        fits(edits, pos, text.len() as int),
    ensures
        spliced(text, edits, pos) == spliced(
            text.take(edits[last_edit(edits)].start),
            edits.remove(last_edit(edits)),
            pos,
        ) + edits[last_edit(edits)].text + text.subrange(
            edits[last_edit(edits)].end,
            text.len() as int,
        ),
    decreases edits.len(),
{
    let n = text.len() as int;
    let k = last_edit(edits);
    lemma_last_edit(edits);
    let e = edits[k];
    let front = text.take(e.start);
    let others = edits.remove(k);
    let tail = e.text + text.subrange(e.end, n);
    if edits.len() == 1 {
        assert(others =~= Seq::<Edit>::empty());
        assert(spliced(front, others, pos) =~= text.subrange(pos, e.start));
        assert(spliced(text, others, e.end) == text.subrange(e.end, n));
        assert(first_edit(edits) == 0);
        assert(spliced(text, edits, pos) =~= text.subrange(pos, e.start) + tail);
    } else {
        let kf = first_edit(edits);
        lemma_first_edit(edits);
        let f = edits[kf];
        let after = edits.remove(kf);
        assert(distinct_starts(edits)) by {
            lemma_fits(edits, pos, n);
        }
        lemma_first_is_not_last(edits);
        lemma_ends_stay(edits);
        lemma_remove_two(edits, kf, k);
        let k1 = index_without(k, kf);
        let kf1 = index_without(kf, k);
        let rest = after.remove(k1);
        assert(rest == others.remove(kf1));
        assert(fits(after, f.end, n)) by {
            lemma_fits_remove(edits, pos, n, kf);
        }
        assert(f.start <= e.start);
        assert(pos <= f.start) by {
            assert(pos <= edits[kf].start);
        }
        lemma_peel_last(text, after, f.end);
        let inner = spliced(front, rest, f.end);
        assert(spliced(text, after, f.end) == inner + e.text + text.subrange(e.end, n));
        assert(front.subrange(pos, f.start) =~= text.subrange(pos, f.start));
        assert(spliced(text, edits, pos) == text.subrange(pos, f.start) + f.text + spliced(
            text,
            after,
            f.end,
        ));
        assert(spliced(front, others, pos) == front.subrange(pos, f.start) + f.text + inner);
        assert(text.subrange(pos, f.start) + f.text + (inner + e.text + text.subrange(e.end, n))
            =~= (text.subrange(pos, f.start) + f.text + inner) + e.text + text.subrange(e.end, n));
    }
}

/// Making the edits in place from the last to the first gives the rewritten
/// text.
pub proof fn lemma_rewrite_from_end(text: Seq<u8>, edits: Seq<Edit>)
    requires
        fits(edits, 0, text.len() as int),
    ensures
        applied_from_end(text, edits) == rewritten(text, edits),
    decreases edits.len(),
{
    let n = text.len() as int;
    if edits.len() == 0 {
        assert(text.subrange(0, n) =~= text);
    } else {
        let k = last_edit(edits);
        lemma_last_edit(edits);
        let e = edits[k];
        let others = edits.remove(k);
        let next = applied(text, e);
        lemma_fits_remove(edits, 0, n, k);
        lemma_fits(others, 0, e.start);
        lemma_rewrite_from_end(next, others);
        lemma_spliced_prefix(next, e.start, others, 0);
        lemma_peel_last(text, edits, 0);
        assert(next.take(e.start) =~= text.take(e.start));
        assert(next.skip(e.start) =~= e.text + text.subrange(e.end, n));
        assert(applied_from_end(text, edits) =~= rewritten(text, edits));
    }
}

/// Edits that can be replaced fit the text.
pub proof fn lemma_replaceable_fits(bytes: Seq<u8>, edits: Seq<Edit>)
    requires
        replaceable(bytes, edits),
    ensures
        fits(edits, 0, bytes.len() as int),
{
    assert forall|i: int| 0 <= i < edits.len() implies 0 <= (#[trigger] edits[i]).start
        <= edits[i].end <= bytes.len() by {
        assert(is_char_range(bytes, edits[i].start, edits[i].end));
    }
}

} // verus!
