//! Citation clusters: the groups `[@a; @b]`, and runs of markers that only
//! blanks separate.

use vstd::prelude::*;
use vstd::string::StringSliceAdditionalSpecFns;
use vstd::utf8::{encode_utf8, valid_utf8};
use crate::locator::{lemma_parsed_locator, parse_locator_range, parsed_locator};
use crate::markdown::{
    citation_at, citation_views, citations_from, citations_in, citations_in_order,
    extract_citations, is_marker_span, lemma_citations_from, lemma_marker_at,
    lemma_no_markers_no_citations, marker_at, opens_marker, Citation, CitationView,
};
use crate::scan::{
    find_byte, find_in, lemma_find_byte, AT_SIGN, CLOSE_BRACKET, COMMA, OPEN_BRACKET, SEMICOLON,
    SPACE, TAB,
};
use crate::text::{
    clone_option, is_char_range, lemma_ascii_boundaries, lemma_str_bytes, option_bytes,
    substring, trim, trim_range,
};

verus! {

/// An individual citation element (a single @id).
#[derive(Debug, PartialEq)]
pub struct CitationItem {
    /// The citation key (e.g., "item-1" or "pmid:12345")
    pub id: String,
    /// Optional locator value (e.g., "42" for page 42)
    pub locator: Option<String>,
    /// Optional locator label (e.g., "page", "chapter")
    pub label: Option<String>,
    /// Optional URL associated with the citation
    pub url: Option<String>,
}

/// A group of citations that are formatted as one unit.
#[derive(Debug, PartialEq)]
pub struct CitationCluster {
    /// The citation items in this cluster
    pub items: Vec<CitationItem>,
    /// Start and end byte positions covering the entire cluster in the source text
    pub span: (usize, usize),
}

/// An item as the contracts see it: its texts as bytes.
pub struct ItemView {
    pub id: Seq<u8>,
    pub locator: Option<Seq<u8>>,
    pub label: Option<Seq<u8>>,
    pub url: Option<Seq<u8>>,
}

/// A cluster as the contracts see it.
pub struct ClusterView {
    pub items: Seq<ItemView>,
    pub span: (int, int),
}

impl View for CitationItem {
    type V = ItemView;

    open spec fn view(&self) -> ItemView {
        ItemView {
            id: encode_utf8(self.id@),
            locator: option_bytes(self.locator),
            label: option_bytes(self.label),
            url: option_bytes(self.url),
        }
    }
}

/// The views of a sequence of items.
pub open spec fn item_views(items: Seq<CitationItem>) -> Seq<ItemView> {
    items.map_values(|i: CitationItem| i@)
}

impl View for CitationCluster {
    type V = ClusterView;

    open spec fn view(&self) -> ClusterView {
        ClusterView {
            items: item_views(self.items@),
            span: (self.span.0 as int, self.span.1 as int),
        }
    }
}

/// The views of a sequence of clusters.
pub open spec fn cluster_views(clusters: Seq<CitationCluster>) -> Seq<ClusterView> {
    clusters.map_values(|c: CitationCluster| c@)
}

impl Clone for CitationItem {
    fn clone(&self) -> (r: Self)
        ensures
            r == *self,
    {
        CitationItem {
            id: self.id.clone(),
            locator: clone_option(&self.locator),
            label: clone_option(&self.label),
            url: clone_option(&self.url),
        }
    }
}

impl Clone for CitationCluster {
    fn clone(&self) -> (r: Self)
        ensures
            r@ == self@,
    {
        let mut items: Vec<CitationItem> = Vec::new();
        let mut i: usize = 0;
        while i < self.items.len()
            invariant
                i <= self.items.len(),
                item_views(items@) == item_views(self.items@).take(i as int),
            decreases self.items.len() - i,
        {
            let item: CitationItem = self.items[i].clone();
            proof {
                let ghost_before = item_views(items@);
                assert(item@ == self.items@[i as int]@);
                assert(item_views(items@.push(item)) =~= ghost_before.push(item@));
                assert(item_views(self.items@).take(i + 1) =~= item_views(self.items@).take(
                    i as int,
                ).push(item@));
            }
            items.push(item);
            i = i + 1;
        }
        proof {
            assert(item_views(self.items@).take(i as int) =~= item_views(self.items@));
        }
        CitationCluster { items, span: (self.span.0, self.span.1) }
    }
}

/// The item that one part of a group stands for. The part is trimmed and must
/// then begin with `@`. What follows, up to the first comma, is the key; what
/// follows the comma is the locator text. A part that does not begin with `@`
/// stands for nothing.
pub open spec fn group_item(part: Seq<u8>) -> Option<ItemView> {
    let t = trim(part);
    let body = t.skip(1);
    let c = find_byte(body, 0, COMMA);
    let locator = parsed_locator(body.skip(c + 1));
    if !(t.len() > 0 && t[0] == AT_SIGN) {
        None
    } else if c < body.len() {
        Some(
            ItemView {
                id: trim(body.take(c)),
                locator: locator.locator,
                label: locator.label,
                url: None,
            },
        )
    } else {
        Some(ItemView { id: trim(body), locator: None, label: None, url: None })
    }
}

/// The items of the parts of `inner` that semicolons separate, from offset
/// `from` on.
pub open spec fn group_items(inner: Seq<u8>, from: int) -> Seq<ItemView>
    decreases inner.len() - from,
{
    if from < 0 || from > inner.len() {
        Seq::empty()
    } else {
        let e = find_byte(inner, from, SEMICOLON);
        let head = match group_item(inner.subrange(from, e)) {
            Some(item) => seq![item],
            None => Seq::empty(),
        };
        if e >= inner.len() {
            head
        } else {
            proof {
                lemma_find_byte(inner, from, SEMICOLON);
            }
            head + group_items(inner, e + 1)
        }
    }
}

/// Offset of the bracket that closes the group starting at offset `p`, if
/// one starts there: `[@`, then bytes other than `]` with a semicolon among
/// them that is not the first of them, then `]`.
pub open spec fn group_close(bytes: Seq<u8>, p: int) -> Option<int> {
    let r = find_byte(bytes, p + 2, CLOSE_BRACKET);
    if 0 <= p && p + 2 < bytes.len() && bytes[p] == OPEN_BRACKET && bytes[p + 1] == AT_SIGN && r
        < bytes.len() && find_byte(bytes.take(r), p + 3, SEMICOLON) < r {
        Some(r)
    } else {
        None
    }
}

/// A group closes after it starts, at a `]`.
pub proof fn lemma_group_close(bytes: Seq<u8>, p: int)
    requires
        group_close(bytes, p) is Some,
    ensures
        p + 3 < group_close(bytes, p)->0 < bytes.len(),
        bytes[group_close(bytes, p)->0] == CLOSE_BRACKET,
{
    let r = find_byte(bytes, p + 2, CLOSE_BRACKET);
    lemma_find_byte(bytes, p + 2, CLOSE_BRACKET);
    if p + 3 <= r {
        lemma_find_byte(bytes.take(r), p + 3, SEMICOLON);
    }
}

/// The clusters of the groups found from offset `from` on, scanning left to
/// right. A group in which no part stands for an item gives no cluster.
pub open spec fn groups_from(bytes: Seq<u8>, from: int) -> Seq<ClusterView>
    decreases bytes.len() - from,
{
    if from < 0 || from >= bytes.len() {
        Seq::empty()
    } else {
        match group_close(bytes, from) {
            Some(r) => {
                proof {
                    lemma_group_close(bytes, from);
                }
                let items = group_items(bytes.take(r), from + 1);
                let head = if items.len() > 0 {
                    seq![ClusterView { items, span: (from, r + 1) }]
                } else {
                    Seq::empty()
                };
                head + groups_from(bytes, r + 1)
            },
            None => groups_from(bytes, from + 1),
        }
    }
}

/// Whether `pos` lies in the span of one of the clusters.
pub open spec fn inside_any(groups: Seq<ClusterView>, pos: int) -> bool {
    exists|i: int| 0 <= i < groups.len() && (#[trigger] groups[i]).span.0 <= pos < groups[i].span.1
}

/// The citations that do not start inside one of the groups.
pub open spec fn loose(citations: Seq<CitationView>, groups: Seq<ClusterView>) -> Seq<CitationView>
    decreases citations.len(),
{
    if citations.len() == 0 {
        Seq::empty()
    } else {
        let front = loose(citations.drop_last(), groups);
        if inside_any(groups, citations.last().span.0) {
            front
        } else {
            front.push(citations.last())
        }
    }
}

/// Whether only spaces and tabs, or nothing, lie in `a..b`.
pub open spec fn adjacent(bytes: Seq<u8>, a: int, b: int) -> bool {
    &&& 0 <= a <= b <= bytes.len()
    &&& forall|k: int| a <= k < b ==> bytes[k] == SPACE || bytes[k] == TAB
}

/// End of the run of citations that starts at index `i`: each citation of
/// the run but the first is adjacent to the one before it.
pub open spec fn run_end(bytes: Seq<u8>, citations: Seq<CitationView>, i: int) -> int
    decreases citations.len() - i,
{
    if 0 <= i && i + 1 < citations.len() && adjacent(
        bytes,
        citations[i].span.1,
        citations[i + 1].span.0,
    ) {
        run_end(bytes, citations, i + 1)
    } else {
        i + 1
    }
}

/// A citation as an item of a cluster.
pub open spec fn item_of(c: CitationView) -> ItemView {
    ItemView { id: c.id, locator: c.locator, label: c.label, url: c.url }
}

/// The citations as items.
pub open spec fn items_of(citations: Seq<CitationView>) -> Seq<ItemView> {
    citations.map_values(|c: CitationView| item_of(c))
}

/// The cluster of the citations `i..j`.
pub open spec fn run_cluster(citations: Seq<CitationView>, i: int, j: int) -> ClusterView {
    ClusterView {
        items: items_of(citations.subrange(i, j)),
        span: (citations[i].span.0, citations[j - 1].span.1),
    }
}

/// The clusters of the runs of adjacent citations, from index `i` on.
pub open spec fn runs_from(bytes: Seq<u8>, citations: Seq<CitationView>, i: int) -> Seq<
    ClusterView,
>
    decreases citations.len() - i,
{
    if i < 0 || i >= citations.len() {
        Seq::empty()
    } else {
        proof {
            lemma_run_end(bytes, citations, i);
        }
        let j = run_end(bytes, citations, i);
        seq![run_cluster(citations, i, j)] + runs_from(bytes, citations, j)
    }
}

/// A run ends after it starts and within the sequence.
pub proof fn lemma_run_end(bytes: Seq<u8>, citations: Seq<CitationView>, i: int)
    requires
        0 <= i < citations.len(),
    ensures
        i < run_end(bytes, citations, i) <= citations.len(),
    decreases citations.len() - i,
{
    if i + 1 < citations.len() && adjacent(bytes, citations[i].span.1, citations[i + 1].span.0) {
        lemma_run_end(bytes, citations, i + 1);
    }
}

/// Two sequences of clusters, each in the order of its span starts, as one
/// such sequence. Where two clusters start alike, the one of `a` comes first.
pub open spec fn merged(a: Seq<ClusterView>, b: Seq<ClusterView>) -> Seq<ClusterView>
    decreases a.len() + b.len(),
{
    if a.len() == 0 {
        b
    } else if b.len() == 0 {
        a
    } else if a[0].span.0 <= b[0].span.0 {
        seq![a[0]] + merged(a.drop_first(), b)
    } else {
        seq![b[0]] + merged(a, b.drop_first())
    }
}

/// All clusters of a text: its groups, and the runs of adjacent citations
/// that start outside every group, in the order of their span starts.
pub open spec fn clusters_in(bytes: Seq<u8>) -> Seq<ClusterView> {
    let groups = groups_from(bytes, 0);
    merged(groups, runs_from(bytes, loose(citations_in(bytes), groups), 0))
}

/// The item of the part `a..b` of a group.
fn scan_group_item(text: &str, bytes: &[u8], a: usize, b: usize) -> (r: Option<CitationItem>)
    requires
        bytes@ == text.spec_bytes(),
        is_char_range(bytes@, a as int, b as int),
    ensures
        match r {
            Some(item) => group_item(bytes@.subrange(a as int, b as int)) == Some(item@),
            None => group_item(bytes@.subrange(a as int, b as int)) is None,
        },
{
    proof {
        lemma_str_bytes(text@);
    }
    let (ta, tb) = trim_range(bytes, a, b);
    let ghost t = bytes@.subrange(ta as int, tb as int);
    if !(ta < tb && bytes[ta] == AT_SIGN) {
        proof {
            if ta < tb {
                assert(t[0] == bytes@[ta as int]);
            }
        }
        return None;
    }
    let c: usize = find_in(bytes, ta + 1, tb, COMMA);
    proof {
        assert(t[0] == bytes@[ta as int]);
        assert(t.skip(1) =~= bytes@.subrange(ta + 1, tb as int));
        lemma_ascii_boundaries(bytes@, ta as int);
    }
    let ghost body = bytes@.subrange(ta + 1, tb as int);
    if c < tb {
        proof {
            lemma_find_byte(body, 0, COMMA);
            assert(body[c - (ta + 1)] == bytes@[c as int]);
            lemma_ascii_boundaries(bytes@, c as int);
            assert(body.take(c - (ta + 1)) =~= bytes@.subrange(ta + 1, c as int));
            assert(body.skip(c - (ta + 1) + 1) =~= bytes@.subrange(c + 1, tb as int));
        }
        let (ia, ib) = trim_range(bytes, ta + 1, c);
        let id: String = substring(text, ia, ib).to_owned();
        let parsed = parse_locator_range(text, bytes, c + 1, tb);
        Some(CitationItem { id, locator: parsed.0, label: parsed.1, url: None })
    } else {
        let (ia, ib) = trim_range(bytes, ta + 1, tb);
        let id: String = substring(text, ia, ib).to_owned();
        Some(CitationItem { id, locator: None, label: None, url: None })
    }
}

/// The items of the group whose `@` is at `first` and whose closing bracket
/// is at `close`.
fn scan_group_items(text: &str, bytes: &[u8], first: usize, close: usize) -> (r: Vec<CitationItem>)
    requires
        bytes@ == text.spec_bytes(),
        first <= close < bytes@.len(),
        bytes@[first as int] == AT_SIGN,
        bytes@[close as int] == CLOSE_BRACKET,
    ensures
        item_views(r@) == group_items(bytes@.take(close as int), first as int),
{
    let ghost inner = bytes@.take(close as int);
    let mut items: Vec<CitationItem> = Vec::new();
    let mut from: usize = first;
    proof {
        lemma_str_bytes(text@);
        lemma_ascii_boundaries(bytes@, first as int);
        lemma_ascii_boundaries(bytes@, close as int);
    }
    loop
        invariant_except_break
            item_views(items@) + group_items(inner, from as int) == group_items(
                inner,
                first as int,
            ),
        invariant
            bytes@ == text.spec_bytes(),
            valid_utf8(bytes@),
            first <= from <= close < bytes@.len(),
            inner == bytes@.take(close as int),
            is_char_range(bytes@, from as int, close as int),
        ensures
            item_views(items@) == group_items(inner, first as int),
        decreases close - from,
    {
        let e: usize = find_in(bytes, from, close, SEMICOLON);
        proof {
            lemma_find_byte(inner, from as int, SEMICOLON);
            assert(inner.subrange(from as int, e as int) =~= bytes@.subrange(
                from as int,
                e as int,
            ));
            if e < close {
                assert(inner[e as int] == bytes@[e as int]);
                lemma_ascii_boundaries(bytes@, e as int);
            }
        }
        let ghost before = item_views(items@);
        match scan_group_item(text, bytes, from, e) {
            Some(item) => {
                proof {
                    assert(item_views(items@.push(item)) =~= before + seq![item@]);
                }
                items.push(item);
            },
            None => {
                proof {
                    assert(before + Seq::<ItemView>::empty() =~= before);
                }
            },
        }
        if e >= close {
            proof {
                let head = match group_item(inner.subrange(from as int, e as int)) {
                    Some(item) => seq![item],
                    None => Seq::empty(),
                };
                assert(item_views(items@) =~= before + head);
            }
            break ;
        }
        proof {
            let head = match group_item(inner.subrange(from as int, e as int)) {
                Some(item) => seq![item],
                None => Seq::empty(),
            };
            assert(item_views(items@) =~= before + head);
            assert(before + (head + group_items(inner, e + 1)) =~= (before + head) + group_items(
                inner,
                e + 1,
            ));
        }
        from = e + 1;
    }
    items
}

/// The group that starts at `p`, if one does, as the offset of its closing
/// bracket.
fn scan_group(bytes: &[u8], p: usize) -> (r: Option<usize>)
    requires
        p < bytes@.len(),
    ensures
        match r {
            Some(close) => group_close(bytes@, p as int) == Some(close as int),
            None => group_close(bytes@, p as int) is None,
        },
{
    let n: usize = bytes.len();
    if n - p <= 2 || bytes[p] != OPEN_BRACKET || bytes[p + 1] != AT_SIGN {
        return None;
    }
    let close: usize = find_in(bytes, p + 2, n, CLOSE_BRACKET);
    assert(bytes@.take(n as int) =~= bytes@);
    if close >= n || close < p + 3 {
        return None;
    }
    let semicolon: usize = find_in(bytes, p + 3, close, SEMICOLON);
    if semicolon < close {
        Some(close)
    } else {
        None
    }
}

/// Extracts the groups written as `[@a; @b; @c]` or `[@a, p. 10; @b, ch. 3]`:
/// several citations, separated by semicolons, within one pair of brackets.
/// Each gives one cluster, whose span covers the brackets.
pub fn extract_pandoc_grouped_citations(markdown: &str) -> (r: Vec<CitationCluster>)
    ensures
        cluster_views(r@) == groups_from(markdown.spec_bytes(), 0),
{
    let bytes: &[u8] = markdown.as_bytes();
    let n: usize = bytes.len();
    let mut out: Vec<CitationCluster> = Vec::new();
    let mut pos: usize = 0;
    while pos < n
        invariant
            pos <= n,
            n == bytes@.len(),
            bytes@ == markdown.spec_bytes(),
            cluster_views(out@) + groups_from(bytes@, pos as int) == groups_from(bytes@, 0),
        decreases n - pos,
    {
        match scan_group(bytes, pos) {
            Some(close) => {
                proof {
                    lemma_group_close(bytes@, pos as int);
                }
                let items: Vec<CitationItem> = scan_group_items(markdown, bytes, pos + 1, close);
                let ghost before = cluster_views(out@);
                if items.len() > 0 {
                    let cluster = CitationCluster { items, span: (pos, close + 1) };
                    proof {
                        assert(cluster_views(out@.push(cluster)) =~= before + seq![cluster@]);
                        assert((before + seq![cluster@]) + groups_from(bytes@, close + 1) =~= before
                            + (seq![cluster@] + groups_from(bytes@, close + 1)));
                    }
                    out.push(cluster);
                } else {
                    proof {
                        assert(Seq::<ClusterView>::empty() + groups_from(bytes@, close + 1)
                            =~= groups_from(bytes@, close + 1));
                    }
                }
                pos = close + 1;
            },
            None => {
                pos = pos + 1;
            },
        }
    }
    proof {
        assert(cluster_views(out@) =~= groups_from(bytes@, 0));
    }
    out
}

/// Whether `pos` lies in the span of one of the clusters.
fn is_inside(groups: &Vec<CitationCluster>, pos: usize) -> (r: bool)
    ensures
        r == inside_any(cluster_views(groups@), pos as int),
{
    let ghost views = cluster_views(groups@);
    let mut i: usize = 0;
    while i < groups.len()
        invariant
            i <= groups.len(),
            views == cluster_views(groups@),
            forall|k: int| 0 <= k < i ==> !((#[trigger] views[k]).span.0 <= pos < views[k].span.1),
        decreases groups.len() - i,
    {
        if groups[i].span.0 <= pos && pos < groups[i].span.1 {
            assert(views[i as int].span.0 <= pos < views[i as int].span.1);
            return true;
        }
        i = i + 1;
    }
    false
}

/// Whether only spaces and tabs, or nothing, lie in `a..b`.
fn is_adjacent(bytes: &[u8], a: usize, b: usize) -> (r: bool)
    ensures
        r == adjacent(bytes@, a as int, b as int),
{
    if a > b || b > bytes.len() {
        return false;
    }
    let mut k: usize = a;
    while k < b
        invariant
            a <= k <= b <= bytes@.len(),
            forall|m: int| a <= m < k ==> bytes@[m] == SPACE || bytes@[m] == TAB,
        decreases b - k,
    {
        if bytes[k] != SPACE && bytes[k] != TAB {
            return false;
        }
        k = k + 1;
    }
    true
}

/// The citation as an item of a cluster.
fn item_from(c: &Citation) -> (r: CitationItem)
    ensures
        r@ == item_of(c@),
{
    CitationItem {
        id: c.id.clone(),
        locator: clone_option(&c.locator),
        label: clone_option(&c.label),
        url: clone_option(&c.url),
    }
}

/// Groups the citations into clusters of runs that only blanks separate.
fn group_runs(bytes: &[u8], citations: &Vec<Citation>) -> (r: Vec<CitationCluster>)
    ensures
        cluster_views(r@) == runs_from(bytes@, citation_views(citations@), 0),
{
    let ghost views = citation_views(citations@);
    let n: usize = citations.len();
    let mut out: Vec<CitationCluster> = Vec::new();
    let mut i: usize = 0;
    while i < n
        invariant
            i <= n,
            n == citations.len(),
            views == citation_views(citations@),
            cluster_views(out@) + runs_from(bytes@, views, i as int) == runs_from(bytes@, views, 0),
        decreases n - i,
    {
        let start: usize = citations[i].span.0;
        let mut last_end: usize = citations[i].span.1;
        let mut items: Vec<CitationItem> = Vec::new();
        let first: CitationItem = item_from(&citations[i]);
        items.push(first);
        let mut j: usize = i + 1;
        proof {
            assert(views[i as int] == citations@[i as int]@);
            assert(item_views(items@) =~= items_of(views.subrange(i as int, j as int)));
        }
        while j < n && is_adjacent(bytes, last_end, citations[j].span.0)
            invariant
                i < j <= n,
                n == citations.len(),
                views == citation_views(citations@),
                last_end == citations[j - 1].span.1,
                run_end(bytes@, views, j - 1) == run_end(bytes@, views, i as int),
                item_views(items@) == items_of(views.subrange(i as int, j as int)),
            decreases n - j,
        {
            let item: CitationItem = item_from(&citations[j]);
            proof {
                assert(views[j as int] == citations@[j as int]@);
                assert(views[j - 1] == citations@[j - 1]@);
                let before = item_views(items@);
                assert(item@ == item_of(views[j as int]));
                assert(item_views(items@.push(item)) =~= before.push(item@));
                assert(items_of(views.subrange(i as int, j + 1)) =~= items_of(
                    views.subrange(i as int, j as int),
                ).push(item_of(views[j as int])));
            }
            items.push(item);
            last_end = citations[j].span.1;
            j = j + 1;
        }
        proof {
            assert(views[j - 1] == citations@[j - 1]@);
            if j < n {
                assert(views[j as int] == citations@[j as int]@);
            }
            assert(run_end(bytes@, views, i as int) == j);
        }
        let cluster = CitationCluster { items, span: (start, last_end) };
        proof {
            let before = cluster_views(out@);
            assert(cluster@ == run_cluster(views, i as int, j as int));
            assert(cluster_views(out@.push(cluster)) =~= before + seq![cluster@]);
            assert((before + seq![cluster@]) + runs_from(bytes@, views, j as int) =~= before + (
            seq![cluster@] + runs_from(bytes@, views, j as int)));
        }
        out.push(cluster);
        i = j;
    }
    proof {
        assert(cluster_views(out@) =~= runs_from(bytes@, views, 0));
    }
    out
}

/// Merges two sequences of clusters by their span starts.
fn merge_clusters(a: &Vec<CitationCluster>, b: &Vec<CitationCluster>) -> (r: Vec<CitationCluster>)
    ensures
        cluster_views(r@) == merged(cluster_views(a@), cluster_views(b@)),
{
    let ghost av = cluster_views(a@);
    let ghost bv = cluster_views(b@);
    let mut out: Vec<CitationCluster> = Vec::new();
    let mut i: usize = 0;
    let mut j: usize = 0;
    proof {
        assert(av.skip(0) =~= av);
        assert(bv.skip(0) =~= bv);
    }
    while i < a.len() || j < b.len()
        invariant
            i <= a.len(),
            j <= b.len(),
            av == cluster_views(a@),
            bv == cluster_views(b@),
            cluster_views(out@) + merged(av.skip(i as int), bv.skip(j as int)) == merged(av, bv),
        decreases (a.len() - i) + (b.len() - j),
    {
        let ghost before = cluster_views(out@);
        let ghost ra = av.skip(i as int);
        let ghost rb = bv.skip(j as int);
        let take_a: bool = if i >= a.len() {
            false
        } else if j >= b.len() {
            true
        } else {
            a[i].span.0 <= b[j].span.0
        };
        if take_a {
            let c: CitationCluster = a[i].clone();
            proof {
                assert(ra[0] == av[i as int]);
                assert(c@ == ra[0]);
                if j < b.len() {
                    assert(rb[0] == bv[j as int]);
                }
                assert(ra.drop_first() =~= av.skip(i + 1));
                assert(merged(ra, rb) =~= seq![c@] + merged(av.skip(i + 1), rb));
                assert(cluster_views(out@.push(c)) =~= before + seq![c@]);
                assert((before + seq![c@]) + merged(av.skip(i + 1), rb) =~= before + (seq![c@]
                    + merged(av.skip(i + 1), rb)));
            }
            out.push(c);
            i = i + 1;
        } else {
            let c: CitationCluster = b[j].clone();
            proof {
                assert(rb[0] == bv[j as int]);
                assert(c@ == rb[0]);
                if i < a.len() {
                    assert(ra[0] == av[i as int]);
                }
                assert(rb.drop_first() =~= bv.skip(j + 1));
                assert(merged(ra, rb) =~= seq![c@] + merged(ra, bv.skip(j + 1)));
                assert(cluster_views(out@.push(c)) =~= before + seq![c@]);
                assert((before + seq![c@]) + merged(ra, bv.skip(j + 1)) =~= before + (seq![c@]
                    + merged(ra, bv.skip(j + 1))));
            }
            out.push(c);
            j = j + 1;
        }
    }
    proof {
        assert(cluster_views(out@) =~= merged(av, bv));
    }
    out
}

/// Extracts citation clusters from the given Markdown text.
///
/// Groups written as `[@a; @b]` come first in precedence: a marker that
/// starts inside one is part of it. The other markers form clusters of runs
/// that only spaces and tabs separate. The result holds both kinds in the
/// order of their span starts.
pub fn extract_citation_clusters(markdown: &str) -> (r: Vec<CitationCluster>)
    ensures
        cluster_views(r@) == clusters_in(markdown.spec_bytes()),
        increasing_starts(cluster_views(r@)),
        forall|k: int|
            0 <= k < r.len() ==> cluster_well_formed(markdown.spec_bytes(), (#[trigger] r[k])@)
                && items_sound(r[k]@),
{
    let bytes: &[u8] = markdown.as_bytes();
    let groups: Vec<CitationCluster> = extract_pandoc_grouped_citations(markdown);
    let citations: Vec<Citation> = extract_citations(markdown);
    let ghost all = citation_views(citations@);
    let ghost group_views = cluster_views(groups@);
    let mut kept: Vec<Citation> = Vec::new();
    let mut i: usize = 0;
    while i < citations.len()
        invariant
            i <= citations.len(),
            all == citation_views(citations@),
            group_views == cluster_views(groups@),
            citation_views(kept@) == loose(all.take(i as int), group_views),
        decreases citations.len() - i,
    {
        proof {
            assert(all.take(i + 1).drop_last() =~= all.take(i as int));
            assert(all.take(i + 1).last() == citations@[i as int]@);
        }
        if !is_inside(&groups, citations[i].span.0) {
            let c: Citation = citations[i].clone();
            proof {
                assert(citation_views(kept@.push(c)) =~= citation_views(kept@).push(c@));
            }
            kept.push(c);
        }
        i = i + 1;
    }
    proof {
        assert(all.take(i as int) =~= all);
    }
    let runs: Vec<CitationCluster> = group_runs(bytes, &kept);
    let all: Vec<CitationCluster> = merge_clusters(&groups, &runs);
    proof {
        lemma_clusters_in(bytes@);
        lemma_clusters_increasing(bytes@);
        lemma_clusters_sound(bytes@);
        assert forall|k: int| 0 <= k < all.len() implies cluster_well_formed(
            bytes@,
            (#[trigger] all[k])@,
        ) && items_sound(all[k]@) by {
            assert(cluster_views(all@)[k] == all[k]@);
        }
    }
    all
}

/// A cluster holds at least one item, and its span is a non-empty range of
/// the text.
pub open spec fn cluster_well_formed(bytes: Seq<u8>, c: ClusterView) -> bool {
    c.items.len() > 0 && 0 <= c.span.0 < c.span.1 <= bytes.len()
}

/// The clusters come in document order and do not overlap.
pub open spec fn clusters_in_order(clusters: Seq<ClusterView>) -> bool {
    forall|i: int, j: int|
        0 <= i < j < clusters.len() ==> (#[trigger] clusters[i]).span.1 <= (
        #[trigger] clusters[j]).span.0
}

/// The span starts of the clusters do not decrease.
pub open spec fn sorted_by_start(clusters: Seq<ClusterView>) -> bool {
    forall|i: int, j: int|
        0 <= i < j < clusters.len() ==> (#[trigger] clusters[i]).span.0 <= (
        #[trigger] clusters[j]).span.0
}

/// The groups found from `from` on are well formed, start at or after
/// `from`, and come in document order without overlap.
pub proof fn lemma_groups_from(bytes: Seq<u8>, from: int)
    requires
        0 <= from,
    ensures
        forall|i: int|
            0 <= i < groups_from(bytes, from).len() ==> cluster_well_formed(
                bytes,
                #[trigger] groups_from(bytes, from)[i],
            ) && from <= groups_from(bytes, from)[i].span.0,
        clusters_in_order(groups_from(bytes, from)),
    decreases bytes.len() - from,
{
    if from < bytes.len() {
        match group_close(bytes, from) {
            Some(r) => {
                lemma_group_close(bytes, from);
                lemma_groups_from(bytes, r + 1);
                let rest = groups_from(bytes, r + 1);
                let all = groups_from(bytes, from);
                let items = group_items(bytes.take(r), from + 1);
                if items.len() > 0 {
                    let head = ClusterView { items, span: (from, r + 1) };
                    assert(all =~= seq![head] + rest);
                    assert forall|i: int| 0 <= i < all.len() implies cluster_well_formed(
                        bytes,
                        #[trigger] all[i],
                    ) && from <= all[i].span.0 by {
                        if i > 0 {
                            assert(all[i] == rest[i - 1]);
                        }
                    }
                    assert forall|i: int, j: int| 0 <= i < j < all.len() implies (
                    #[trigger] all[i]).span.1 <= (#[trigger] all[j]).span.0 by {
                        assert(all[j] == rest[j - 1]);
                        if i > 0 {
                            assert(all[i] == rest[i - 1]);
                        }
                    }
                } else {
                    assert(all =~= rest);
                }
            },
            None => {
                lemma_groups_from(bytes, from + 1);
            },
        }
    }
}

/// Every loose citation is one of the citations, they keep their order, and
/// none starts inside a group.
pub proof fn lemma_loose(bytes: Seq<u8>, citations: Seq<CitationView>, groups: Seq<ClusterView>)
    requires
        citations_in_order(citations),
        forall|i: int| 0 <= i < citations.len() ==> is_marker_span(bytes, (#[trigger] citations[i]).span),
    ensures
        citations_in_order(loose(citations, groups)),
        forall|k: int|
            0 <= k < loose(citations, groups).len() ==> {
                &&& is_marker_span(bytes, (#[trigger] loose(citations, groups)[k]).span)
                &&& !inside_any(groups, loose(citations, groups)[k].span.0)
                &&& exists|m: int|
                    0 <= m < citations.len() && citations[m] == loose(citations, groups)[k]
            },
    decreases citations.len(),
{
    if citations.len() > 0 {
        let front_all = citations.drop_last();
        let last = citations.last();
        assert forall|i: int| 0 <= i < front_all.len() implies is_marker_span(
            bytes,
            (#[trigger] front_all[i]).span,
        ) by {
            assert(front_all[i] == citations[i]);
        }
        assert(citations_in_order(front_all)) by {
            assert forall|i: int, j: int| 0 <= i < j < front_all.len() implies (
            #[trigger] front_all[i]).span.1 <= (#[trigger] front_all[j]).span.0 by {
                assert(front_all[i] == citations[i]);
                assert(front_all[j] == citations[j]);
            }
        }
        lemma_loose(bytes, front_all, groups);
        let front = loose(front_all, groups);
        let all = loose(citations, groups);
        assert forall|k: int| 0 <= k < all.len() implies {
            &&& is_marker_span(bytes, (#[trigger] all[k]).span)
            &&& !inside_any(groups, all[k].span.0)
            &&& exists|m: int| 0 <= m < citations.len() && citations[m] == all[k]
        } by {
            if k < front.len() {
                assert(all[k] == front[k]);
                let m = choose|m: int| 0 <= m < front_all.len() && front_all[m] == front[k];
                assert(citations[m] == all[k]);
            } else {
                assert(all[k] == last);
                assert(citations[citations.len() - 1] == all[k]);
            }
        }
        assert forall|i: int, j: int| 0 <= i < j < all.len() implies (#[trigger] all[i]).span.1 <= (
        #[trigger] all[j]).span.0 by {
            assert(all[i] == front[i]);
            if j < front.len() {
                assert(all[j] == front[j]);
            } else {
                let m = choose|m: int| 0 <= m < front_all.len() && front_all[m] == front[i];
                assert(citations[m] == all[i]);
                assert(citations[citations.len() - 1] == all[j]);
            }
        }
    }
}

/// The runs found from index `i` on are well formed and come in document
/// order without overlap, none starting before the citation at `i`.
pub proof fn lemma_runs_from(bytes: Seq<u8>, citations: Seq<CitationView>, i: int)
    requires
        0 <= i,
        citations_in_order(citations),
        forall|k: int| 0 <= k < citations.len() ==> is_marker_span(bytes, (#[trigger] citations[k]).span),
    ensures
        forall|k: int|
            0 <= k < runs_from(bytes, citations, i).len() ==> cluster_well_formed(
                bytes,
                #[trigger] runs_from(bytes, citations, i)[k],
            ) && citations[i].span.0 <= runs_from(bytes, citations, i)[k].span.0,
        clusters_in_order(runs_from(bytes, citations, i)),
    decreases citations.len() - i,
{
    if i < citations.len() {
        lemma_run_end(bytes, citations, i);
        let j = run_end(bytes, citations, i);
        lemma_runs_from(bytes, citations, j);
        let head = run_cluster(citations, i, j);
        let rest = runs_from(bytes, citations, j);
        let all = runs_from(bytes, citations, i);
        assert(all =~= seq![head] + rest);
        assert(is_marker_span(bytes, citations[i].span));
        assert(is_marker_span(bytes, citations[j - 1].span));
        if i < j - 1 {
            assert(citations[i].span.1 <= citations[j - 1].span.0);
        }
        assert(cluster_well_formed(bytes, head));
        assert forall|k: int| 0 <= k < all.len() implies cluster_well_formed(
            bytes,
            #[trigger] all[k],
        ) && citations[i].span.0 <= all[k].span.0 by {
            if k > 0 {
                assert(all[k] == rest[k - 1]);
                assert(is_marker_span(bytes, citations[j].span));
                assert(citations[i].span.1 <= citations[j].span.0);
            }
        }
        assert forall|a: int, b: int| 0 <= a < b < all.len() implies (#[trigger] all[a]).span.1 <= (
        #[trigger] all[b]).span.0 by {
            assert(all[b] == rest[b - 1]);
            if a > 0 {
                assert(all[a] == rest[a - 1]);
            } else {
                assert(citations[j - 1].span.1 <= citations[j].span.0);
            }
        }
    }
}

/// Merging two sequences that are sorted by span start gives such a
/// sequence, made of the clusters of the two.
pub proof fn lemma_merged(a: Seq<ClusterView>, b: Seq<ClusterView>)
    requires
        sorted_by_start(a),
        sorted_by_start(b),
    ensures
        sorted_by_start(merged(a, b)),
        merged(a, b).len() == a.len() + b.len(),
        forall|k: int|
            0 <= k < merged(a, b).len() ==> a.contains(#[trigger] merged(a, b)[k]) || b.contains(
                merged(a, b)[k],
            ),
    decreases a.len() + b.len(),
{
    let all = merged(a, b);
    if a.len() == 0 {
        assert forall|k: int| 0 <= k < all.len() implies a.contains(#[trigger] all[k])
            || b.contains(all[k]) by {
            assert(b[k] == all[k]);
        }
    } else if b.len() == 0 {
        assert forall|k: int| 0 <= k < all.len() implies a.contains(#[trigger] all[k])
            || b.contains(all[k]) by {
            assert(a[k] == all[k]);
        }
    } else {
        let a_first = a[0].span.0 <= b[0].span.0;
        let ra = if a_first {
            a.drop_first()
        } else {
            a
        };
        let rb = if a_first {
            b
        } else {
            b.drop_first()
        };
        let head = if a_first {
            a[0]
        } else {
            b[0]
        };
        assert(sorted_by_start(ra)) by {
            assert forall|i: int, j: int| 0 <= i < j < ra.len() implies (#[trigger] ra[i]).span.0 <= (
            #[trigger] ra[j]).span.0 by {
                if a_first {
                    assert(ra[i] == a[i + 1] && ra[j] == a[j + 1]);
                }
            }
        }
        assert(sorted_by_start(rb)) by {
            assert forall|i: int, j: int| 0 <= i < j < rb.len() implies (#[trigger] rb[i]).span.0 <= (
            #[trigger] rb[j]).span.0 by {
                if !a_first {
                    assert(rb[i] == b[i + 1] && rb[j] == b[j + 1]);
                }
            }
        }
        lemma_merged(ra, rb);
        let rest = merged(ra, rb);
        assert(all =~= seq![head] + rest);
        assert forall|c: ClusterView| ra.contains(c) implies a.contains(c) && a[0].span.0
            <= c.span.0 by {
            let i = choose|i: int| 0 <= i < ra.len() && ra[i] == c;
            if a_first {
                assert(a[i + 1] == c);
            } else {
                assert(a[i] == c);
                if i > 0 {
                    assert(a[0].span.0 <= a[i].span.0);
                }
            }
        }
        assert forall|c: ClusterView| rb.contains(c) implies b.contains(c) && b[0].span.0
            <= c.span.0 by {
            let j = choose|j: int| 0 <= j < rb.len() && rb[j] == c;
            if a_first {
                assert(b[j] == c);
                if j > 0 {
                    assert(b[0].span.0 <= b[j].span.0);
                }
            } else {
                assert(b[j + 1] == c);
            }
        }
        assert(a.contains(a[0]));
        assert(b.contains(b[0]));
        assert forall|k: int| 0 <= k < all.len() implies a.contains(#[trigger] all[k])
            || b.contains(all[k]) by {
            if k > 0 {
                assert(all[k] == rest[k - 1]);
            }
        }
        assert forall|i: int, j: int| 0 <= i < j < all.len() implies (#[trigger] all[i]).span.0 <= (
        #[trigger] all[j]).span.0 by {
            assert(all[j] == rest[j - 1]);
            if i > 0 {
                assert(all[i] == rest[i - 1]);
            }
        }
    }
}

/// The clusters of a text are sorted by span start, and each is well formed.
pub proof fn lemma_clusters_in(bytes: Seq<u8>)
    ensures
        sorted_by_start(clusters_in(bytes)),
        forall|k: int|
            0 <= k < clusters_in(bytes).len() ==> cluster_well_formed(
                bytes,
                #[trigger] clusters_in(bytes)[k],
            ),
{
    let groups = groups_from(bytes, 0);
    let citations = citations_in(bytes);
    let kept = loose(citations, groups);
    let runs = runs_from(bytes, kept, 0);
    lemma_groups_from(bytes, 0);
    lemma_citations_from(bytes, 0);
    lemma_loose(bytes, citations, groups);
    lemma_runs_from(bytes, kept, 0);
    assert(sorted_by_start(groups)) by {
        assert forall|i: int, j: int| 0 <= i < j < groups.len() implies (#[trigger] groups[i]).span.0
            <= (#[trigger] groups[j]).span.0 by {
            assert(cluster_well_formed(bytes, groups[i]));
        }
    }
    assert(sorted_by_start(runs)) by {
        assert forall|i: int, j: int| 0 <= i < j < runs.len() implies (#[trigger] runs[i]).span.0 <= (
        #[trigger] runs[j]).span.0 by {
            assert(cluster_well_formed(bytes, runs[i]));
        }
    }
    lemma_merged(groups, runs);
    let all = clusters_in(bytes);
    assert forall|k: int| 0 <= k < all.len() implies cluster_well_formed(bytes, #[trigger] all[k]) by {
        if groups.contains(all[k]) {
            let i = choose|i: int| 0 <= i < groups.len() && groups[i] == all[k];
            assert(cluster_well_formed(bytes, groups[i]));
        } else {
            let j = choose|j: int| 0 <= j < runs.len() && runs[j] == all[k];
            assert(cluster_well_formed(bytes, runs[j]));
        }
    }
}

/// Where no group starts from `from` on, no group is found from there on.
pub proof fn lemma_no_groups_from(bytes: Seq<u8>, from: int)
    requires
        forall|p: int| from <= p ==> group_close(bytes, p) is None,
    ensures
        groups_from(bytes, from) == Seq::<ClusterView>::empty(),
    decreases bytes.len() - from,
{
    if 0 <= from < bytes.len() {
        lemma_no_groups_from(bytes, from + 1);
    }
}

/// A text in which neither a marker nor a group starts holds no cluster.
pub proof fn lemma_no_markers_no_clusters(bytes: Seq<u8>)
    requires
        forall|p: int| marker_at(bytes, p) is None,
        forall|p: int| group_close(bytes, p) is None,
    ensures
        clusters_in(bytes) == Seq::<ClusterView>::empty(),
{
    lemma_no_groups_from(bytes, 0);
    lemma_no_markers_no_citations(bytes);
    assert(citations_in(bytes).len() == 0);
}

/// A text in which `[@` stands nowhere holds no cluster.
pub proof fn lemma_no_opening_no_clusters(bytes: Seq<u8>)
    requires
        forall|p: int| !opens_marker(bytes, p),
    ensures
        clusters_in(bytes) == Seq::<ClusterView>::empty(),
{
    assert forall|p: int| marker_at(bytes, p) is None by {
        assert(!opens_marker(bytes, p));
    }
    assert forall|p: int| group_close(bytes, p) is None by {
        assert(!opens_marker(bytes, p));
    }
    lemma_no_markers_no_clusters(bytes);
}

/// An item has a label only with a locator value.
pub open spec fn labelled_with_value(item: ItemView) -> bool {
    item.label is Some ==> item.locator is Some
}

/// Every item of the cluster has a label only with a locator value.
pub open spec fn items_sound(c: ClusterView) -> bool {
    forall|i: int| 0 <= i < c.items.len() ==> labelled_with_value(#[trigger] c.items[i])
}

/// The items of a group have labels only with values, and no URLs.
pub proof fn lemma_group_items(inner: Seq<u8>, from: int)
    ensures
        forall|i: int|
            0 <= i < group_items(inner, from).len() ==> labelled_with_value(
                #[trigger] group_items(inner, from)[i],
            ) && group_items(inner, from)[i].url is None,
    decreases inner.len() - from,
{
    if 0 <= from <= inner.len() {
        let e = find_byte(inner, from, SEMICOLON);
        let part = inner.subrange(from, e);
        lemma_parsed_locator(trim(part).skip(1).skip(find_byte(trim(part).skip(1), 0, COMMA) + 1));
        let head = match group_item(part) {
            Some(item) => seq![item],
            None => Seq::empty(),
        };
        let all = group_items(inner, from);
        if e >= inner.len() {
            assert(all == head);
        } else {
            lemma_find_byte(inner, from, SEMICOLON);
            lemma_group_items(inner, e + 1);
            let rest = group_items(inner, e + 1);
            assert(all =~= head + rest);
            assert forall|i: int| 0 <= i < all.len() implies labelled_with_value(#[trigger] all[i])
                && all[i].url is None by {
                if i >= head.len() {
                    assert(all[i] == rest[i - head.len()]);
                }
            }
        }
    }
}

/// The items of the groups have labels only with values.
pub proof fn lemma_groups_sound(bytes: Seq<u8>, from: int)
    ensures
        forall|k: int|
            0 <= k < groups_from(bytes, from).len() ==> items_sound(
                #[trigger] groups_from(bytes, from)[k],
            ),
    decreases bytes.len() - from,
{
    if 0 <= from < bytes.len() {
        match group_close(bytes, from) {
            Some(r) => {
                lemma_group_close(bytes, from);
                lemma_groups_sound(bytes, r + 1);
                lemma_group_items(bytes.take(r), from + 1);
                let items = group_items(bytes.take(r), from + 1);
                let rest = groups_from(bytes, r + 1);
                let all = groups_from(bytes, from);
                if items.len() > 0 {
                    let head = ClusterView { items, span: (from, r + 1) };
                    assert(all =~= seq![head] + rest);
                    assert(items_sound(head));
                    assert forall|k: int| 0 <= k < all.len() implies items_sound(
                        #[trigger] all[k],
                    ) by {
                        if k > 0 {
                            assert(all[k] == rest[k - 1]);
                        }
                    }
                } else {
                    assert(all =~= rest);
                    assert forall|k: int| 0 <= k < all.len() implies items_sound(
                        #[trigger] all[k],
                    ) by {
                        assert(all[k] == rest[k]);
                    }
                }
            },
            None => {
                lemma_groups_sound(bytes, from + 1);
                let all = groups_from(bytes, from);
                let rest = groups_from(bytes, from + 1);
                assert(all == rest);
                assert forall|k: int| 0 <= k < all.len() implies items_sound(#[trigger] all[k]) by {
                    assert(all[k] == rest[k]);
                }
            },
        }
    }
}

/// The citations have labels only with values.
pub proof fn lemma_citations_sound(bytes: Seq<u8>, from: int)
    ensures
        forall|i: int|
            0 <= i < citations_from(bytes, from).len() ==> labelled_with_value(
                item_of(#[trigger] citations_from(bytes, from)[i]),
            ),
    decreases bytes.len() - from,
{
    if 0 <= from < bytes.len() {
        match marker_at(bytes, from) {
            Some(m) => {
                lemma_marker_at(bytes, from);
                lemma_citations_sound(bytes, m.end);
                lemma_parsed_locator(bytes.subrange(m.key_end + 1, m.close));
                let rest = citations_from(bytes, m.end);
                let all = citations_from(bytes, from);
                assert(all =~= seq![citation_at(bytes, m)] + rest);
                assert forall|i: int| 0 <= i < all.len() implies labelled_with_value(
                    item_of(#[trigger] all[i]),
                ) by {
                    if i > 0 {
                        assert(all[i] == rest[i - 1]);
                    }
                }
            },
            None => {
                lemma_citations_sound(bytes, from + 1);
            },
        }
    }
}

/// Every loose citation is one of the citations.
pub proof fn lemma_loose_contained(citations: Seq<CitationView>, groups: Seq<ClusterView>)
    ensures
        forall|k: int|
            0 <= k < loose(citations, groups).len() ==> citations.contains(
                #[trigger] loose(citations, groups)[k],
            ),
    decreases citations.len(),
{
    if citations.len() > 0 {
        let front_all = citations.drop_last();
        lemma_loose_contained(front_all, groups);
        let front = loose(front_all, groups);
        let all = loose(citations, groups);
        assert forall|k: int| 0 <= k < all.len() implies citations.contains(#[trigger] all[k]) by {
            if k < front.len() {
                assert(all[k] == front[k]);
                let m = choose|m: int| 0 <= m < front_all.len() && front_all[m] == front[k];
                assert(citations[m] == all[k]);
            } else {
                assert(citations[citations.len() - 1] == all[k]);
            }
        }
    }
}

/// The items of runs of citations that have labels only with values have
/// labels only with values.
pub proof fn lemma_runs_sound(bytes: Seq<u8>, citations: Seq<CitationView>, i: int)
    requires
        forall|m: int|
            0 <= m < citations.len() ==> labelled_with_value(item_of(#[trigger] citations[m])),
    ensures
        forall|k: int|
            0 <= k < runs_from(bytes, citations, i).len() ==> items_sound(
                #[trigger] runs_from(bytes, citations, i)[k],
            ),
    decreases citations.len() - i,
{
    if 0 <= i < citations.len() {
        lemma_run_end(bytes, citations, i);
        let j = run_end(bytes, citations, i);
        lemma_runs_sound(bytes, citations, j);
        let head = run_cluster(citations, i, j);
        let rest = runs_from(bytes, citations, j);
        let all = runs_from(bytes, citations, i);
        assert(all =~= seq![head] + rest);
        assert(items_sound(head)) by {
            assert forall|x: int| 0 <= x < head.items.len() implies labelled_with_value(
                #[trigger] head.items[x],
            ) by {
                assert(head.items[x] == item_of(citations[i + x]));
            }
        }
        assert forall|k: int| 0 <= k < all.len() implies items_sound(#[trigger] all[k]) by {
            if k > 0 {
                assert(all[k] == rest[k - 1]);
            }
        }
    }
}

/// In every cluster of a text, an item has a label only with a locator
/// value.
pub proof fn lemma_clusters_sound(bytes: Seq<u8>)
    ensures
        forall|k: int|
            0 <= k < clusters_in(bytes).len() ==> items_sound(#[trigger] clusters_in(bytes)[k]),
{
    let groups = groups_from(bytes, 0);
    let citations = citations_in(bytes);
    let kept = loose(citations, groups);
    let runs = runs_from(bytes, kept, 0);
    lemma_groups_sound(bytes, 0);
    lemma_citations_sound(bytes, 0);
    lemma_loose_contained(citations, groups);
    assert forall|m: int| 0 <= m < kept.len() implies labelled_with_value(
        item_of(#[trigger] kept[m]),
    ) by {
        let o = choose|o: int| 0 <= o < citations.len() && citations[o] == kept[m];
        assert(labelled_with_value(item_of(citations[o])));
    }
    lemma_runs_sound(bytes, kept, 0);
    lemma_groups_from(bytes, 0);
    lemma_citations_from(bytes, 0);
    lemma_loose(bytes, citations, groups);
    lemma_runs_from(bytes, kept, 0);
    assert(sorted_by_start(groups)) by {
        assert forall|i: int, j: int| 0 <= i < j < groups.len() implies (#[trigger] groups[i]).span.0
            <= (#[trigger] groups[j]).span.0 by {
            assert(cluster_well_formed(bytes, groups[i]));
        }
    }
    assert(sorted_by_start(runs)) by {
        assert forall|i: int, j: int| 0 <= i < j < runs.len() implies (#[trigger] runs[i]).span.0 <= (
        #[trigger] runs[j]).span.0 by {
            assert(cluster_well_formed(bytes, runs[i]));
        }
    }
    lemma_merged(groups, runs);
    let all = clusters_in(bytes);
    assert forall|k: int| 0 <= k < all.len() implies items_sound(#[trigger] all[k]) by {
        if groups.contains(all[k]) {
            let i = choose|i: int| 0 <= i < groups.len() && groups[i] == all[k];
            assert(items_sound(groups[i]));
        } else {
            let j = choose|j: int| 0 <= j < runs.len() && runs[j] == all[k];
            assert(items_sound(runs[j]));
        }
    }
}

/// The span starts of the clusters increase.
pub open spec fn increasing_starts(clusters: Seq<ClusterView>) -> bool {
    forall|i: int, j: int|
        0 <= i < j < clusters.len() ==> (#[trigger] clusters[i]).span.0 < (
        #[trigger] clusters[j]).span.0
}

/// Every run starts where one of the citations starts.
pub proof fn lemma_runs_start_at_citations(bytes: Seq<u8>, citations: Seq<CitationView>, i: int)
    ensures
        forall|k: int|
            0 <= k < runs_from(bytes, citations, i).len() ==> exists|m: int|
                0 <= m < citations.len() && citations[m].span.0 == (#[trigger] runs_from(
                    bytes,
                    citations,
                    i,
                )[k]).span.0,
    decreases citations.len() - i,
{
    if 0 <= i < citations.len() {
        lemma_run_end(bytes, citations, i);
        let j = run_end(bytes, citations, i);
        lemma_runs_start_at_citations(bytes, citations, j);
        let head = run_cluster(citations, i, j);
        let rest = runs_from(bytes, citations, j);
        let all = runs_from(bytes, citations, i);
        assert(all =~= seq![head] + rest);
        assert forall|k: int| 0 <= k < all.len() implies exists|m: int|
            0 <= m < citations.len() && citations[m].span.0 == (#[trigger] all[k]).span.0 by {
            if k > 0 {
                assert(all[k] == rest[k - 1]);
            } else {
                assert(citations[i].span.0 == all[k].span.0);
            }
        }
    }
}

/// Clusters whose span starts increase are sorted by span start.
pub proof fn lemma_increasing_sorted(clusters: Seq<ClusterView>)
    requires
        increasing_starts(clusters),
    ensures
        sorted_by_start(clusters),
{
    assert forall|i: int, j: int| 0 <= i < j < clusters.len() implies (
    #[trigger] clusters[i]).span.0 <= (#[trigger] clusters[j]).span.0 by {
        assert(clusters[i].span.0 < clusters[j].span.0);
    }
}

/// No cluster of `a` starts where a cluster of `b` starts.
pub open spec fn starts_differ(a: Seq<ClusterView>, b: Seq<ClusterView>) -> bool {
    forall|i: int, j: int|
        0 <= i < a.len() && 0 <= j < b.len() ==> (#[trigger] a[i]).span.0 != (
        #[trigger] b[j]).span.0
}

/// Merging two sequences whose span starts increase, and of which no
/// cluster of the one starts where a cluster of the other starts, gives a
/// sequence whose span starts increase.
pub proof fn lemma_merged_increasing(a: Seq<ClusterView>, b: Seq<ClusterView>)
    requires
        increasing_starts(a),
        increasing_starts(b),
        starts_differ(a, b),
    ensures
        increasing_starts(merged(a, b)),
    decreases a.len() + b.len(),
{
    if a.len() > 0 && b.len() > 0 {
        let a_first = a[0].span.0 <= b[0].span.0;
        let ra = if a_first {
            a.drop_first()
        } else {
            a
        };
        let rb = if a_first {
            b
        } else {
            b.drop_first()
        };
        let head = if a_first {
            a[0]
        } else {
            b[0]
        };
        assert(increasing_starts(ra)) by {
            assert forall|i: int, j: int| 0 <= i < j < ra.len() implies (#[trigger] ra[i]).span.0 < (
            #[trigger] ra[j]).span.0 by {
                if a_first {
                    assert(ra[i] == a[i + 1] && ra[j] == a[j + 1]);
                }
            }
        }
        assert(increasing_starts(rb)) by {
            assert forall|i: int, j: int| 0 <= i < j < rb.len() implies (#[trigger] rb[i]).span.0 < (
            #[trigger] rb[j]).span.0 by {
                if !a_first {
                    assert(rb[i] == b[i + 1] && rb[j] == b[j + 1]);
                }
            }
        }
        assert(starts_differ(ra, rb)) by {
            assert forall|i: int, j: int| 0 <= i < ra.len() && 0 <= j < rb.len() implies (
            #[trigger] ra[i]).span.0 != (#[trigger] rb[j]).span.0 by {
                if a_first {
                    assert(ra[i] == a[i + 1] && rb[j] == b[j]);
                } else {
                    assert(ra[i] == a[i] && rb[j] == b[j + 1]);
                }
            }
        }
        lemma_merged_increasing(ra, rb);
        lemma_increasing_sorted(ra);
        lemma_increasing_sorted(rb);
        lemma_merged(ra, rb);
        let rest = merged(ra, rb);
        let all = merged(a, b);
        assert(all =~= seq![head] + rest);
        assert forall|c: ClusterView| ra.contains(c) implies head.span.0 < c.span.0 by {
            let i = choose|i: int| 0 <= i < ra.len() && ra[i] == c;
            if a_first {
                assert(a[i + 1] == c);
                assert(a[0].span.0 < a[i + 1].span.0);
            } else {
                assert(a[i].span.0 != b[0].span.0);
                if i > 0 {
                    assert(a[0].span.0 < a[i].span.0);
                }
            }
        }
        assert forall|c: ClusterView| rb.contains(c) implies head.span.0 < c.span.0 by {
            let j = choose|j: int| 0 <= j < rb.len() && rb[j] == c;
            if a_first {
                assert(a[0].span.0 != b[j].span.0);
                if j > 0 {
                    assert(b[0].span.0 < b[j].span.0);
                }
            } else {
                assert(b[j + 1] == c);
                assert(b[0].span.0 < b[j + 1].span.0);
            }
        }
        assert forall|i: int, j: int| 0 <= i < j < all.len() implies (#[trigger] all[i]).span.0 < (
        #[trigger] all[j]).span.0 by {
            assert(all[j] == rest[j - 1]);
            if i > 0 {
                assert(all[i] == rest[i - 1]);
            }
        }
    }
}

/// The span starts of the clusters of a text increase: no two clusters
/// start at the same offset.
pub proof fn lemma_clusters_increasing(bytes: Seq<u8>)
    ensures
        increasing_starts(clusters_in(bytes)),
{
    let groups = groups_from(bytes, 0);
    let citations = citations_in(bytes);
    let kept = loose(citations, groups);
    let runs = runs_from(bytes, kept, 0);
    lemma_groups_from(bytes, 0);
    lemma_citations_from(bytes, 0);
    lemma_loose(bytes, citations, groups);
    lemma_runs_from(bytes, kept, 0);
    lemma_runs_start_at_citations(bytes, kept, 0);
    assert(increasing_starts(groups)) by {
        assert forall|i: int, j: int| 0 <= i < j < groups.len() implies (#[trigger] groups[i]).span.0
            < (#[trigger] groups[j]).span.0 by {
            assert(cluster_well_formed(bytes, groups[i]));
        }
    }
    assert(increasing_starts(runs)) by {
        assert forall|i: int, j: int| 0 <= i < j < runs.len() implies (#[trigger] runs[i]).span.0 < (
        #[trigger] runs[j]).span.0 by {
            assert(cluster_well_formed(bytes, runs[i]));
        }
    }
    assert(starts_differ(groups, runs)) by {
        assert forall|i: int, j: int| 0 <= i < groups.len() && 0 <= j < runs.len() implies (
        #[trigger] groups[i]).span.0 != (#[trigger] runs[j]).span.0 by {
            let m = choose|m: int| 0 <= m < kept.len() && kept[m].span.0 == runs[j].span.0;
            assert(!inside_any(groups, kept[m].span.0));
            assert(cluster_well_formed(bytes, groups[i]));
        }
    }
    lemma_merged_increasing(groups, runs);
}

} // verus!
