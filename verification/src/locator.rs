//! Locators: the free text after a citation key, such as `p. 42` or `ch. 3`.

use vstd::prelude::*;
use vstd::string::StringSliceAdditionalSpecFns;
use vstd::utf8::encode_utf8;
use crate::text::{
    is_char_range, lemma_chunk_boundary, lemma_str_bytes, option_bytes, substring, trim,
    trim_range,
};

verus! {

/// What a recognised locator prefix stands for.
#[derive(Clone, Copy, Debug, PartialEq, Eq, Structural)]
pub enum LocatorKind {
    Page,
    Chapter,
    Section,
}

impl LocatorKind {
    /// The label as it is handed to a citation style.
    pub open spec fn text(self) -> Seq<char> {
        match self {
            LocatorKind::Page => "page"@,
            LocatorKind::Chapter => "chapter"@,
            LocatorKind::Section => "section"@,
        }
    }

    /// The label as an owned string.
    pub fn label(self) -> (r: String)
        ensures
            r@ == self.text(),
    {
        match self {
            LocatorKind::Page => "page".to_owned(),
            LocatorKind::Chapter => "chapter".to_owned(),
            LocatorKind::Section => "section".to_owned(),
        }
    }
}

/// Number of recognised prefixes.
pub const PREFIX_COUNT: usize = 8;

/// The recognised prefixes in the order in which they are tried. The longer
/// of two prefixes that begin alike comes first, so that `pp.` is not taken
/// for `p.` nor `pages` for `page`.
pub open spec fn prefix_text(k: int) -> Seq<char> {
    if k == 0 {
        "pp."@
    } else if k == 1 {
        "p."@
    } else if k == 2 {
        "ch."@
    } else if k == 3 {
        "sec."@
    } else if k == 4 {
        "pages"@
    } else if k == 5 {
        "page"@
    } else if k == 6 {
        "chapter"@
    } else {
        "section"@
    }
}

/// What the prefix of that index stands for.
pub open spec fn prefix_kind(k: int) -> LocatorKind {
    if k == 0 || k == 1 || k == 4 || k == 5 {
        LocatorKind::Page
    } else if k == 2 || k == 6 {
        LocatorKind::Chapter
    } else {
        LocatorKind::Section
    }
}

/// `s` begins with `p`.
pub open spec fn starts_with(s: Seq<u8>, p: Seq<u8>) -> bool {
    p.len() <= s.len() && s.subrange(0, p.len() as int) == p
}

/// Index of the first prefix, from `from` on, that `s` begins with;
/// `PREFIX_COUNT` when it begins with none.
pub open spec fn first_prefix(s: Seq<u8>, from: int) -> int
    decreases PREFIX_COUNT - from,
{
    if from >= PREFIX_COUNT {
        PREFIX_COUNT as int
    } else if starts_with(s, encode_utf8(prefix_text(from))) {
        from
    } else {
        first_prefix(s, from + 1)
    }
}

/// A parsed locator: its value and the label of its kind, as bytes.
pub struct LocatorView {
    pub locator: Option<Seq<u8>>,
    pub label: Option<Seq<u8>>,
}

/// The locator that the text `s` stands for.
///
/// The text is trimmed. If it begins with a recognised prefix and something
/// other than whitespace follows, that rest, trimmed, is the value and the
/// prefix gives the label. The first prefix that the text begins with
/// decides: a prefix with nothing after it leaves the whole text as a value
/// without a label. Text without a prefix is a value without a label, and
/// empty text is no locator at all.
pub open spec fn parsed_locator(s: Seq<u8>) -> LocatorView {
    let t = trim(s);
    let k = first_prefix(t, 0);
    let rest = trim(t.skip(encode_utf8(prefix_text(k)).len() as int));
    if k < PREFIX_COUNT && rest.len() > 0 {
        LocatorView { locator: Some(rest), label: Some(encode_utf8(prefix_kind(k).text())) }
    } else if t.len() > 0 {
        LocatorView { locator: Some(t), label: None }
    } else {
        LocatorView { locator: None, label: None }
    }
}

fn prefix_str(k: usize) -> (r: &'static str)
    requires
        k < PREFIX_COUNT,
    ensures
        r@ == prefix_text(k as int),
{
    if k == 0 {
        "pp."
    } else if k == 1 {
        "p."
    } else if k == 2 {
        "ch."
    } else if k == 3 {
        "sec."
    } else if k == 4 {
        "pages"
    } else if k == 5 {
        "page"
    } else if k == 6 {
        "chapter"
    } else {
        "section"
    }
}

fn kind_of_prefix(k: usize) -> (r: LocatorKind)
    requires
        k < PREFIX_COUNT,
    ensures
        r == prefix_kind(k as int),
{
    if k == 0 || k == 1 || k == 4 || k == 5 {
        LocatorKind::Page
    } else if k == 2 || k == 6 {
        LocatorKind::Chapter
    } else {
        LocatorKind::Section
    }
}

/// Whether `start..end` of `bytes` begins with `pattern`.
pub fn range_starts_with(bytes: &[u8], start: usize, end: usize, pattern: &[u8]) -> (r: bool)
    requires
        start <= end <= bytes@.len(),
    ensures
        r == starts_with(bytes@.subrange(start as int, end as int), pattern@),
{
    let n: usize = pattern.len();
    let ghost s = bytes@.subrange(start as int, end as int);
    if end - start < n {
        return false;
    }
    let mut i: usize = 0;
    while i < n
        invariant
            i <= n,
            n == pattern@.len(),
            start + n <= end <= bytes@.len(),
            s == bytes@.subrange(start as int, end as int),
            forall|j: int| 0 <= j < i ==> s[j] == pattern@[j],
        decreases n - i,
    {
        if bytes[start + i] != pattern[i] {
            assert(s.subrange(0, n as int)[i as int] != pattern@[i as int]);
            return false;
        }
        i = i + 1;
    }
    assert(s.subrange(0, n as int) =~= pattern@);
    true
}

/// Index of the first prefix that `start..end` begins with.
fn find_prefix(bytes: &[u8], start: usize, end: usize) -> (k: usize)
    requires
        start <= end <= bytes@.len(),
    ensures
        k == first_prefix(bytes@.subrange(start as int, end as int), 0),
        k <= PREFIX_COUNT,
        k < PREFIX_COUNT ==> starts_with(
            bytes@.subrange(start as int, end as int),
            encode_utf8(prefix_text(k as int)),
        ),
{
    let ghost s = bytes@.subrange(start as int, end as int);
    let mut k: usize = 0;
    while k < PREFIX_COUNT
        invariant
            k <= PREFIX_COUNT,
            start <= end <= bytes@.len(),
            s == bytes@.subrange(start as int, end as int),
            first_prefix(s, 0) == first_prefix(s, k as int),
        decreases PREFIX_COUNT - k,
    {
        let p: &str = prefix_str(k);
        if range_starts_with(bytes, start, end, p.as_bytes()) {
            return k;
        }
        k = k + 1;
    }
    k
}

/// Parses the locator in `start..end` of `text`, whose bytes are `bytes`.
pub fn parse_locator_range(text: &str, bytes: &[u8], start: usize, end: usize) -> (r: (
    Option<String>,
    Option<String>,
))
    requires
        bytes@ == text.spec_bytes(),
        is_char_range(bytes@, start as int, end as int),
    ensures
        option_bytes(r.0) == parsed_locator(bytes@.subrange(start as int, end as int)).locator,
        option_bytes(r.1) == parsed_locator(bytes@.subrange(start as int, end as int)).label,
        r.1 is Some ==> r.0 is Some,
{
    proof {
        lemma_str_bytes(text@);
    }
    let (a, b) = trim_range(bytes, start, end);
    let k: usize = find_prefix(bytes, a, b);
    if k < PREFIX_COUNT {
        let p: &str = prefix_str(k);
        let n: usize = p.as_bytes().len();
        proof {
            lemma_str_bytes(p@);
            let t = bytes@.subrange(a as int, b as int);
            assert(t.subrange(0, n as int) =~= bytes@.subrange(a as int, a + n));
            lemma_chunk_boundary(bytes@, a as int, a + n);
            assert(t.skip(n as int) =~= bytes@.subrange(a + n, b as int));
        }
        let (c, d) = trim_range(bytes, a + n, b);
        if c < d {
            let value: String = substring(text, c, d).to_owned();
            let label: String = kind_of_prefix(k).label();
            return (Some(value), Some(label));
        }
    }
    if a < b {
        let value: String = substring(text, a, b).to_owned();
        (Some(value), None)
    } else {
        (None, None)
    }
}

/// Parses a locator such as `p. 42`, `pp. 10-20`, `ch. 3` or `section 2.1`
/// into its value and its label (`page`, `chapter` or `section`).
pub fn parse_locator(locator_str: &str) -> (r: (Option<String>, Option<String>))
    ensures
        option_bytes(r.0) == parsed_locator(locator_str.spec_bytes()).locator,
        option_bytes(r.1) == parsed_locator(locator_str.spec_bytes()).label,
        r.1 is Some ==> r.0 is Some,
{
    let bytes: &[u8] = locator_str.as_bytes();
    proof {
        lemma_str_bytes(locator_str@);
        assert(bytes@.subrange(0, bytes@.len() as int) =~= bytes@);
    }
    parse_locator_range(locator_str, bytes, 0, bytes.len())
}

/// A label comes only with a value, a value is never empty, and the label
/// is one of the three kinds.
pub proof fn lemma_parsed_locator(s: Seq<u8>)
    ensures
        parsed_locator(s).label is Some ==> parsed_locator(s).locator is Some,
        parsed_locator(s).locator matches Some(value) ==> value.len() > 0,
        parsed_locator(s).label matches Some(label) ==> label == encode_utf8(LocatorKind::Page.text())
            || label == encode_utf8(LocatorKind::Chapter.text()) || label == encode_utf8(
            LocatorKind::Section.text(),
        ),
{
}

} // verus!
