//! The scanners against the regular expressions that state the same
//! grammars, on every short text over the delimiters and on longer texts
//! put together from fragments.

use csl_tools::{
    extract_citation_clusters, extract_citations, extract_pandoc_grouped_citations, parse_locator,
    Citation, CitationCluster, CitationItem,
};
use regex::Regex;

fn markers_by_pattern(re: &Regex, text: &str) -> Vec<Citation> {
    re.captures_iter(text)
        .map(|cap| {
            let whole = cap.get(0).unwrap();
            let (locator, label) = match cap.get(2) {
                Some(m) => parse_locator(m.as_str()),
                None => (None, None),
            };
            Citation {
                id: cap.get(1).unwrap().as_str().trim().to_string(),
                locator,
                label,
                url: cap.get(3).map(|m| m.as_str().to_string()),
                span: (whole.start(), whole.end()),
            }
        })
        .collect()
}

fn groups_by_pattern(re: &Regex, text: &str) -> Vec<CitationCluster> {
    let mut clusters = Vec::new();
    for cap in re.captures_iter(text) {
        let whole = cap.get(0).unwrap();
        let mut items = Vec::new();
        for part in cap.get(1).unwrap().as_str().split(';') {
            let part = part.trim();
            if let Some(rest) = part.strip_prefix('@') {
                let (id, locator, label) = match rest.find(',') {
                    Some(comma) => {
                        let (locator, label) = parse_locator(&rest[comma + 1..]);
                        (rest[..comma].trim().to_string(), locator, label)
                    }
                    None => (rest.trim().to_string(), None, None),
                };
                items.push(CitationItem { id, locator, label, url: None });
            }
        }
        if !items.is_empty() {
            clusters.push(CitationCluster { items, span: (whole.start(), whole.end()) });
        }
    }
    clusters
}

fn clusters_by_rule(marker: &Regex, group: &Regex, text: &str) -> Vec<CitationCluster> {
    let groups = groups_by_pattern(group, text);
    let mut all = groups.clone();
    let mut open: Option<CitationCluster> = None;
    for c in markers_by_pattern(marker, text) {
        if groups.iter().any(|g| g.span.0 <= c.span.0 && c.span.0 < g.span.1) {
            continue;
        }
        let item = CitationItem { id: c.id, locator: c.locator, label: c.label, url: c.url };
        let joins = match &open {
            Some(run) => text[run.span.1..c.span.0].chars().all(|ch| ch == ' ' || ch == '\t'),
            None => false,
        };
        if joins {
            let run = open.as_mut().unwrap();
            run.items.push(item);
            run.span.1 = c.span.1;
        } else {
            if let Some(run) = open.take() {
                all.push(run);
            }
            open = Some(CitationCluster { items: vec![item], span: c.span });
        }
    }
    if let Some(run) = open.take() {
        all.push(run);
    }
    all.sort_by_key(|c| c.span.0);
    all
}

fn marker_pattern() -> Regex {
    Regex::new(r"\[@([^\]\[,]+)(?:,\s*([^\]]+))?\](?:\(([^)]+)\))?").unwrap()
}

fn group_pattern() -> Regex {
    Regex::new(r"\[(@[^\]]+;[^\]]*)\]").unwrap()
}

fn check(marker: &Regex, group: &Regex, text: &str) {
    assert_eq!(extract_citations(text), markers_by_pattern(marker, text), "markers of {:?}", text);
    assert_eq!(
        extract_pandoc_grouped_citations(text),
        groups_by_pattern(group, text),
        "groups of {:?}",
        text
    );
    assert_eq!(
        extract_citation_clusters(text),
        clusters_by_rule(marker, group, text),
        "clusters of {:?}",
        text
    );
}

fn check_all_texts(first: &str, alphabet: &[&str], longest: usize) {
    let marker = marker_pattern();
    let group = group_pattern();
    let mut texts: Vec<String> = vec![first.to_string()];
    for _ in 0..longest {
        let mut next = Vec::new();
        for t in &texts {
            check(&marker, &group, t);
            for a in alphabet {
                next.push(format!("{}{}", t, a));
            }
        }
        texts = next;
    }
    for t in &texts {
        check(&marker, &group, t);
    }
}

#[test]
fn short_texts_over_the_delimiters() {
    check_all_texts("", &["[", "]", "@", ",", ";", "(", ")", " ", "a"], 5);
}

#[test]
fn texts_that_open_a_marker() {
    check_all_texts("[@", &["[", "]", "@", ",", ";", "(", ")", " ", "a"], 5);
}

#[test]
fn texts_after_a_key() {
    check_all_texts("[@a", &["[@", "]", ",", ";", "(", ")", " ", "b", "\u{e9}"], 5);
}

#[test]
fn texts_after_a_closed_marker() {
    check_all_texts("[@a]", &["[@b", "]", ",", ";", "(", ")", " ", "\t", "\n"], 5);
}

#[test]
fn texts_inside_a_group() {
    check_all_texts("[@a;", &["@b", "]", ",", ";", " ", "p.", "1", "[", "\u{a0}"], 5);
}

struct Fragments {
    state: u64,
}

impl Fragments {
    fn next(&mut self, bound: usize) -> usize {
        self.state = self
            .state
            .wrapping_mul(6364136223846793005)
            .wrapping_add(1442695040888963407);
        ((self.state >> 33) as usize) % bound
    }
}

#[test]
fn longer_texts_from_fragments() {
    let fragments = [
        "[@", "]", "(", ")", ",", ";", " ", "\t", "\n", "a", "\u{e9}", "\u{a0}", "\u{2003}",
        "p. ", "pp.", "ch.", "sec. ", "pages ", "page", "chapter 1", "section", "12", "@", "[",
        "(u)", "](", "; @", ", ", "[@k]", "[@k, p. 3]", "[@a; @b]", "\u{1F600}",
    ];
    let marker = marker_pattern();
    let group = group_pattern();
    let mut source = Fragments { state: 2024 };
    for _ in 0..20000 {
        let count = 1 + source.next(14);
        let mut text = String::new();
        for _ in 0..count {
            text.push_str(fragments[source.next(fragments.len())]);
        }
        check(&marker, &group, &text);
    }
}
