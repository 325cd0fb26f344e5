//! Whole documents: scanning, clustering, rewriting and assembling.

use csl_tools::output::{spans_replaceable, try_replace_citations};
use csl_tools::processor::processed_clusters;
use csl_tools::{
    extract_citation_clusters, extract_citations, generate_output, parse_locator,
    replace_citations, ProcessedCitation,
};

fn edit(start: usize, end: usize, text: &str) -> ProcessedCitation {
    ProcessedCitation { original_span: (start, end), formatted: text.to_string() }
}

#[test]
fn text_without_markers_has_no_citations() {
    let texts = [
        "",
        "plain text",
        "[a] (b) @c",
        "[ @a]",
        "@[a]",
        "[@",
        "[@]",
        "[@a",
        "[@a,]",
        "[@[a]",
        "e-mail@example.org; see [1]",
    ];
    for text in texts {
        assert!(extract_citations(text).is_empty(), "{:?}", text);
        assert!(extract_citation_clusters(text).is_empty(), "{:?}", text);
    }
}

#[test]
fn spans_cover_markers() {
    let text = "\u{e9}t\u{e9} [@a] et [@b, p. 2](http://x) puis [@c; @d] [@e](u)[@f]\n[@g, ]";
    let citations = extract_citations(text);
    assert_eq!(citations.len(), 6);
    for c in &citations {
        let marker = &text[c.span.0..c.span.1];
        assert!(marker.starts_with("[@"), "{:?}", marker);
        assert!(marker.ends_with(']') || marker.ends_with(')'), "{:?}", marker);
    }
    for pair in citations.windows(2) {
        assert!(pair[0].span.1 <= pair[1].span.0);
    }
}

#[test]
fn scanning_twice_gives_the_same() {
    let text = "See [@a, pp. 3-4] and [@b](u) [@c; @d, ch. 2].";
    assert_eq!(extract_citations(text), extract_citations(text));
    assert_eq!(extract_citation_clusters(text), extract_citation_clusters(text));
}

#[test]
fn markers_in_detail() {
    let citations = extract_citations("[@ key one , section 4.2 ](http://x/(y)z");
    assert_eq!(citations.len(), 1);
    assert_eq!(citations[0].id, "key one");
    assert_eq!(citations[0].locator, Some("4.2".to_string()));
    assert_eq!(citations[0].label, Some("section".to_string()));
    assert_eq!(citations[0].url, Some("http://x/(y".to_string()));
    assert_eq!(citations[0].span, (0, 39));

    let citations = extract_citations("[@a]()[@b](");
    assert_eq!(citations.len(), 2);
    assert_eq!(citations[0].url, None);
    assert_eq!(citations[0].span, (0, 4));
    assert_eq!(citations[1].url, None);
    assert_eq!(citations[1].span, (6, 10));

    let citations = extract_citations("[@a,   ]");
    assert_eq!(citations.len(), 1);
    assert_eq!(citations[0].locator, None);
    assert_eq!(citations[0].label, None);

    let citations = extract_citations("[@a, see p. 3, and more]");
    assert_eq!(citations[0].locator, Some("see p. 3, and more".to_string()));
    assert_eq!(citations[0].label, None);

    let citations = extract_citations("[[@a]]");
    assert_eq!(citations.len(), 1);
    assert_eq!(citations[0].span, (1, 5));
}

#[test]
fn adjacency() {
    let clusters = extract_citation_clusters("[@a] [@b]");
    assert_eq!(clusters.len(), 1);
    assert_eq!(clusters[0].items.len(), 2);
    assert_eq!(clusters[0].span, (0, 9));

    let clusters = extract_citation_clusters("[@a], [@b]");
    assert_eq!(clusters.len(), 2);
    assert_eq!(clusters[0].items.len(), 1);
    assert_eq!(clusters[1].items.len(), 1);
    assert_eq!(clusters[0].span, (0, 4));
    assert_eq!(clusters[1].span, (6, 10));

    let clusters = extract_citation_clusters("[@a][@b]");
    assert_eq!(clusters.len(), 1);
    assert_eq!(clusters[0].items.len(), 2);

    let clusters = extract_citation_clusters("[@a] \t [@b]");
    assert_eq!(clusters.len(), 1);

    let clusters = extract_citation_clusters("[@a]\n[@b]");
    assert_eq!(clusters.len(), 2);

    let clusters = extract_citation_clusters("[@a]\u{a0}[@b]");
    assert_eq!(clusters.len(), 2);
}

#[test]
fn groups_take_precedence() {
    let clusters = extract_citation_clusters("[@a; @b]");
    assert_eq!(clusters.len(), 1);
    assert_eq!(clusters[0].items.len(), 2);
    assert_eq!(clusters[0].items[0].id, "a");
    assert_eq!(clusters[0].items[1].id, "b");
    assert_eq!(clusters[0].items[0].url, None);
    assert_eq!(clusters[0].items[1].url, None);
    assert_eq!(clusters[0].span, (0, 8));
}

#[test]
fn groups_in_detail() {
    let clusters = extract_citation_clusters("[@a;; b; @c, pp. 1-2 ;@ d , x](u) [@e]");
    assert_eq!(clusters.len(), 2);
    let ids: Vec<&str> = clusters[0].items.iter().map(|i| i.id.as_str()).collect();
    assert_eq!(ids, vec!["a", "c", "d"]);
    assert_eq!(clusters[0].items[1].locator, Some("1-2".to_string()));
    assert_eq!(clusters[0].items[1].label, Some("page".to_string()));
    assert_eq!(clusters[0].items[2].locator, Some("x".to_string()));
    assert_eq!(clusters[0].items[2].label, None);
    assert_eq!(clusters[0].span, (0, 30));
    assert_eq!(clusters[1].items[0].id, "e");
    assert_eq!(clusters[1].span, (34, 38));
}

#[test]
fn clusters_come_in_document_order() {
    let text = "[@a] then [@b; @c] then [@d] [@e] and [@f; @g]";
    let clusters = extract_citation_clusters(text);
    let starts: Vec<usize> = clusters.iter().map(|c| c.span.0).collect();
    assert_eq!(starts, vec![0, 10, 24, 38]);
    let sizes: Vec<usize> = clusters.iter().map(|c| c.items.len()).collect();
    assert_eq!(sizes, vec![1, 2, 2, 2]);
}

#[test]
fn locators() {
    let some = |s: &str| Some(s.to_string());
    assert_eq!(parse_locator("pp. 10-20"), (some("10-20"), some("page")));
    assert_eq!(parse_locator("p. 42"), (some("42"), some("page")));
    assert_eq!(parse_locator("ch. 3"), (some("3"), some("chapter")));
    assert_eq!(parse_locator("sec. 4.2"), (some("4.2"), some("section")));
    assert_eq!(parse_locator("pages 5-10"), (some("5-10"), some("page")));
    assert_eq!(parse_locator("page 15"), (some("15"), some("page")));
    assert_eq!(parse_locator("chapter 7"), (some("7"), some("chapter")));
    assert_eq!(parse_locator("section 2.1"), (some("2.1"), some("section")));
    assert_eq!(parse_locator("  p.42  "), (some("42"), some("page")));
    assert_eq!(parse_locator("pp.\u{a0}7"), (some("7"), some("page")));
    assert_eq!(parse_locator("pagex"), (some("x"), some("page")));
    assert_eq!(parse_locator("fig. 2"), (some("fig. 2"), None));
    assert_eq!(parse_locator("P. 2"), (some("P. 2"), None));
    assert_eq!(parse_locator(""), (None, None));
    assert_eq!(parse_locator(" \t\n"), (None, None));
}

#[test]
fn locator_prefix_without_a_value() {
    let some = |s: &str| Some(s.to_string());
    assert_eq!(parse_locator("pp."), (some("pp."), None));
    assert_eq!(parse_locator("p. "), (some("p."), None));
    assert_eq!(parse_locator("chapter"), (some("chapter"), None));
    assert_eq!(parse_locator("pages"), (some("pages"), None));
}

#[test]
fn replacement_of_any_length() {
    let text = "Text [@a] more.";
    assert_eq!(replace_citations(text, &[edit(5, 9, "(X)")]), "Text (X) more.");
    assert_eq!(replace_citations(text, &[edit(5, 9, "(XY)")]), "Text (XY) more.");
    assert_eq!(replace_citations(text, &[edit(5, 9, "(Long, 2021)")]), "Text (Long, 2021) more.");
    assert_eq!(replace_citations(text, &[edit(5, 9, "")]), "Text  more.");
    assert_eq!(replace_citations(text, &[edit(5, 5, "+")]), "Text +[@a] more.");
    assert_eq!(replace_citations(text, &[edit(0, 15, "all")]), "all");
}

#[test]
fn replacement_in_any_order() {
    let text = "\u{e9} [@a] and [@b] end";
    let a = edit(3, 7, "(1)");
    let b = edit(12, 16, "(twenty-two)");
    let ascending = replace_citations(text, &[a.clone(), b.clone()]);
    let descending = replace_citations(text, &[b.clone(), a.clone()]);
    assert_eq!(ascending, "\u{e9} (1) and (twenty-two) end");
    assert_eq!(ascending, descending);

    let c = edit(16, 16, "!");
    let orders = [
        vec![a.clone(), b.clone(), c.clone()],
        vec![a.clone(), c.clone(), b.clone()],
        vec![b.clone(), a.clone(), c.clone()],
        vec![b.clone(), c.clone(), a.clone()],
        vec![c.clone(), a.clone(), b.clone()],
        vec![c.clone(), b.clone(), a.clone()],
    ];
    for order in orders {
        assert_eq!(replace_citations(text, &order), "\u{e9} (1) and (twenty-two)! end");
    }
}

fn replaced_from_the_end(text: &str, edits: &[ProcessedCitation]) -> String {
    let mut sorted: Vec<&ProcessedCitation> = edits.iter().collect();
    sorted.sort_by(|a, b| b.original_span.0.cmp(&a.original_span.0));
    let mut result = text.to_string();
    for e in sorted {
        result.replace_range(e.original_span.0..e.original_span.1, &e.formatted);
    }
    result
}

#[test]
fn replacement_is_substitution_from_the_end() {
    let text = "0123456789abcdefghij";
    let mut state: u64 = 7;
    let mut next = |bound: usize| {
        state = state.wrapping_mul(6364136223846793005).wrapping_add(1442695040888963407);
        ((state >> 33) as usize) % bound
    };
    for _ in 0..2000 {
        let mut edits = Vec::new();
        let mut pos = next(4);
        while pos < text.len() && edits.len() < 5 {
            let end = (pos + next(4)).min(text.len());
            edits.push(edit(pos, end, &"xyzw"[..next(5)]));
            pos = end + 1 + next(4);
        }
        let count = edits.len();
        let shift = next(count + 1).min(count);
        edits.rotate_left(shift);
        assert!(spans_replaceable(text, &edits));
        assert_eq!(replace_citations(text, &edits), replaced_from_the_end(text, &edits));
    }
}

#[test]
fn spans_that_cannot_be_replaced() {
    let text = "a\u{e9}b [@a]";
    assert!(spans_replaceable(text, &[edit(0, 1, ""), edit(1, 3, "")]));
    assert!(!spans_replaceable(text, &[edit(1, 2, "")]));
    assert!(!spans_replaceable(text, &[edit(2, 3, "")]));
    assert!(!spans_replaceable(text, &[edit(3, 2, "")]));
    assert!(!spans_replaceable(text, &[edit(5, 10, "")]));
    assert!(!spans_replaceable(text, &[edit(0, 4, ""), edit(3, 5, "")]));
    assert!(!spans_replaceable(text, &[edit(3, 5, ""), edit(0, 4, "")]));
    assert!(!spans_replaceable(text, &[edit(3, 3, "x"), edit(3, 3, "y")]));
    assert!(!spans_replaceable(text, &[edit(3, 3, "x"), edit(3, 4, "y")]));
    assert_eq!(try_replace_citations(text, &[edit(1, 2, "")]), None);
    assert_eq!(try_replace_citations(text, &[edit(1, 3, "e")]), Some("aeb [@a]".to_string()));
}

#[test]
fn output_is_assembled() {
    assert_eq!(generate_output("Some text", None, "## References"), "Some text");
    assert_eq!(generate_output("Some text", Some(""), "## References"), "Some text");
    assert_eq!(generate_output("Some text \n\n", None, "## References"), "Some text");
    assert_eq!(generate_output("  Some text\u{a0}", None, "## References"), "  Some text");
    assert_eq!(
        generate_output("Some text\n", Some("X"), "## References"),
        "Some text\n\n## References\n\nX"
    );
    assert_eq!(generate_output("", Some(" X \n"), ""), "\n\n\n\n X \n");
    let result = generate_output("Some text", Some("X"), "## References");
    assert!(result.find("## References").unwrap() < result.rfind('X').unwrap());
}

#[test]
fn a_run_of_three_is_replaced_as_one() {
    let text = "Studies [@a] [@b] [@c] show that...";
    let clusters = extract_citation_clusters(text);
    assert_eq!(clusters.len(), 1);
    assert_eq!(clusters[0].items.len(), 3);
    assert_eq!(&text[clusters[0].span.0..clusters[0].span.1], "[@a] [@b] [@c]");
    let processed = processed_clusters(&clusters, "(1\u{2013}3)\n");
    assert_eq!(processed.len(), 1);
    assert_eq!(processed[0].original_span, clusters[0].span);
    assert_eq!(replace_citations(text, &processed), "Studies (1\u{2013}3) show that...");
}
