//! Adjacent citations form clusters; text or punctuation between them
//! keeps them apart.

use csl_tools::extract_citation_clusters;

/// Adjacent citations detected as a group
#[test]
fn test_adjacent_citations_grouped() {
    // Given: Markdown with adjacent citations separated by spaces
    let markdown = "Studies [@a] [@b] [@c] show that...";

    // When: We extract citation clusters
    let clusters = extract_citation_clusters(markdown);

    // Then: All three citations are grouped into a single cluster
    assert_eq!(
        clusters.len(),
        1,
        "Expected 1 cluster, got {}",
        clusters.len()
    );
    assert_eq!(
        clusters[0].items.len(),
        3,
        "Expected 3 items in cluster, got {}",
        clusters[0].items.len()
    );
    assert_eq!(clusters[0].items[0].id, "a");
    assert_eq!(clusters[0].items[1].id, "b");
    assert_eq!(clusters[0].items[2].id, "c");
}

/// Adjacent citations with URLs (space-separated)
#[test]
fn test_adjacent_citations_with_urls_grouped() {
    // Given: Markdown with adjacent citations that have URLs
    let markdown = "Studies [@a](url1) [@b](url2) [@c](url3) show...";

    // When: We extract citation clusters
    let clusters = extract_citation_clusters(markdown);

    // Then: All citations are grouped, URLs are preserved in items
    assert_eq!(
        clusters.len(),
        1,
        "Expected 1 cluster, got {}",
        clusters.len()
    );
    assert_eq!(
        clusters[0].items.len(),
        3,
        "Expected 3 items in cluster, got {}",
        clusters[0].items.len()
    );
    assert_eq!(clusters[0].items[0].url, Some("url1".into()));
    assert_eq!(clusters[0].items[1].url, Some("url2".into()));
    assert_eq!(clusters[0].items[2].url, Some("url3".into()));
}

/// Adjacent citations directly touching (no space)
#[test]
fn test_adjacent_citations_no_space_grouped() {
    // Given: Markdown with citations directly adjacent (no space between)
    let markdown = "Studies [@a][@b][@c] show that...";

    // When: We extract citation clusters
    let clusters = extract_citation_clusters(markdown);

    // Then: All citations are grouped into a single cluster
    assert_eq!(
        clusters.len(),
        1,
        "Expected 1 cluster, got {}",
        clusters.len()
    );
    assert_eq!(
        clusters[0].items.len(),
        3,
        "Expected 3 items in cluster, got {}",
        clusters[0].items.len()
    );
}

/// Adjacent citations with URLs directly touching (no space)
#[test]
fn test_adjacent_citations_with_urls_no_space_grouped() {
    // Given: Markdown with citations+URLs directly adjacent
    let markdown = "Studies [@a](url1)[@b](url2)[@c](url3) show...";

    // When: We extract citation clusters
    let clusters = extract_citation_clusters(markdown);

    // Then: All citations are grouped, URLs are preserved
    assert_eq!(
        clusters.len(),
        1,
        "Expected 1 cluster, got {}",
        clusters.len()
    );
    assert_eq!(
        clusters[0].items.len(),
        3,
        "Expected 3 items in cluster, got {}",
        clusters[0].items.len()
    );
    assert_eq!(clusters[0].items[0].url, Some("url1".into()));
    assert_eq!(clusters[0].items[1].url, Some("url2".into()));
}

/// Citations separated by punctuation are NOT grouped
#[test]
fn test_citations_separated_by_punctuation_not_grouped() {
    // Given: Markdown with citations separated by comma
    let markdown = "First [@a], then [@b].";

    // When: We extract citation clusters
    let clusters = extract_citation_clusters(markdown);

    // Then: Each citation is in its own cluster
    assert_eq!(
        clusters.len(),
        2,
        "Expected 2 clusters, got {}",
        clusters.len()
    );
    assert_eq!(clusters[0].items.len(), 1);
    assert_eq!(clusters[1].items.len(), 1);
}

/// Citations separated by text are NOT grouped
#[test]
fn test_citations_separated_by_text_not_grouped() {
    // Given: Markdown with text between citations
    let markdown = "See [@a] and also [@b].";

    // When: We extract citation clusters
    let clusters = extract_citation_clusters(markdown);

    // Then: Each citation is in its own cluster
    assert_eq!(
        clusters.len(),
        2,
        "Expected 2 clusters, got {}",
        clusters.len()
    );
}

/// Mix of grouped and isolated citations
#[test]
fn test_mixed_grouped_and_isolated() {
    // Given: Markdown with some adjacent and some separated citations
    let markdown = "First [@a] [@b] and then [@c] separately.";

    // When: We extract citation clusters
    let clusters = extract_citation_clusters(markdown);

    // Then: First two are grouped, third is isolated
    assert_eq!(
        clusters.len(),
        2,
        "Expected 2 clusters, got {}",
        clusters.len()
    );
    assert_eq!(
        clusters[0].items.len(),
        2,
        "Expected 2 items in first cluster, got {}",
        clusters[0].items.len()
    );
    assert_eq!(
        clusters[1].items.len(),
        1,
        "Expected 1 item in second cluster, got {}",
        clusters[1].items.len()
    );
}

/// Pandoc syntax [@a; @b; @c] is also supported
#[test]
fn test_pandoc_syntax_grouped() {
    // Given: Markdown with Pandoc multi-citation syntax
    let markdown = "Studies [@a; @b; @c] show that...";

    // When: We extract citation clusters
    let clusters = extract_citation_clusters(markdown);

    // Then: All citations are in a single cluster
    assert_eq!(
        clusters.len(),
        1,
        "Expected 1 cluster, got {}",
        clusters.len()
    );
    assert_eq!(
        clusters[0].items.len(),
        3,
        "Expected 3 items in cluster, got {}",
        clusters[0].items.len()
    );
    // Verify the IDs are extracted correctly
    assert_eq!(clusters[0].items[0].id, "a");
    assert_eq!(clusters[0].items[1].id, "b");
    assert_eq!(clusters[0].items[2].id, "c");
}

/// Pandoc syntax with locators [@book1, p. 10; @book2, ch. 3]
#[test]
fn test_pandoc_syntax_with_locators() {
    // Given: Markdown with Pandoc multi-citation syntax including locators
    let markdown = "See [@book1, p. 10; @book2, ch. 3] for details.";

    // When: We extract citation clusters
    let clusters = extract_citation_clusters(markdown);

    // Then: All citations are in a single cluster with locators preserved
    assert_eq!(
        clusters.len(),
        1,
        "Expected 1 cluster, got {}",
        clusters.len()
    );
    assert_eq!(
        clusters[0].items.len(),
        2,
        "Expected 2 items in cluster, got {}",
        clusters[0].items.len()
    );
    assert_eq!(clusters[0].items[0].id, "book1");
    assert_eq!(clusters[0].items[0].locator, Some("10".into()));
    assert_eq!(clusters[0].items[0].label, Some("page".into()));
    assert_eq!(clusters[0].items[1].id, "book2");
    assert_eq!(clusters[0].items[1].locator, Some("3".into()));
    assert_eq!(clusters[0].items[1].label, Some("chapter".into()));
}

/// Locators are preserved in grouped citations
#[test]
fn test_grouped_with_locators() {
    // Given: Markdown with adjacent citations that have locators
    let markdown = "See [@book1, p. 10] [@book2, ch. 3] for details.";

    // When: We extract citation clusters
    let clusters = extract_citation_clusters(markdown);

    // Then: Citations are grouped and locators are preserved
    assert_eq!(
        clusters.len(),
        1,
        "Expected 1 cluster, got {}",
        clusters.len()
    );
    assert_eq!(clusters[0].items[0].locator, Some("10".into()));
    assert_eq!(clusters[0].items[1].locator, Some("3".into()));
}

/// Simple single citation still works
#[test]
fn test_simple_citation_still_works() {
    // Given: Markdown with a single citation
    let markdown = "See [@ref1].";

    // When: We extract citation clusters
    let clusters = extract_citation_clusters(markdown);

    // Then: We get a single cluster with one item
    assert_eq!(
        clusters.len(),
        1,
        "Expected 1 cluster, got {}",
        clusters.len()
    );
    assert_eq!(
        clusters[0].items.len(),
        1,
        "Expected 1 item in cluster, got {}",
        clusters[0].items.len()
    );
}

/// URL is preserved for isolated citation
#[test]
fn test_isolated_citation_url_preserved() {
    // Given: Markdown with a citation that has a URL
    let markdown = "See [@ref1](https://doi.org/xxx).";

    // When: We extract citation clusters
    let clusters = extract_citation_clusters(markdown);

    // Then: The URL is preserved in the citation item
    assert_eq!(clusters.len(), 1);
    assert_eq!(clusters[0].items[0].url, Some("https://doi.org/xxx".into()));
}

/// Span covers entire cluster for adjacent citations
#[test]
fn test_cluster_span_covers_all_citations() {
    // Given: Markdown with adjacent citations
    let markdown = "Studies [@a] [@b] [@c] show that...";

    // When: We extract citation clusters
    let clusters = extract_citation_clusters(markdown);

    // Then: The span covers from first citation start to last citation end
    assert_eq!(clusters.len(), 1);
    let (start, end) = clusters[0].span;
    // "[@a] [@b] [@c]" should be the covered text
    let covered = &markdown[start..end];
    assert!(
        covered.contains("[@a]") && covered.contains("[@c]"),
        "Span should cover all citations, got: '{}'",
        covered
    );
}

/// Multiple separate groups in same document
#[test]
fn test_multiple_separate_groups() {
    // Given: Markdown with two separate groups of citations
    let markdown = "First [@a] [@b] and then [@c] [@d] [@e].";

    // When: We extract citation clusters
    let clusters = extract_citation_clusters(markdown);

    // Then: We get two clusters
    assert_eq!(
        clusters.len(),
        2,
        "Expected 2 clusters, got {}",
        clusters.len()
    );
    assert_eq!(
        clusters[0].items.len(),
        2,
        "First cluster should have 2 items"
    );
    assert_eq!(
        clusters[1].items.len(),
        3,
        "Second cluster should have 3 items"
    );
}
