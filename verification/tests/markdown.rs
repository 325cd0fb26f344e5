use csl_tools::extract_citations;

#[test]
fn test_empty_text() {
    let citations = extract_citations("");
    assert!(citations.is_empty());
}

#[test]
fn test_no_citations() {
    let citations = extract_citations("This is plain text without citations.");
    assert!(citations.is_empty());
}

// Basic citation parsing tests

#[test]
fn test_simple_citation() {
    // Given: Markdown with a simple citation
    let markdown = "Les résultats montrent [@item-1] que la méthode fonctionne.";

    // When: We extract citations
    let citations = extract_citations(markdown);

    // Then: We find one citation with the correct id
    assert_eq!(citations.len(), 1);
    assert_eq!(citations[0].id, "item-1");
    assert_eq!(citations[0].locator, None);
    assert_eq!(citations[0].label, None);
    assert_eq!(citations[0].url, None);
}

#[test]
fn test_pmid_format_citation() {
    // Given: Markdown with a PMID-prefixed citation key
    let markdown = "L'étude [@pmid:12345678] a démontré ces résultats.";

    // When: We extract citations
    let citations = extract_citations(markdown);

    // Then: We find one citation with the PMID key
    assert_eq!(citations.len(), 1);
    assert_eq!(citations[0].id, "pmid:12345678");
}

#[test]
fn test_citation_span() {
    // Given: Markdown with a citation
    let markdown = "Text [@item-1] more text.";

    // When: We extract citations
    let citations = extract_citations(markdown);

    // Then: The span correctly points to the citation in the text
    assert_eq!(citations.len(), 1);
    let (start, end) = citations[0].span;
    assert_eq!(&markdown[start..end], "[@item-1]");
}

#[test]
fn test_multiple_citations() {
    // Given: Markdown with multiple citations
    let markdown = "First [@item-1] and second [@item-2] citations.";

    // When: We extract citations
    let citations = extract_citations(markdown);

    // Then: We find both citations in order
    assert_eq!(citations.len(), 2);
    assert_eq!(citations[0].id, "item-1");
    assert_eq!(citations[1].id, "item-2");
}

#[test]
fn test_citation_with_special_chars() {
    // Given: Markdown with citation keys containing special characters
    let markdown = "See [@doi:10.1234/test_key] for details.";

    // When: We extract citations
    let citations = extract_citations(markdown);

    // Then: The key with special characters is extracted correctly
    assert_eq!(citations.len(), 1);
    assert_eq!(citations[0].id, "doi:10.1234/test_key");
}

#[test]
fn test_citation_at_start_of_text() {
    // Given: Citation at the very start
    let markdown = "[@item-1] begins the sentence.";

    // When: We extract citations
    let citations = extract_citations(markdown);

    // Then: Citation is found
    assert_eq!(citations.len(), 1);
    assert_eq!(citations[0].id, "item-1");
    assert_eq!(citations[0].span.0, 0);
}

#[test]
fn test_citation_at_end_of_text() {
    // Given: Citation at the very end
    let markdown = "The source is [@item-1]";

    // When: We extract citations
    let citations = extract_citations(markdown);

    // Then: Citation is found
    assert_eq!(citations.len(), 1);
    assert_eq!(citations[0].id, "item-1");
}

// Citation with URL parsing tests

#[test]
fn test_citation_with_doi_url() {
    // Given: Markdown with a citation followed by a DOI URL
    let markdown =
        "Les coronavirus [@pmid:33024307](https://doi.org/10.1038/s41579-020-00459-7) sont étudiés.";

    // When: We extract citations
    let citations = extract_citations(markdown);

    // Then: We find one citation with the correct id and URL
    assert_eq!(citations.len(), 1);
    assert_eq!(citations[0].id, "pmid:33024307");
    assert_eq!(
        citations[0].url,
        Some("https://doi.org/10.1038/s41579-020-00459-7".to_string())
    );
}

#[test]
fn test_citation_with_url_span() {
    // Given: Markdown with a citation and URL
    let markdown = "Text [@item-1](https://example.com) more text.";

    // When: We extract citations
    let citations = extract_citations(markdown);

    // Then: The span includes the entire citation with URL
    assert_eq!(citations.len(), 1);
    let (start, end) = citations[0].span;
    assert_eq!(&markdown[start..end], "[@item-1](https://example.com)");
}

#[test]
fn test_citation_without_url_still_works() {
    // Given: Markdown with a citation without URL (regression test)
    let markdown = "See [@item-1] for details.";

    // When: We extract citations
    let citations = extract_citations(markdown);

    // Then: Citation is found with no URL
    assert_eq!(citations.len(), 1);
    assert_eq!(citations[0].id, "item-1");
    assert_eq!(citations[0].url, None);
}

#[test]
fn test_mixed_citations_with_and_without_urls() {
    // Given: Markdown with some citations having URLs and some not
    let markdown = "First [@item-1](https://doi.org/1) and second [@item-2] citations.";

    // When: We extract citations
    let citations = extract_citations(markdown);

    // Then: Both citations are found with correct URL status
    assert_eq!(citations.len(), 2);
    assert_eq!(citations[0].id, "item-1");
    assert_eq!(citations[0].url, Some("https://doi.org/1".to_string()));
    assert_eq!(citations[1].id, "item-2");
    assert_eq!(citations[1].url, None);
}

#[test]
fn test_citation_url_with_special_chars() {
    // Given: URL with special characters (query params, fragments)
    let markdown = "See [@item-1](https://example.com/path?query=1&foo=bar#section) here.";

    // When: We extract citations
    let citations = extract_citations(markdown);

    // Then: URL is captured correctly including special chars
    assert_eq!(citations.len(), 1);
    assert_eq!(
        citations[0].url,
        Some("https://example.com/path?query=1&foo=bar#section".to_string())
    );
}

// Locator parsing tests

#[test]
fn test_citation_with_page_locator() {
    // Given: Markdown with a citation containing a page locator
    let markdown = "Voir [@book-1, p. 42] pour plus de détails.";

    // When: We extract citations
    let citations = extract_citations(markdown);

    // Then: We find the citation with locator and label
    assert_eq!(citations.len(), 1);
    assert_eq!(citations[0].id, "book-1");
    assert_eq!(citations[0].locator, Some("42".to_string()));
    assert_eq!(citations[0].label, Some("page".to_string()));
}

#[test]
fn test_citation_with_page_range() {
    // Given: Markdown with a citation containing a page range
    let markdown = "Cette section [@article-1, pp. 10-20] décrit la méthodologie.";

    // When: We extract citations
    let citations = extract_citations(markdown);

    // Then: We find the citation with page range
    assert_eq!(citations.len(), 1);
    assert_eq!(citations[0].id, "article-1");
    assert_eq!(citations[0].locator, Some("10-20".to_string()));
    assert_eq!(citations[0].label, Some("page".to_string()));
}

#[test]
fn test_citation_with_chapter_locator() {
    // Given: Markdown with a citation containing a chapter locator
    let markdown = "See [@book-2, ch. 3] for the introduction.";

    // When: We extract citations
    let citations = extract_citations(markdown);

    // Then: We find the citation with chapter locator
    assert_eq!(citations.len(), 1);
    assert_eq!(citations[0].id, "book-2");
    assert_eq!(citations[0].locator, Some("3".to_string()));
    assert_eq!(citations[0].label, Some("chapter".to_string()));
}

#[test]
fn test_citation_with_section_locator() {
    // Given: Markdown with a citation containing a section locator
    let markdown = "Refer to [@manual-1, sec. 4.2] for details.";

    // When: We extract citations
    let citations = extract_citations(markdown);

    // Then: We find the citation with section locator
    assert_eq!(citations.len(), 1);
    assert_eq!(citations[0].id, "manual-1");
    assert_eq!(citations[0].locator, Some("4.2".to_string()));
    assert_eq!(citations[0].label, Some("section".to_string()));
}

#[test]
fn test_citation_with_full_page_label() {
    // Given: Markdown with "page" instead of "p."
    let markdown = "Check [@doc-1, page 15] for the formula.";

    // When: We extract citations
    let citations = extract_citations(markdown);

    // Then: We find the citation with page locator
    assert_eq!(citations.len(), 1);
    assert_eq!(citations[0].id, "doc-1");
    assert_eq!(citations[0].locator, Some("15".to_string()));
    assert_eq!(citations[0].label, Some("page".to_string()));
}

#[test]
fn test_citation_with_full_pages_label() {
    // Given: Markdown with "pages" instead of "pp."
    let markdown = "See [@doc-2, pages 5-10] for examples.";

    // When: We extract citations
    let citations = extract_citations(markdown);

    // Then: We find the citation with pages locator
    assert_eq!(citations.len(), 1);
    assert_eq!(citations[0].id, "doc-2");
    assert_eq!(citations[0].locator, Some("5-10".to_string()));
    assert_eq!(citations[0].label, Some("page".to_string()));
}

#[test]
fn test_citation_with_full_chapter_label() {
    // Given: Markdown with "chapter" instead of "ch."
    let markdown = "Read [@book-3, chapter 7] first.";

    // When: We extract citations
    let citations = extract_citations(markdown);

    // Then: We find the citation with chapter locator
    assert_eq!(citations.len(), 1);
    assert_eq!(citations[0].id, "book-3");
    assert_eq!(citations[0].locator, Some("7".to_string()));
    assert_eq!(citations[0].label, Some("chapter".to_string()));
}

#[test]
fn test_citation_with_full_section_label() {
    // Given: Markdown with "section" instead of "sec."
    let markdown = "Consult [@guide-1, section 2.1] for setup.";

    // When: We extract citations
    let citations = extract_citations(markdown);

    // Then: We find the citation with section locator
    assert_eq!(citations.len(), 1);
    assert_eq!(citations[0].id, "guide-1");
    assert_eq!(citations[0].locator, Some("2.1".to_string()));
    assert_eq!(citations[0].label, Some("section".to_string()));
}

#[test]
fn test_citation_locator_span() {
    // Given: Markdown with a locator citation
    let markdown = "Text [@item-1, p. 42] more text.";

    // When: We extract citations
    let citations = extract_citations(markdown);

    // Then: The span correctly includes the entire citation with locator
    assert_eq!(citations.len(), 1);
    let (start, end) = citations[0].span;
    assert_eq!(&markdown[start..end], "[@item-1, p. 42]");
}

#[test]
fn test_mixed_citations_with_and_without_locators() {
    // Given: Markdown with both types of citations
    let markdown = "First [@item-1] and second [@item-2, p. 10] in text.";

    // When: We extract citations
    let citations = extract_citations(markdown);

    // Then: We find both citations with correct properties
    assert_eq!(citations.len(), 2);
    assert_eq!(citations[0].id, "item-1");
    assert_eq!(citations[0].locator, None);
    assert_eq!(citations[0].label, None);
    assert_eq!(citations[1].id, "item-2");
    assert_eq!(citations[1].locator, Some("10".to_string()));
    assert_eq!(citations[1].label, Some("page".to_string()));
}
