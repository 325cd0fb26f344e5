use csl_tools::style::builtin_style_names;
use csl_tools::builtin_style;

#[test]
fn test_builtin_style_unknown_returns_none() {
    // Given: An unknown style name
    let name = "unknown-style-that-does-not-exist";

    // When: We request the builtin style
    let result = builtin_style(name);

    // Then: We get None
    assert!(result.is_none(), "Unknown style should return None");
}

#[test]
fn test_builtin_style_minimal() {
    // Given: The "minimal" builtin style name
    let name = "minimal";

    // When: We request the builtin style
    let result = builtin_style(name);

    // Then: We get a valid CSL style
    assert!(result.is_some(), "minimal style should be available");
    let content = result.unwrap();
    assert!(
        content.contains("<style"),
        "Should contain CSL style element"
    );
    assert!(
        content.contains("<citation>"),
        "Should contain citation element"
    );
}

#[test]
fn test_builtin_style_names_returns_non_empty_list() {
    let names = builtin_style_names();
    assert!(
        !names.is_empty(),
        "builtin_style_names() should return at least one style"
    );
}

#[test]
fn test_builtin_style_names_all_resolve() {
    // Every name listed by builtin_style_names() must be recognized by builtin_style()
    for name in builtin_style_names() {
        assert!(
            builtin_style(name).is_some(),
            "builtin_style_names() lists '{}' but builtin_style('{}') returns None",
            name,
            name
        );
    }
}

#[test]
fn test_builtin_style_vancouver() {
    // Given: The "vancouver" builtin style name
    let name = "vancouver";

    // When: We request the builtin style
    let result = builtin_style(name);

    // Then: We get a valid CSL style with Vancouver characteristics
    assert!(result.is_some(), "vancouver style should be available");
    let content = result.unwrap();
    assert!(
        content.contains("citation-number"),
        "Vancouver style should use citation-number"
    );
    assert!(
        content.contains("initialize-with"),
        "Vancouver style should initialize author given names"
    );
    assert!(
        content.contains("name-as-sort-order"),
        "Vancouver style should use name-as-sort-order"
    );
}
