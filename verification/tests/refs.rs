use csl_tools::{normalize_refs, validate_refs, RefsError};

#[test]
fn test_normalize_refs_json_array() {
    // Given: a JSON array string
    let content = r#"[{"id": "item-1"}, {"id": "item-2"}]"#;

    // When: we normalize it
    let result = normalize_refs(content);

    // Then: we get the same array back (normalized)
    assert!(result.is_ok());
    let json = result.unwrap();
    let parsed: serde_json::Value = serde_json::from_str(&json).unwrap();
    assert!(parsed.is_array());
    assert_eq!(parsed.as_array().unwrap().len(), 2);
}

#[test]
fn test_normalize_refs_jsonl() {
    // Given: JSONL content
    let content = r#"{"id": "item-1"}
{"id": "item-2"}
{"id": "item-3"}"#;

    // When: we normalize it
    let result = normalize_refs(content);

    // Then: we get a JSON array
    assert!(result.is_ok());
    let json = result.unwrap();
    let parsed: serde_json::Value = serde_json::from_str(&json).unwrap();
    assert!(parsed.is_array());
    assert_eq!(parsed.as_array().unwrap().len(), 3);
}

#[test]
fn test_normalize_refs_jsonl_with_blank_lines() {
    // Given: JSONL with blank lines
    let content = r#"{"id": "item-1"}

{"id": "item-2"}"#;

    // When: we normalize it
    let result = normalize_refs(content);

    // Then: blank lines are ignored
    assert!(result.is_ok());
    let json = result.unwrap();
    let parsed: serde_json::Value = serde_json::from_str(&json).unwrap();
    assert!(parsed.is_array());
    assert_eq!(parsed.as_array().unwrap().len(), 2);
}

#[test]
fn test_normalize_refs_jsonl_error_with_line_number() {
    // Given: JSONL with invalid JSON on line 2
    let content = r#"{"id": "item-1"}
invalid json here
{"id": "item-3"}"#;

    // When: we try to normalize it
    let result = normalize_refs(content);

    // Then: we get an error indicating line 2
    assert!(result.is_err());
    let err = result.unwrap_err();
    match err {
        RefsError::JsonlError { line, .. } => assert_eq!(line, 2),
        _ => panic!("Expected JsonlError, got {:?}", err),
    }
}

#[test]
fn test_normalize_refs_empty_string() {
    // Given: empty string
    let content = "";

    // When: we normalize it
    let result = normalize_refs(content);

    // Then: we get an empty array
    assert!(result.is_ok());
    let json = result.unwrap();
    let parsed: serde_json::Value = serde_json::from_str(&json).unwrap();
    assert!(parsed.is_array());
    assert_eq!(parsed.as_array().unwrap().len(), 0);
}

#[test]
fn test_validate_refs_empty_array() {
    assert!(validate_refs("[]").is_ok());
}

#[test]
fn test_validate_refs_valid_array() {
    let json = r#"[{"id": "item-1", "type": "book"}]"#;
    assert!(validate_refs(json).is_ok());
}

#[test]
fn test_validate_refs_invalid_json() {
    let json = "not valid json";
    assert!(validate_refs(json).is_err());
}

#[test]
fn test_validate_refs_not_array() {
    let json = r#"{"id": "item-1"}"#;
    // Should fail because refs must be an array
    assert!(validate_refs(json).is_err());
}

#[test]
fn normal_form_is_compact() {
    assert_eq!(normalize_refs("").unwrap(), "[]");
    assert_eq!(normalize_refs(" \n\t ").unwrap(), "[]");
    assert_eq!(normalize_refs("  [ ]\n").unwrap(), "[]");
    assert_eq!(
        normalize_refs(" [ {\"id\" : \"b\", \"a\": [1, 2.5, null]} , 7 ]").unwrap(),
        "[{\"a\":[1,2.5,null],\"id\":\"b\"},7]"
    );
    assert_eq!(
        normalize_refs("{\"id\": \"1\"}\r\n\n  [1, 2]  \n\"x\"\n3").unwrap(),
        "[{\"id\":\"1\"},[1,2],\"x\",3]"
    );
}

#[test]
fn errors_of_reference_data() {
    assert!(matches!(normalize_refs("[1, 2"), Err(RefsError::JsonError(_))));
    assert!(matches!(normalize_refs("[1] x"), Err(RefsError::JsonError(_))));
    assert!(matches!(validate_refs("nope"), Err(RefsError::JsonError(_))));
    assert!(matches!(validate_refs("{}"), Err(RefsError::NotAnArray)));
    assert!(matches!(validate_refs("3"), Err(RefsError::NotAnArray)));
    match normalize_refs("\n\n{\"a\": 1}\n{\"a\": }\n") {
        Err(RefsError::JsonlError { line, message }) => {
            assert_eq!(line, 4);
            assert!(!message.is_empty());
        }
        other => panic!("unexpected: {:?}", other),
    }
}

#[test]
fn messages_of_reference_errors() {
    assert_eq!(validate_refs("{}").unwrap_err().message(), "References must be a JSON array");
    let message = validate_refs("[1,").unwrap_err().message();
    assert!(message.starts_with("Invalid JSON: "));
    assert!(message.len() > "Invalid JSON: ".len());
    let message = normalize_refs("{}\n{}\n{}\n{}\n{}\n{}\n{}\n{}\n{}\n{}\n{}\n!").unwrap_err().message();
    assert!(message.starts_with("Invalid JSONL at line 12: "));
}

#[test]
fn normal_form_is_what_the_serializer_writes() {
    let arrays = [
        "[]",
        "[[]]",
        "[1, [2, [3, {\"a\": [4]}]]]",
        "[{\"id\": \"a\", \"author\": [{\"family\": \"Doe\", \"given\": \"J.\"}], \"issued\": {\"date-parts\": [[2021, 3]]}}]",
        "[\"\\u00e9\\n\\t\\\"\", 1.5e3, -0.0, true, false, null, 12345678901234567890]",
        " [ { \"z\" : 1 , \"a\" : { \"y\" : [ ] , \"b\" : { } } } ] ",
    ];
    for text in arrays {
        let value: serde_json::Value = serde_json::from_str(text).unwrap();
        assert_eq!(normalize_refs(text).unwrap(), serde_json::to_string(&value).unwrap());
    }
    let lines = "{\"id\": 1}\n[2, 3]\n\n \"four\" \r\nnull\n";
    let values: Vec<serde_json::Value> = lines
        .lines()
        .filter(|l| !l.trim().is_empty())
        .map(|l| serde_json::from_str(l.trim()).unwrap())
        .collect();
    assert_eq!(normalize_refs(lines).unwrap(), serde_json::to_string(&values).unwrap());
}
