use env_applier::formats::json::update_json_node;

#[test]
fn test_basic_json_update() {
    let content = r#"{
    // Header comment
    "name": "old_value", // Inline comment
    "nested": {
        "key": "value"
    }
    // Footer comment
}"#;
    let content = update_json_node(&content, "name", "\"new_value\"").unwrap();

    assert!(content.contains("\"name\": \"new_value\""));
    assert!(content.contains("// Header comment"));
    assert!(content.contains("// Inline comment"));
    assert!(content.contains("// Footer comment"));
}

#[test]
fn test_nested_json_update() {
    let content = r#"{
    "level1": {
        "level2": {
            "target": "old_value", // Keep this comment
            "sibling": "unchanged"
        }
    }
}"#;
    let content = update_json_node(&content, "level1.level2.target", "\"new_value\"").unwrap();

    assert!(content.contains("\"target\": \"new_value\""));
    assert!(content.contains("// Keep this comment"));
    assert!(content.contains("\"sibling\": \"unchanged\""));
}

#[test]
fn test_json_array_preservation() {
    let content = r#"{
    "arrays": {
        "simple": [1, 2, 3],
        "target": "old_value",
        "complex": [
            {"key": "value"},
            {"key": "value2"}
        ]
    }
}"#;
    let content = update_json_node(&content, "arrays.target", "\"new_value\"").unwrap();

    assert!(content.contains("\"target\": \"new_value\""));
    assert!(content.contains("\"simple\": [1, 2, 3]"));
    assert!(content.contains("\"complex\": ["));
}

#[test]
fn json_key_is_matched_letter_for_letter() {
    let content = "{\n  \"aab\": 1,\n  \"a+b\": 2,\n  \"a.b\": 3\n}";
    assert_eq!(
        update_json_node(content, "a+b", "9").unwrap(),
        "{\n  \"aab\": 1,\n  \"a+b\": 9,\n  \"a.b\": 3\n}"
    );
    assert_eq!(update_json_node(content, "a*b", "9").unwrap(), content);
}

#[test]
fn json_line_keeps_its_indentation_comma_and_comment() {
    let content = "{\n    \"level1\": {\n        \"level2\": {\n            \"target\": \"old_value\", // Keep this comment\n            \"sibling\": \"unchanged\"\n        }\n    }\n}";
    assert_eq!(
        update_json_node(content, "level1.level2.target", "\"new_value\"").unwrap(),
        "{\n    \"level1\": {\n        \"level2\": {\n            \"target\": \"new_value\", // Keep this comment\n            \"sibling\": \"unchanged\"\n        }\n    }\n}"
    );
    assert_eq!(update_json_node("\"a\": \"x,y\"", "a", "1").unwrap(), "\"a\": 1");
    assert_eq!(update_json_node("\"a\" :\t\"x,y\" ,", "a", "1").unwrap(), "\"a\" :\t1 ,");
    assert_eq!(
        update_json_node("\"a\": \"http://x\"  // c", "a", "\"y\"").unwrap(),
        "\"a\": \"y\"  // c"
    );
    assert_eq!(update_json_node("\"a\": [1, 2], // c", "a", "[]").unwrap(), "\"a\": [], // c");
}

#[test]
fn json_pattern_that_is_too_large_is_an_error_with_a_message() {
    let key = "k".repeat(3_000_000);
    match update_json_node("{\n}", &key, "1") {
        Err(error) => {
            assert!(matches!(error, env_applier::error::UpdateError::Pattern(_)));
            assert!(error.message().contains("size limit"), "{}", error.message());
        }
        Ok(_) => panic!("expected the pattern to be refused"),
    }
}

#[test]
fn json_line_too_short_for_its_depth_is_passed_over() {
    let content = "{\n  \"a\": {\n\"b\": 1\n    \"b\": 2\n  }\n}";
    assert_eq!(
        update_json_node(content, "a.b", "9").unwrap(),
        "{\n  \"a\": {\n\"b\": 1\n    \"b\": 9\n  }\n}"
    );
}
