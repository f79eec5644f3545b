use env_applier::formats::properties::update_properties_node;

#[test]
fn test_basic_properties_update() {
    let content = r#"# Header comment
key = old_value # Inline comment
other.key = value
# Footer comment"#;
    let content = update_properties_node(&content, "key", "new_value").unwrap();

    assert!(content.contains("key = new_value"));
    assert!(content.contains("# Header comment"));
    assert!(content.contains("# Inline comment"));
    assert!(content.contains("# Footer comment"));
}

#[test]
fn test_properties_special_chars() {
    let content = r#"# Special characters
path.to.key = old:value # Has colon
url.key = http://example.com
space.key = old value with spaces"#;
    let content = update_properties_node(&content, "path.to.key", "new:value").unwrap();

    assert!(content.contains("path.to.key = new:value"));
    assert!(content.contains("# Has colon"));
    assert!(content.contains("url.key = http://example.com"));
}

#[test]
fn test_properties_multiline() {
    let content = r#"# Multi-line value
long.key = old \
    value \
    continues # Comment
regular.key = value"#;
    let content = update_properties_node(&content, "long.key", "new \\\n value \\\n continues").unwrap();

    assert!(content.contains("long.key = new \\"));
    assert!(content.contains("    continues # Comment"));
    assert!(content.contains("regular.key = value"));
}

#[test]
fn test_whitespace_preservation() {
    let content = r#"# Test whitespace preservation
no_spaces=old_value
single_space = old_value
multiple_spaces     =     old_value
tabs	=	old_value
mixed   =	  old_value"#;
    // Test each case
    let content = update_properties_node(&content, "no_spaces", "new_value").unwrap();
    let content = update_properties_node(&content, "single_space", "new_value").unwrap();
    let content = update_properties_node(&content, "multiple_spaces", "new_value").unwrap();
    let content = update_properties_node(&content, "tabs", "new_value").unwrap();
    let content = update_properties_node(&content, "mixed", "new_value").unwrap();

    // Verify exact whitespace preservation
    assert!(content.contains("no_spaces=new_value"));
    assert!(content.contains("single_space = new_value"));
    assert!(content.contains("multiple_spaces     =     new_value"));
    assert!(content.contains("tabs\t=\tnew_value"));
    assert!(content.contains("mixed   =\t  new_value"));
}

#[test]
fn test_no_quotes_added() {
    let content = r#"# Test that quotes are not added
host = old_host
port=old_port
url = http://example.com"#;
    let content = update_properties_node(&content, "host", "135.148.171.219:27072").unwrap();
    let content = update_properties_node(&content, "port", "8080").unwrap();
    let content = update_properties_node(&content, "url", "https://newsite.com").unwrap();

    // Verify no quotes are added
    assert!(content.contains("host = 135.148.171.219:27072"));
    assert!(content.contains("port=8080"));
    assert!(content.contains("url = https://newsite.com"));

    // Verify no quotes exist around values
    assert!(!content.contains("\"135.148.171.219:27072\""));
    assert!(!content.contains("\"8080\""));
    assert!(!content.contains("\"https://newsite.com\""));
}

#[test]
fn test_empty_values() {
    let content = r#"# Test empty values
voice_host = old_value
empty_key =
another_key=something"#;
    let content = update_properties_node(&content, "voice_host", "").unwrap();
    let content = update_properties_node(&content, "empty_key", "").unwrap();
    let content = update_properties_node(&content, "another_key", "").unwrap();

    // Verify empty values are handled correctly (no quotes added)
    // Each should preserve its original spacing around =
    assert!(content.contains("voice_host = "));  // Had space after =
    assert!(content.contains("empty_key ="));   // Had space after =
    assert!(content.contains("another_key="));   // No space after =

    // Verify no empty quotes
    assert!(!content.contains("\"\""));
}

#[test]
fn test_values_with_spaces() {
    let content = r#"# Test values with spaces
name = old name
path = /old/path with spaces
description=old description here"#;
    let content = update_properties_node(&content, "name", "new name with spaces").unwrap();
    let content = update_properties_node(&content, "path", "/new/path with more spaces").unwrap();
    let content = update_properties_node(&content, "description", "new description here").unwrap();

    // Verify values with spaces work without quotes
    assert!(content.contains("name = new name with spaces"));
    assert!(content.contains("path = /new/path with more spaces"));
    assert!(content.contains("description=new description here"));
}

#[test]
fn test_values_with_special_characters() {
    let content = r#"# Test special characters in values
url = http://old.com
regex = old.*pattern
json = {"old": "value"}"#;
    let content = update_properties_node(&content, "url", "http://new.com:8080/path?param=value").unwrap();
    let content = update_properties_node(&content, "regex", "new.*pattern[a-z]+").unwrap();
    let content = update_properties_node(&content, "json", r#"{"new": "value", "array": [1,2,3]}"#).unwrap();

    // Verify special characters work without quotes
    assert!(content.contains("url = http://new.com:8080/path?param=value"));
    assert!(content.contains("regex = new.*pattern[a-z]+"));
    assert!(content.contains(r#"json = {"new": "value", "array": [1,2,3]}"#));
}

#[test]
fn test_comments_with_equals() {
    let content = r#"# Test comments with equals signs
key = old_value # This comment has = signs in it
another=value # URL = http://example.com"#;
    let content = update_properties_node(&content, "key", "new_value").unwrap();
    let content = update_properties_node(&content, "another", "new_another").unwrap();

    // Verify comments with equals are preserved
    assert!(content.contains("key = new_value # This comment has = signs in it"));
    assert!(content.contains("another=new_another # URL = http://example.com"));
}

#[test]
fn test_key_not_found() {
    let content = r#"# Test missing key
existing_key = value
# Comment line"#;
    // This should not modify the file since key doesn't exist
    let content = update_properties_node(&content, "nonexistent_key", "new_value").unwrap();

    // Verify file is unchanged
    assert!(content.contains("existing_key = value"));
    assert!(!content.contains("nonexistent_key"));
    assert!(!content.contains("new_value"));
}

#[test]
fn properties_comment_starts_at_a_hash_outside_quotes() {
    assert_eq!(
        update_properties_node("k = \"a # b\" # real", "k", "v").unwrap(),
        "k = v # real"
    );
    assert_eq!(update_properties_node("k = a \\# b # real", "k", "v").unwrap(), "k = v # real");
    assert_eq!(update_properties_node("k = \"open # never closed", "k", "v").unwrap(), "k = v");
    assert_eq!(update_properties_node("k =#c", "k", "v").unwrap(), "k =v#c");
    assert_eq!(update_properties_node("k =   ", "k", "v").unwrap(), "k =   v   ");
    assert_eq!(update_properties_node("k = a  #c", "k", "").unwrap(), "k = #c");
}

#[test]
fn properties_first_assignment_wins_and_keys_are_trimmed() {
    let content = "# k = 0\n\nother = k = 1\n  k\t= 2\nk = 3";
    assert_eq!(
        update_properties_node(content, "k", "9").unwrap(),
        "# k = 0\n\nother = k = 1\n  k\t= 9\nk = 3"
    );
    assert_eq!(update_properties_node("a=b=c", "a", "x=y").unwrap(), "a=x=y");
    assert_eq!(update_properties_node("=v", "", "w").unwrap(), "=w");
    assert_eq!(update_properties_node("no equals sign", "no", "w").unwrap(), "no equals sign");
}
