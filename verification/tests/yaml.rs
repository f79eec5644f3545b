use env_applier::formats::yaml::update_yaml_node;

#[test]
fn test_basic_yaml_update() {
    let content = r#"# Header comment
name: old_value # Inline comment
other: value
# Footer comment"#;
    let content = update_yaml_node(&content, "name", "new_value").unwrap();

    assert!(content.contains("name: new_value"));
    assert!(content.contains("# Header comment"));
    assert!(content.contains("# Inline comment"));
    assert!(content.contains("# Footer comment"));
}

#[test]
fn test_nested_yaml_update() {
    let content = r#"database:
  host: localhost
  port: 5432
  credentials:
    username: old_user # Important user
    password: secret
  options:
    timeout: 30"#;
    let content = update_yaml_node(&content, "database.credentials.username", "new_user").unwrap();

    assert!(content.contains("username: new_user"));
    assert!(content.contains("# Important user"));
    assert!(content.contains("password: secret"));
}

#[test]
fn test_yaml_array_preservation() {
    let content = r#"items:
  - name: item1
    value: 42
  - name: item2
    value: 84
target: old_value # Change this
sequences:
  - [1, 2, 3]
  - [4, 5, 6]"#;
    let content = update_yaml_node(&content, "target", "new_value").unwrap();

    assert!(content.contains("target: new_value"));
    assert!(content.contains("name: item1"));
    assert!(content.contains("name: item2"));
    assert!(content.contains("- [1, 2, 3]"));
}

#[test]
fn test_yaml_complex_indentation() {
    let content = r#"mapping:
    key1: value1    # Four space indent
    nested:
        deep:
            target: old_value    # Eight space indent
            other: value
        sibling: value"#;
    let content = update_yaml_node(&content, "mapping.nested.deep.target", "new_value").unwrap();

    assert!(content.contains("            target: new_value"));
    assert!(content.contains("sibling: value"));
}

#[test]
fn test_yaml_multiline_strings() {
    let content = r#"literals:
  folded: >
    This is a
    folded text
    block
  literal: |
    This is a
    literal text
    block
  target: old_value # Update this
  flow: {key: value, other: value} # Flow style"#;
    let content = update_yaml_node(&content, "literals.target", "new_value").unwrap();

    assert!(content.contains("target: new_value"));
    assert!(content.contains("folded: >"));
    assert!(content.contains("literal: |"));
    assert!(content.contains("flow: {key: value, other: value}"));
}

#[test]
fn test_yaml_special_values() {
    let content = r#"special:
  null_value: null
  bool_value: true
  target: "old_value" # Quoted string
  reference: &ref_value
    key: value
  alias: *ref_value
  date: 2024-02-01"#;
    let content = update_yaml_node(&content, "special.target", "\"new_value\"").unwrap();

    assert!(content.contains("target: \"new_value\""));
    assert!(content.contains("null_value: null"));
    assert!(content.contains("&ref_value"));
    assert!(content.contains("*ref_value"));
}

#[test]
fn test_yaml_empty_values() {
    let content = r#"empty_values:
  empty_string: ""
  target: old_value
  empty_map: {}
  empty_list: []
  explicit_null: null"#;
    let content = update_yaml_node(&content, "empty_values.target", "\"\"").unwrap();

    assert!(content.contains("target: \"\""));
    assert!(content.contains("empty_map: {}"));
    assert!(content.contains("empty_list: []"));
}

#[test]
fn test_yaml_comments_preservation() {
    let content = r#"# Configuration file
# Last updated: 2024-02-01

settings: # Main settings section
  # Database settings
  database:
    host: localhost # Default host
    target: old_value # Target value to change
    # End of database section

  # Application settings
  app:
    port: 8080

# End of configuration"#;
    let content = update_yaml_node(&content, "settings.database.target", "new_value").unwrap();

    assert!(content.contains("target: new_value # Target value to change"));
    assert!(content.contains("# Configuration file"));
    assert!(content.contains("# Database settings"));
    assert!(content.contains("# End of configuration"));
}

#[test]
fn yaml_shallower_sibling_of_the_same_name_is_not_taken() {
    let content = "a:\n  b:\n    c: 1\nc: 2\n  c: 3\n    c: 4";
    assert_eq!(
        update_yaml_node(content, "a.b.c", "9").unwrap(),
        "a:\n  b:\n    c: 9\nc: 2\n  c: 3\n    c: 4"
    );
    assert_eq!(
        update_yaml_node(content, "c", "9").unwrap(),
        "a:\n  b:\n    c: 1\nc: 9\n  c: 3\n    c: 4"
    );
}

#[test]
fn yaml_scan_does_not_go_back_when_a_container_ends() {
    let content = "a:\n  x: 1\nb:\n  y: 2";
    assert_eq!(update_yaml_node(content, "a.y", "9").unwrap(), "a:\n  x: 1\nb:\n  y: 9");
}

#[test]
fn yaml_indent_unit_comes_from_the_first_indented_line() {
    let content = "# c\n\na:\n   b:\n      c: 1 # keep";
    assert_eq!(
        update_yaml_node(content, "a.b.c", "2").unwrap(),
        "# c\n\na:\n   b:\n      c: 2 # keep"
    );
    let tabs = "a:\n\tb: 1";
    assert_eq!(update_yaml_node(tabs, "a.b", "2").unwrap(), tabs);
}

#[test]
fn yaml_key_runs_to_the_last_colon_of_the_first_word() {
    assert_eq!(update_yaml_node("a:b: 1", "a:b", "2").unwrap(), "a:b: 2");
    assert_eq!(update_yaml_node("a:b: 1", "a", "2").unwrap(), "a:b: 1");
    assert_eq!(update_yaml_node("k: v # one # two", "k", "w").unwrap(), "k: w # one # two");
    assert_eq!(update_yaml_node("k: 'a#b'", "k", "w").unwrap(), "k: w");
    assert_eq!(update_yaml_node("k:   \"a#b\"  # c", "k", "w").unwrap(), "k:   w  # c");
    assert_eq!(update_yaml_node("k:", "k", "w").unwrap(), "k: w");
    assert_eq!(update_yaml_node("k:   # c", "k", "v").unwrap(), "k: v   # c");
}

#[test]
fn yaml_quote_inside_a_value_hides_no_comment() {
    assert_eq!(update_yaml_node("k: a'b #c", "k", "v").unwrap(), "k: v #c");
    let once = update_yaml_node("k: a # c", "k", "it's").unwrap();
    assert_eq!(once, "k: it's # c");
    assert_eq!(update_yaml_node(&once, "k", "it's").unwrap(), once);
    let once = update_yaml_node("k: a # c", "k", "\"open").unwrap();
    assert_eq!(once, "k: \"open # c");
    assert_eq!(update_yaml_node(&once, "k", "\"open").unwrap(), once);
}
