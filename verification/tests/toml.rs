use env_applier::formats::toml::update_toml_node;

#[test]
fn test_basic_toml_update() {
    let content = r#"# Header comment
title = "old_value" # Inline comment
[section]
key = "value"
# Footer comment"#;
    let content = update_toml_node(&content, "title", "\"new_value\"").unwrap();

    assert!(content.contains("title = \"new_value\""));
    assert!(content.contains("# Header comment"));
    assert!(content.contains("# Inline comment"));
    assert!(content.contains("# Footer comment"));
}

#[test]
fn test_nested_toml_update() {
    let content = r#"[database]
host = "localhost"
port = 5432

[database.credentials]
username = "old_user" # Important user
password = "secret"

[other]
key = "value""#;
    let content = update_toml_node(&content, "database.credentials.username", "\"new_user\"").unwrap();

    assert!(content.contains("username = \"new_user\""));
    assert!(content.contains("# Important user"));
    assert!(content.contains("password = \"secret\""));
}

#[test]
fn test_toml_array_preservation() {
    let content = r#"[[test.items]]
name = "item1"
value = 42

[some]
target = "old_value2"  #Change 2this

[[test.items]]
name = "item2"
value = 84

[test]
target = "old_value" # Change this"#;
    let content = update_toml_node(&content, "some.target", "\"old_value2\"").unwrap();
    let content = update_toml_node(&content, "test.target", "\"new_value\"").unwrap();

    assert!(content.contains(r#"target = "old_value2"  #Change 2this"#));
    assert!(content.contains(r#"target = "new_value" # Change this"#));
    assert!(content.contains("[[test.items]]"));
    assert!(content.contains(r#"name = "item1""#));
    assert!(content.contains(r#"name = "item2""#));
}

#[test]
fn toml_key_under_an_array_of_tables_has_the_table_before_it() {
    let content = "[a]\nx = 1\n[[b.c]]\nx = 2\n[[b.c]]\nx = 3\n[d]\nx = 4";
    assert_eq!(
        update_toml_node(content, "a.b.c.x", "9").unwrap(),
        "[a]\nx = 1\n[[b.c]]\nx = 9\n[[b.c]]\nx = 3\n[d]\nx = 4"
    );
    assert_eq!(update_toml_node(content, "b.c.x", "9").unwrap(), content);
    assert_eq!(
        update_toml_node(content, "d.x", "9").unwrap(),
        "[a]\nx = 1\n[[b.c]]\nx = 2\n[[b.c]]\nx = 3\n[d]\nx = 9"
    );
}

#[test]
fn toml_line_keeps_what_stands_before_the_value() {
    assert_eq!(
        update_toml_node("  key\t=   'old'   # note", "key", "\"new\"").unwrap(),
        "  key\t=   \"new\"   # note"
    );
    assert_eq!(update_toml_node("k.e.y = 1", "k.e.y", "2").unwrap(), "k.e.y = 1");
    assert_eq!(update_toml_node("a+b = 1\naab = 2", "a+b", "3").unwrap(), "a+b = 3\naab = 2");
    assert_eq!(update_toml_node("key = two words", "key", "1").unwrap(), "key = two words");
}
