use env_applier::formats::hocon::{format_hocon_value, parse_hocon_path, update_hocon_node};

#[test]
fn test_hocon_update_simple_key_value() {
    let content = update_hocon_node(
        r#"
# This is a comment
database = "localhost"
port = 5432
enabled = true
"#,
        "database",
        "remote-host",
    )
    .unwrap();
    assert!(content.contains("database = \"remote-host\""));
    assert!(content.contains("port = 5432"));
    assert!(content.contains("# This is a comment"));
}

#[test]
fn test_update_hocon_nested_object() {
    let content = update_hocon_node(
        r#"
server {
  host = "localhost"
  port = 8080
  ssl {
    enabled = false
    cert = "path/to/cert"
  }
}
"#,
        "server.ssl.enabled",
        "true",
    )
    .unwrap();
    assert!(content.contains("enabled = true"));
    assert!(content.contains("host = \"localhost\""));
}

#[test]
fn test_hocon_update_with_comments() {
    let content = update_hocon_node(
        r#"
# Database configuration
database {
  host = "localhost" # This is the host
  port = 5432 // This is the port
}
"#,
        "database.host",
        "remote",
    )
    .unwrap();
    assert!(content.contains("host = \"remote\" # This is the host"));
    assert!(content.contains("// This is the port"));
}

#[test]
fn test_hocon_complex_update() {
    let content = update_hocon_node(
        r###"
# Application Configuration
app {
    name = "MyApp"
    version: "1.0.0"  // version comment

    server {
        "bind-address" = "127.0.0.1"
        port: 8080

        security {
            oauth {
                "client-id" = "test-client" # client identifier
                secret = "secret-value"

                endpoints {
                    // Token endpoint configuration
                    "token-url" = "https://old.token.url" # needs update
                    auth-url: "https://auth.url"
                }
            }
        }
    }

    features {
        experimental = false
        "user-management" = true
    }
}
"###,
        "app.server.security.oauth.endpoints.token-url",
        "\"https://new.token.url\"",
    )
    .unwrap();

    assert!(content.contains(r#""token-url" = "https://new.token.url""#));
    assert!(content.contains("endpoints {"));
    assert!(content.contains("oauth {"));
    assert!(content.contains(r#""bind-address""#));
    assert!(content.contains("port:"));
    assert!(content.contains(r#""client-id""#));
    assert!(content.contains(r#""token-url""#));
    assert!(content.contains(r#"name = "MyApp""#));
    assert!(content.contains("version: \"1.0.0\""));
    assert!(content.contains(r#"secret = "secret-value""#));
    assert!(content.contains("auth-url: \"https://auth.url\""));
    assert!(content.contains("# Application Configuration"));
    assert!(content.contains("// version comment"));
    assert!(content.contains("# client identifier"));
    assert!(content.contains("// Token endpoint configuration"));
    assert!(content.contains("# needs update"));
    assert!(content.contains(r#""bind-address" = "127.0.0.1""#));
    assert!(content.contains("port: 8080"));
    assert!(content.contains(r#""client-id" = "test-client""#));
    assert!(content.contains("experimental = false"));
    assert!(content.contains(r#""user-management" = true"#));
    assert!(content.contains("features {"));
    assert!(content.contains("security {"));
}

#[test]
fn test_hocon_deep_nesting_with_mixed_formats() {
    let content = r#"
level1 {
    "level2-key" = {
        level3: {
            "level3-key" = "old" # comment
            "level4-key": {
                "target.key" = "old.value"  # c2omment
            }
        }
    }
}
"#;
    let content = update_hocon_node(
        content,
        "level1.level2-key.level3.level3-key",
        "\"new.value\"",
    )
    .unwrap();
    let content = update_hocon_node(
        &content,
        "level1.\"level2-key\".level3.\"level4-key\".\"target.key\"",
        "\"new.value\"",
    )
    .unwrap();

    assert!(content.contains(r#""level3-key" = "new.value""#));
    assert!(content.contains("# comment"));
    assert!(content.contains(r#""target.key" = "new.value""#));
    assert!(content.contains("  # c2omment"));
    assert!(content.contains("\"level2-key\" = {"));
    assert!(content.contains("level3: {"));
}

#[test]
fn test_hocon_preserve_whitespace_and_comments() {
    let content = update_hocon_node(
        r#"
key1 = value1   # end comment

// Section comment
section {
    key2: value2   // with comment
    key3 = value3
}
"#,
        "section.key2",
        "\"new_value\"",
    )
    .unwrap();

    assert!(content.contains("key2: \"new_value\"   // with comment"));
    assert!(content.contains("key1 = value1   # end comment"));
    assert!(content.contains("// Section comment"));
    assert!(content.contains("key3 = value3"));

    let lines: Vec<&str> = content.lines().collect();
    assert_eq!(lines[0], "");
    assert_eq!(lines[1], "key1 = value1   # end comment");
    assert_eq!(lines[2], "");
    assert_eq!(lines[3], "// Section comment");
    assert_eq!(lines[4], "section {");
    assert_eq!(lines[5], "    key2: \"new_value\"   // with comment");
    assert_eq!(lines[6], "    key3 = value3");
    assert_eq!(lines[7], "}");
}

#[test]
fn test_hocon_keys_with_special_chars() {
    let content = r#"
"key:with:colon" = "value1"
"key.with.dots" = "value2"
"key with spaces" = "value3"
"#;
    let content = update_hocon_node(content, "\"key:with:colon\"", "\"new1\"").unwrap();
    let content = update_hocon_node(&content, "\"key.with.dots\"", "\"new2\"").unwrap();
    let content = update_hocon_node(&content, "\"key with spaces\"", "\"new3\"").unwrap();

    assert!(content.contains(r#""key:with:colon" = "new1""#));
    assert!(content.contains(r#""key.with.dots" = "new2""#));
    assert!(content.contains(r#""key with spaces" = "new3""#));
}

#[test]
fn test_hocon_value_with_comment_chars() {
    let content = r#"
key1 = value1   # end comment

// Section comment
section {
    key2: "jdbc:mysql://localhost:3306/test"   // with comment
    key3 = "jdbc:mysql://localhost:3306/test"
}
"#;
    let content = update_hocon_node(content, "key1", "jdbc:mysql://127.0.0.1:3306/name").unwrap();
    let content =
        update_hocon_node(&content, "section.key2", "jdbc:mysql://127.0.0.1:3306/name").unwrap();
    let content =
        update_hocon_node(&content, "section.key3", "jdbc:mysql://127.0.0.1:3306/name").unwrap();

    assert!(content.contains("key1 = \"jdbc:mysql://127.0.0.1:3306/name\"   # end comment"));
    assert!(content.contains("key2: \"jdbc:mysql://127.0.0.1:3306/name\"   // with comment"));
    assert!(content.contains("// Section comment"));
    assert!(content.contains("key3 = \"jdbc:mysql://127.0.0.1:3306/name\""));
    assert_eq!(
        content,
        "\nkey1 = \"jdbc:mysql://127.0.0.1:3306/name\"   # end comment\n\n// Section comment\nsection {\n    key2: \"jdbc:mysql://127.0.0.1:3306/name\"   // with comment\n    key3 = \"jdbc:mysql://127.0.0.1:3306/name\"\n}\n"
    );
}

#[test]
fn hocon_bare_boolean_stays_bare_and_text_is_quoted() {
    assert_eq!(update_hocon_node("bare = true", "bare", "false").unwrap(), "bare = false");
    assert_eq!(update_hocon_node("bare = true", "bare", "FALSE").unwrap(), "bare = false");
    assert_eq!(
        update_hocon_node("bare = \"text\"", "bare", "new text").unwrap(),
        "bare = \"new text\""
    );
}

#[test]
fn hocon_value_kinds() {
    assert_eq!(format_hocon_value("\"kept\""), "\"kept\"");
    assert_eq!(format_hocon_value("\""), "\"");
    assert_eq!(format_hocon_value("12"), "12");
    assert_eq!(format_hocon_value("-1.5e3"), "-1.5e3");
    assert_eq!(format_hocon_value("inf"), "inf");
    assert_eq!(format_hocon_value("NaN"), "NaN");
    assert_eq!(format_hocon_value("True"), "true");
    assert_eq!(format_hocon_value("FALSE"), "false");
    assert_eq!(format_hocon_value("Null"), "null");
    assert_eq!(format_hocon_value("plain"), "\"plain\"");
    assert_eq!(format_hocon_value(""), "\"\"");
    assert_eq!(format_hocon_value("1e"), "\"1e\"");
    assert_eq!(format_hocon_value("\"open"), "\"\"open\"");
}

#[test]
fn hocon_path_segments() {
    assert_eq!(parse_hocon_path("a.b.c"), vec!["a", "b", "c"]);
    assert_eq!(parse_hocon_path("a.\"b.c\".d"), vec!["a", "b.c", "d"]);
    assert_eq!(parse_hocon_path("a..b."), vec!["a", "b"]);
    assert_eq!(parse_hocon_path("\"a\\\"b\".c"), vec!["a\"b", "c"]);
    assert_eq!(parse_hocon_path("a\\b"), vec!["a\\b"]);
    assert_eq!(parse_hocon_path("\"a\\"), vec!["a"]);
    assert!(parse_hocon_path("").is_empty());
    assert!(parse_hocon_path("...").is_empty());
}

#[test]
fn hocon_missing_path_changes_nothing_but_the_join() {
    let text = "a {\n  b = 1\n}\n\n";
    assert_eq!(update_hocon_node(text, "a.c", "2").unwrap(), text);
    assert_eq!(update_hocon_node(text, "", "2").unwrap(), text);
    assert_eq!(update_hocon_node("a = 1\r\nb = 2\n", "c", "2").unwrap(), "a = 1\nb = 2\n");
}

#[test]
fn hocon_nested_key_is_found_under_its_own_parent() {
    let text = "a {\n  x {\n    k = 1\n  }\n}\nk = 2\nb {\n  k = 3\n}";
    assert_eq!(
        update_hocon_node(text, "b.k", "9").unwrap(),
        "a {\n  x {\n    k = 1\n  }\n}\nk = 2\nb {\n  k = 9\n}"
    );
    assert_eq!(
        update_hocon_node(text, "a.x.k", "9").unwrap(),
        "a {\n  x {\n    k = 9\n  }\n}\nk = 2\nb {\n  k = 3\n}"
    );
}

#[test]
fn hocon_key_inside_another_container_is_not_taken() {
    let text = "a {\n  k = 1\n}\nk = 2";
    assert_eq!(update_hocon_node(text, "k", "9").unwrap(), "a {\n  k = 1\n}\nk = 9");
    let text = "a {\n  x {\n    k = 1\n  }\n  k = 2\n}";
    assert_eq!(
        update_hocon_node(text, "a.k", "9").unwrap(),
        "a {\n  x {\n    k = 1\n  }\n  k = 9\n}"
    );
    let text = "a {\n  x = {\n    k = 1\n  }\n  \"y\" : {\n    k = 2\n  }\n}\nk = 3\n";
    assert_eq!(
        update_hocon_node(text, "k", "9").unwrap(),
        "a {\n  x = {\n    k = 1\n  }\n  \"y\" : {\n    k = 2\n  }\n}\nk = 9\n"
    );
    assert_eq!(
        update_hocon_node(text, "a.y.k", "9").unwrap(),
        "a {\n  x = {\n    k = 1\n  }\n  \"y\" : {\n    k = 9\n  }\n}\nk = 3\n"
    );
}

#[test]
fn hocon_keys_of_a_container_need_not_line_up() {
    let text = "a {\n      c = 0\n  b = 1\n}";
    assert_eq!(update_hocon_node(text, "a.b", "2").unwrap(), "a {\n      c = 0\n  b = 2\n}");
    let text = "{\n  a {\n    k = 1\n  }\n}\n";
    assert_eq!(
        update_hocon_node(text, "a.k", "9").unwrap(),
        "{\n  a {\n    k = 9\n  }\n}\n"
    );
    let text = "  a {\n    k = 1\n  }\n";
    assert_eq!(update_hocon_node(text, "a.k", "9").unwrap(), "  a {\n    k = 9\n  }\n");
}

#[test]
fn hocon_line_keeps_what_stands_around_the_value() {
    assert_eq!(update_hocon_node("\tk = 1", "k", "2").unwrap(), "\tk = 2");
    assert_eq!(update_hocon_node("\u{a0}k : 1", "k", "2").unwrap(), "\u{a0}k : 2");
    assert_eq!(update_hocon_node("  \"k\":1 // c", "k", "2").unwrap(), "  \"k\":2 // c");
    assert_eq!(update_hocon_node("k : \"a=b\" , # c", "k", "x").unwrap(), "k : \"x\" , # c");
    assert_eq!(update_hocon_node("k =", "k", "").unwrap(), "k =\"\"");
}

#[test]
fn hocon_value_that_leaves_a_string_open_hides_no_comment() {
    for value in ["a\"b", "C:\\temp\\", "\"x", "say \"hi"] {
        let once = update_hocon_node("k = x # c", "k", value).unwrap();
        assert_eq!(once, format!("k = \"{}\" # c", value), "{}", value);
        assert_eq!(update_hocon_node(&once, "k", value).unwrap(), once, "{}", value);
    }
}
