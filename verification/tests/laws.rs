use env_applier::error::UpdateError;
use env_applier::formats::hocon::update_hocon_node;
use env_applier::formats::json::update_json_node;
use env_applier::formats::properties::{update_lines, update_properties_node};
use env_applier::formats::toml::update_toml_node;
use env_applier::formats::xml::update_xml_node;
use env_applier::formats::yaml::update_yaml_node;

type Update = fn(&str, &str, &str) -> Result<String, UpdateError>;

const CASES: [(&str, Update, &str, &str, &str); 6] = [
    (
        "yaml",
        update_yaml_node as Update,
        "# head\ndatabase:\n  host: localhost\n  credentials:\n    username: old_user # note\n\nother: 1",
        "database.credentials.username",
        "new_user",
    ),
    (
        "json",
        update_json_node as Update,
        "{\n  // head\n  \"a\": {\n    \"b\": 1, // note\n    \"c\": 2\n  }\n}",
        "a.b",
        "3",
    ),
    (
        "toml",
        update_toml_node as Update,
        "# head\n[some]\ntarget = \"a\"\n\n[test]\ntarget = \"b\" # note",
        "test.target",
        "\"c\"",
    ),
    (
        "properties",
        update_properties_node as Update,
        "# head\nother = 1\nkey = old_value # keep\n\nlast=2",
        "key",
        "new_value",
    ),
    (
        "hocon",
        update_hocon_node as Update,
        "# head\na {\n  bare = true // note\n  other = 1\n}",
        "a.bare",
        "false",
    ),
    (
        "xml",
        update_xml_node as Update,
        "<!-- head -->\n<a>\n  <b>old</b> tail\n  <c>1</c>\n</a>",
        "a.b",
        "new",
    ),
];

#[test]
fn yaml_scenario_only_the_named_line_changes() {
    let updated = update_yaml_node(
        "database:\n  host: localhost\n  credentials:\n    username: old_user # note\n",
        "database.credentials.username",
        "new_user",
    )
    .unwrap();
    assert_eq!(
        updated,
        "database:\n  host: localhost\n  credentials:\n    username: new_user # note\n"
    );
}

#[test]
fn toml_scenario_the_other_table_keeps_its_value() {
    let updated = update_toml_node(
        "[some]\ntarget = \"a\"\n[test]\ntarget = \"b\"",
        "test.target",
        "\"c\"",
    )
    .unwrap();
    assert_eq!(updated, "[some]\ntarget = \"a\"\n[test]\ntarget = \"c\"");
}

#[test]
fn properties_scenario_the_value_is_never_quoted() {
    assert_eq!(
        update_properties_node("key = old_value # keep", "key", "new_value").unwrap(),
        "key = new_value # keep"
    );
}

#[test]
fn hocon_scenario_kinds_of_values() {
    assert_eq!(update_hocon_node("bare = true", "bare", "false").unwrap(), "bare = false");
    assert_eq!(
        update_hocon_node("bare = \"text\"", "bare", "new text").unwrap(),
        "bare = \"new text\""
    );
}

#[test]
fn xml_scenario_a_self_closing_element_is_refused() {
    assert!(matches!(update_xml_node("<x/>", "x", "value"), Err(UpdateError::SelfClosing)));
}

#[test]
fn editing_twice_gives_what_editing_once_gives() {
    for (format, update, document, path, value) in CASES {
        let once = update(document, path, value).unwrap();
        let twice = update(&once, path, value).unwrap();
        assert_eq!(once, twice, "{}", format);
        assert_ne!(once, document, "{}", format);
    }
}

#[test]
fn only_the_target_line_changes_and_the_count_of_lines_stays() {
    for (format, update, document, path, value) in CASES {
        let updated = update(document, path, value).unwrap();
        let before: Vec<&str> = document.lines().collect();
        let after: Vec<&str> = updated.lines().collect();
        assert_eq!(before.len(), after.len(), "{}", format);
        let changed: Vec<usize> =
            (0..before.len()).filter(|&i| before[i] != after[i]).collect();
        assert_eq!(changed.len(), 1, "{}", format);
        assert!(after[changed[0]].contains(value), "{}", format);
    }
}

#[test]
fn the_comment_on_the_target_line_stays() {
    for (format, update, document, path, value) in CASES {
        let updated = update(document, path, value).unwrap();
        let tail = match format {
            "yaml" | "toml" => " # note",
            "hocon" => " // note",
            "json" => ", // note",
            "properties" => " # keep",
            _ => "</b> tail",
        };
        assert!(updated.lines().any(|line| line.ends_with(tail)), "{}", format);
    }
}

#[test]
fn a_path_that_is_not_there_changes_nothing() {
    for (format, update, document, _, value) in CASES {
        assert_eq!(update(document, "no.such.path", value).unwrap(), document, "{}", format);
        let ended = format!("{}\n\n\n", document);
        assert_eq!(update(&ended, "no.such.path", value).unwrap(), ended, "{}", format);
    }
}

#[test]
fn an_empty_value_leaves_a_line() {
    assert_eq!(update_yaml_node("a:\n  k: 1\n", "a.k", "").unwrap(), "a:\n  k: \n");
    assert_eq!(update_yaml_node("k:\n", "k", "").unwrap(), "k: \n");
    assert_eq!(update_json_node("\"k\": 1,\n", "k", "").unwrap(), "\"k\": ,\n");
    assert_eq!(update_toml_node("k = 1 # c\n", "k", "").unwrap(), "k =  # c\n");
    assert_eq!(update_xml_node("<k>1</k>\n", "k", "").unwrap(), "<k></k>\n");
    assert_eq!(update_properties_node("k=1\n", "k", "").unwrap(), "k=\n");
    assert_eq!(update_hocon_node("k = 1\n", "k", "").unwrap(), "k = \"\"\n");
}

#[test]
fn the_line_feeds_at_the_end_stay() {
    for (format, update, document, path, value) in CASES {
        let bare = update(document, path, value).unwrap();
        for tail in ["\n", "\n\n", "\n\n\n"] {
            let ended = format!("{}{}", document, tail);
            let updated = update(&ended, path, value).unwrap();
            assert_eq!(updated, format!("{}{}", bare, tail), "{}", format);
            assert_eq!(updated.lines().count(), ended.lines().count(), "{}", format);
            assert_eq!(update(&updated, path, value).unwrap(), updated, "{}", format);
        }
    }
}

#[test]
fn a_text_without_content_is_always_taken() {
    for (format, update, _, path, value) in CASES {
        assert_eq!(update("", path, value).unwrap(), "", "{}", format);
        assert_eq!(update("\n\n", path, value).unwrap(), "\n\n", "{}", format);
        assert_eq!(update("\n# c\n\n", path, value).unwrap_or_default().len(), 6, "{}", format);
    }
}

#[test]
fn properties_values_that_do_not_read_back_are_not_idempotent() {
    let lines = vec!["key = old # note".to_string()];
    let once = update_lines(lines, "key", "a#b");
    assert_eq!(once, vec!["key = a#b # note"]);
    let twice = update_lines(once, "key", "a#b");
    assert_eq!(twice, vec!["key = a#b#b # note"]);
    let once = update_lines(vec!["key = old".to_string()], "key", " padded");
    let twice = update_lines(once.clone(), "key", " padded");
    assert_eq!(once, vec!["key =  padded"]);
    assert_eq!(twice, vec!["key =   padded"]);
}
