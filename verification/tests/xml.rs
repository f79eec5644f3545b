use env_applier::error::UpdateError;
use env_applier::formats::xml::{update_xml_node, Cursor, Move, Tag};

#[test]
fn xml_text_of_a_nested_element_is_replaced() {
    let content = "<?xml version=\"1.0\"?>\n<config>\n    <database>\n        <host>localhost</host>\n        <target>old_value</target> trailing\n    </database>\n</config>";
    let updated = update_xml_node(content, "config.database.target", "new_value").unwrap();
    assert_eq!(
        updated,
        "<?xml version=\"1.0\"?>\n<config>\n    <database>\n        <host>localhost</host>\n        <target>new_value</target> trailing\n    </database>\n</config>"
    );
}

#[test]
fn xml_attributes_stay() {
    let content = "<root xmlns:custom=\"https://example.com\">\n  <elem id=\"1\">\n    <target kind=\"a\">old</target>\n  </elem>\n</root>";
    let updated = update_xml_node(content, "root.elem.target", "new").unwrap();
    assert!(updated.contains("    <target kind=\"a\">new</target>"));
    assert!(updated.contains("xmlns:custom=\"https://example.com\""));
}

#[test]
fn xml_self_closing_target_is_refused() {
    assert!(matches!(update_xml_node("<x/>", "x", "v"), Err(UpdateError::SelfClosing)));
    assert!(matches!(
        update_xml_node("<a>\n  <x />\n</a>", "a.x", "v"),
        Err(UpdateError::SelfClosing)
    ));
    assert_eq!(UpdateError::SelfClosing.message(), "Cannot update self-closing tags");
}

#[test]
fn xml_self_closing_element_elsewhere_is_passed_over() {
    let content = "<a>\n  <y/>\n  <x>1</x>\n</a>";
    assert_eq!(update_xml_node(content, "a.x", "2").unwrap(), "<a>\n  <y/>\n  <x>2</x>\n</a>");
    let content = "<a>\n  <x/>\n  <b>\n    <c>1</c>\n  </b>\n</a>";
    assert_eq!(
        update_xml_node(content, "a.x.c", "2").unwrap(),
        content,
        "a self-closing element in the middle of the path is no target"
    );
}

#[test]
fn xml_missing_path_changes_nothing() {
    let content = "<a>\n  <b>1</b>\n</a>";
    assert_eq!(update_xml_node(content, "a.c", "2").unwrap(), content);
    assert_eq!(update_xml_node(content, "b", "2").unwrap(), "<a>\n  <b>2</b>\n</a>");
}

#[test]
fn xml_comment_after_the_element_stays() {
    let content = "<root>\n  <t>old</t> <!-- keep -->\n</root>";
    assert_eq!(
        update_xml_node(content, "root.t", "new").unwrap(),
        "<root>\n  <t>new</t> <!-- keep -->\n</root>"
    );
}

#[test]
fn xml_comment_line_is_passed_over() {
    let content = "<a>\n  <!-- <b>1</b> -->\n  <b>2</b>\n</a>\n";
    assert_eq!(
        update_xml_node(content, "a.b", "9").unwrap(),
        "<a>\n  <!-- <b>1</b> -->\n  <b>9</b>\n</a>\n"
    );
}

#[test]
fn xml_target_without_text_on_its_line_stays() {
    let content = "<a>\n  <b>\n    text\n  </b>\n</a>";
    assert_eq!(update_xml_node(content, "a.b", "9").unwrap(), content);
}

#[test]
fn xml_cursor_moves_as_described() {
    let path = vec!["a".to_string(), "b".to_string()];
    let mut cursor = Cursor::new();
    assert_eq!(cursor.visit(&Tag::Opening("x".to_string()), &path), Move::Next);
    assert_eq!(cursor.segment, 0);
    assert_eq!(cursor.visit(&Tag::SelfClosing("b".to_string()), &path), Move::Next);
    assert_eq!(cursor.visit(&Tag::Opening("a".to_string()), &path), Move::Next);
    assert_eq!((cursor.segment, cursor.open.len()), (1, 1));
    assert_eq!(cursor.visit(&Tag::Closing("x".to_string()), &path), Move::Next);
    assert_eq!(cursor.open.len(), 1);
    assert_eq!(cursor.visit(&Tag::Closing("a".to_string()), &path), Move::Next);
    assert_eq!((cursor.segment, cursor.open.len()), (1, 0));
    assert_eq!(cursor.visit(&Tag::Other, &path), Move::Next);
    assert_eq!(cursor.visit(&Tag::SelfClosing("b".to_string()), &path), Move::Refuse);
    assert_eq!(cursor.visit(&Tag::Opening("b".to_string()), &path), Move::Hit);
    assert_eq!((cursor.segment, cursor.open.len()), (2, 1));
}
