//! One edit, given the name of the file's format.

use crate::error::UpdateError;
use crate::formats;
use crate::text::same_text;
use vstd::prelude::*;

verus! {

/// Whether `file_type` names a format that can be edited.
pub open spec fn is_known_format(file_type: Seq<char>) -> bool {
    file_type == "yaml"@ || file_type == "json"@ || file_type == "toml"@ || file_type == "xml"@
        || file_type == "properties"@ || file_type == "hocon"@
}

/// Whether `file_type` names a format that can be edited.
pub fn knows(file_type: &str) -> (r: bool)
    ensures
        r == is_known_format(file_type@),
{
    same_text(file_type, "yaml") || same_text(file_type, "json") || same_text(file_type, "toml")
        || same_text(file_type, "xml") || same_text(file_type, "properties") || same_text(
        file_type,
        "hocon",
    )
}

/// The text after an edit in a file of a known format.
pub open spec fn updated_text(
    file_type: Seq<char>,
    content: Seq<char>,
    node: Seq<char>,
    value: Seq<char>,
) -> Seq<char> {
    if file_type == "yaml"@ {
        formats::yaml::updated_text(content, node, value)
    } else if file_type == "json"@ {
        formats::json::updated_text(content, node, value)
    } else if file_type == "toml"@ {
        formats::toml::updated_text(content, node, value)
    } else if file_type == "xml"@ {
        formats::xml::updated_text(content, node, value)
    } else if file_type == "properties"@ {
        formats::properties::updated_text(content, node, value)
    } else {
        formats::hocon::updated_text(content, node, value)
    }
}

/// Whether an edit in a file of type `file_type` fails because it comes to a
/// pattern that does not compile.
pub open spec fn fails(file_type: Seq<char>, content: Seq<char>, node: Seq<char>) -> bool {
    if file_type == "yaml"@ {
        formats::yaml::text_fails(content, node)
    } else if file_type == "json"@ {
        formats::json::text_fails(content, node)
    } else if file_type == "toml"@ {
        formats::toml::text_fails(content, node)
    } else if file_type == "xml"@ {
        formats::xml::text_fails(content, node)
    } else if file_type == "hocon"@ {
        formats::hocon::text_fails(content, node)
    } else {
        false
    }
}

/// Edits `content` as a file of type `file_type`. The result is the new
/// text, or `None` for a type that is not known: such a file is left alone.
/// The edit fails exactly when its adapter does.
pub fn change_file(file_type: &str, content: &str, node: &str, value: &str) -> (r: Result<
    Option<String>,
    UpdateError,
>)
    ensures
        match r {
            Ok(Some(text)) => is_known_format(file_type@) && text@ == updated_text(
                file_type@,
                content@,
                node@,
                value@,
            ) && !(file_type@ == "xml"@ && formats::xml::is_refused(content@, node@)),
            Ok(None) => !is_known_format(file_type@),
            Err(UpdateError::SelfClosing) => file_type@ == "xml"@ && formats::xml::is_refused(
                content@,
                node@,
            ),
            Err(UpdateError::Pattern(_)) => is_known_format(file_type@) && file_type@
                != "properties"@,
        },
        r matches Err(UpdateError::Pattern(_)) <==> fails(file_type@, content@, node@),
        r matches Err(UpdateError::SelfClosing) <==> file_type@ == "xml"@ && !fails(
            file_type@,
            content@,
            node@,
        ) && formats::xml::is_refused(content@, node@),
{
    proof {
        reveal_strlit("yaml");
        reveal_strlit("json");
        reveal_strlit("toml");
        reveal_strlit("xml");
        reveal_strlit("properties");
        reveal_strlit("hocon");
        assert("yaml"@[0] == 'y' && "json"@[0] == 'j' && "toml"@[0] == 't' && "xml"@[0] == 'x'
            && "properties"@[0] == 'p' && "hocon"@[0] == 'h');
    }
    let outcome = if same_text(file_type, "yaml") {
        formats::yaml::update_yaml_node(content, node, value)
    } else if same_text(file_type, "json") {
        formats::json::update_json_node(content, node, value)
    } else if same_text(file_type, "toml") {
        formats::toml::update_toml_node(content, node, value)
    } else if same_text(file_type, "xml") {
        formats::xml::update_xml_node(content, node, value)
    } else if same_text(file_type, "properties") {
        formats::properties::update_properties_node(content, node, value)
    } else if same_text(file_type, "hocon") {
        formats::hocon::update_hocon_node(content, node, value)
    } else {
        return Ok(None);
    };
    match outcome {
        Ok(text) => Ok(Some(text)),
        Err(error) => Err(error),
    }
}

} // verus!
