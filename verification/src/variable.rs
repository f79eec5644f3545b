//! How the value of a variable is written into a file of a given format.

use crate::number::{is_float, is_float_literal};
use crate::text::same_text;
use vstd::prelude::*;
use vstd::string::*;

verus! {

/// What to write for a value.
#[derive(Debug, PartialEq, Eq)]
pub enum Rendering {
    /// The value is written as a number: the caller writes the shortest
    /// decimal text of the floating-point number that the value denotes.
    Number,
    /// This text is written.
    Text(String),
}

/// What `Rendering` holds.
pub enum RenderingModel {
    Number,
    Text(Seq<char>),
}

impl View for Rendering {
    type V = RenderingModel;

    open spec fn view(&self) -> RenderingModel {
        match self {
            Rendering::Number => RenderingModel::Number,
            Rendering::Text(text) => RenderingModel::Text(text@),
        }
    }
}

/// Whether strings stand in double quotes in files of this format.
pub open spec fn quotes_strings(file_type: Seq<char>) -> bool {
    file_type == "yaml"@ || file_type == "json"@ || file_type == "toml"@ || file_type == "hocon"@
}

/// `value` between double quotes.
pub open spec fn quoted(value: Seq<char>) -> Seq<char> {
    "\""@ + value + "\""@
}

/// The rendering of `env` in a file of type `file_type`. A number is written
/// as a number where the format is known. Any other value is quoted in YAML,
/// JSON, TOML and HOCON and left as it is in properties files. For a format
/// that is not known the text is empty.
pub open spec fn rendering_of(file_type: Seq<char>, env: Seq<char>) -> RenderingModel {
    if quotes_strings(file_type) {
        if is_float_literal(env) {
            RenderingModel::Number
        } else {
            RenderingModel::Text(quoted(env))
        }
    } else if file_type == "properties"@ {
        if is_float_literal(env) {
            RenderingModel::Number
        } else {
            RenderingModel::Text(env)
        }
    } else {
        RenderingModel::Text(Seq::empty())
    }
}

/// `value` between double quotes.
pub fn quote(value: &str) -> (r: String)
    ensures
        r@ == quoted(value@),
{
    let mut out = "\"".to_string();
    out.append(value);
    out.append("\"");
    out
}

/// Decides how `env` is written into a file of type `file_type`.
pub fn parse_variable(file_type: &str, env: &str) -> (r: Rendering)
    ensures
        r@ == rendering_of(file_type@, env@),
{
    if same_text(file_type, "yaml") || same_text(file_type, "json") || same_text(file_type, "toml")
        || same_text(file_type, "hocon") {
        if is_float(env) {
            Rendering::Number
        } else {
            Rendering::Text(quote(env))
        }
    } else if same_text(file_type, "properties") {
        if is_float(env) {
            Rendering::Number
        } else {
            Rendering::Text(env.to_string())
        }
    } else {
        Rendering::Text(String::new())
    }
}

} // verus!
