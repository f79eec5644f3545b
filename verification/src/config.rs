//! The list of places to edit: for each file format, which files hold which
//! paths, and which variable supplies the value.

use crate::tree::{
    entries_view, entry, find_entry, items_view, lemma_array_view, lemma_table_view,
    parse_document, toml_document, tree_of, Node, Tree,
};
use vstd::prelude::*;
use vstd::string::*;

verus! {

/// Why a configuration could not be had.
#[derive(Debug)]
pub enum ConfigError {
    /// No file at the path given.
    NotFound(String),
    /// The text is not a configuration.
    ParseError(String),
    /// The file could not be read.
    IoError(std::io::Error),
}

/// The error of an input or output operation.
#[verifier::external_type_specification]
#[verifier::external_body]
pub struct ExIoError(std::io::Error);

impl ConfigError {
    /// A sentence for the person who asked for the configuration.
    pub fn message(&self) -> (text: String)
        ensures
            self matches ConfigError::NotFound(path) ==> text@ == "Config file not found at "@
                + path@,
            self matches ConfigError::ParseError(cause) ==> text@ == "Config parsing error: "@
                + cause@,
    {
        match self {
            ConfigError::NotFound(path) => {
                let mut text = "Config file not found at ".to_string();
                text.append(path.as_str());
                text
            },
            ConfigError::ParseError(cause) => {
                let mut text = "Config parsing error: ".to_string();
                text.append(cause.as_str());
                text
            },
            ConfigError::IoError(error) => {
                let mut text = "IO error: ".to_string();
                text.append(error.to_string().as_str());
                text
            },
        }
    }
}

/// Whether a location is left out of one of the two runs.
#[derive(Debug, Clone, PartialEq, Default)]
pub struct OverrideSettings {
    pub exempt_apply: bool,
    pub exempt_deapply: bool,
}

/// Files, the paths to edit in each of them, and where the value comes from.
#[derive(Debug, Clone, PartialEq)]
pub struct Location {
    pub file: Vec<String>,
    pub node: Vec<String>,
    pub variable: String,
    pub default: Option<String>,
    pub override_settings: OverrideSettings,
}

/// The locations of one file format.
#[derive(Debug, Clone, PartialEq, Default)]
pub struct FileTypeConfig {
    pub locations: Vec<Location>,
}

/// The locations of every file format.
#[derive(Debug, Clone, PartialEq, Default)]
pub struct Specific {
    pub json: FileTypeConfig,
    pub toml: FileTypeConfig,
    pub yaml: FileTypeConfig,
    pub properties: FileTypeConfig,
    pub xml: FileTypeConfig,
}

/// How a placeholder is written, and the variables that are known.
#[derive(Debug, Clone, PartialEq, Default)]
pub struct Environment {
    pub prefix: String,
    pub suffix: String,
    pub variables: Vec<String>,
}

/// The whole configuration.
#[derive(Debug, Clone, PartialEq, Default)]
pub struct Config {
    pub environment: Environment,
    pub specific: Specific,
}

/// What a `Location` holds.
pub struct LocationModel {
    pub file: Seq<Seq<char>>,
    pub node: Seq<Seq<char>>,
    pub variable: Seq<char>,
    pub default: Option<Seq<char>>,
    pub exempt_apply: bool,
    pub exempt_deapply: bool,
}

/// What a `Specific` holds: the locations of each format.
pub struct SpecificModel {
    pub json: Seq<LocationModel>,
    pub toml: Seq<LocationModel>,
    pub yaml: Seq<LocationModel>,
    pub properties: Seq<LocationModel>,
    pub xml: Seq<LocationModel>,
}

/// What an `Environment` holds.
pub struct EnvironmentModel {
    pub prefix: Seq<char>,
    pub suffix: Seq<char>,
    pub variables: Seq<Seq<char>>,
}

/// What a `Config` holds.
pub struct ConfigModel {
    pub environment: EnvironmentModel,
    pub specific: SpecificModel,
}

impl View for Location {
    type V = LocationModel;

    open spec fn view(&self) -> LocationModel {
        LocationModel {
            file: self.file.deep_view(),
            node: self.node.deep_view(),
            variable: self.variable@,
            default: self.default.deep_view(),
            exempt_apply: self.override_settings.exempt_apply,
            exempt_deapply: self.override_settings.exempt_deapply,
        }
    }
}

impl View for FileTypeConfig {
    type V = Seq<LocationModel>;

    open spec fn view(&self) -> Seq<LocationModel> {
        Seq::new(self.locations.len() as nat, |i: int| self.locations[i]@)
    }
}

impl View for Specific {
    type V = SpecificModel;

    open spec fn view(&self) -> SpecificModel {
        SpecificModel {
            json: self.json@,
            toml: self.toml@,
            yaml: self.yaml@,
            properties: self.properties@,
            xml: self.xml@,
        }
    }
}

impl View for Environment {
    type V = EnvironmentModel;

    open spec fn view(&self) -> EnvironmentModel {
        EnvironmentModel {
            prefix: self.prefix@,
            suffix: self.suffix@,
            variables: self.variables.deep_view(),
        }
    }
}

impl View for Config {
    type V = ConfigModel;

    open spec fn view(&self) -> ConfigModel {
        ConfigModel { environment: self.environment@, specific: self.specific@ }
    }
}

impl Specific {
    /// The formats by name, each with its locations, in the order in which
    /// they are worked through.
    pub fn iter(&self) -> (all: Vec<(&'static str, &FileTypeConfig)>)
        ensures
            all.len() == 5,
            all[0].0@ == "json"@ && all[0].1 == &self.json,
            all[1].0@ == "toml"@ && all[1].1 == &self.toml,
            all[2].0@ == "yaml"@ && all[2].1 == &self.yaml,
            all[3].0@ == "properties"@ && all[3].1 == &self.properties,
            all[4].0@ == "xml"@ && all[4].1 == &self.xml,
    {
        let mut all: Vec<(&'static str, &FileTypeConfig)> = Vec::new();
        all.push(("json", &self.json));
        all.push(("toml", &self.toml));
        all.push(("yaml", &self.yaml));
        all.push(("properties", &self.properties));
        all.push(("xml", &self.xml));
        all
    }
}

/// The strings of an array that holds nothing but strings.
pub open spec fn texts(tree: Tree) -> Option<Seq<Seq<char>>> {
    match tree {
        Tree::Array(items) => if forall|i: int| 0 <= i < items.len() ==> items[i] is Text {
            Some(Seq::new(items.len(), |i: int| items[i]->Text_0))
        } else {
            None
        },
        _ => None,
    }
}

/// A single string as a list of one, or the strings of an array.
pub open spec fn one_or_many(tree: Tree) -> Option<Seq<Seq<char>>> {
    match tree {
        Tree::Text(text) => Some(seq![text]),
        _ => texts(tree),
    }
}

/// The list that a table gives under one of two keys: empty when it has
/// neither, rejected when it has both.
pub open spec fn named_list(
    entries: Seq<(Seq<char>, Tree)>,
    singular: Seq<char>,
    plural: Seq<char>,
) -> Option<Seq<Seq<char>>> {
    match (entry(entries, singular), entry(entries, plural)) {
        (None, None) => Some(Seq::empty()),
        (Some(tree), None) => one_or_many(tree),
        (None, Some(tree)) => one_or_many(tree),
        (Some(_), Some(_)) => None,
    }
}

/// The two exemptions of an `override` table, which must name both.
pub open spec fn exemptions_of(tree: Tree) -> Option<(bool, bool)> {
    match tree {
        Tree::Table(entries) => match (
            entry(entries, "exemptApply"@),
            entry(entries, "exemptDeapply"@),
        ) {
            (Some(Tree::Boolean(apply)), Some(Tree::Boolean(deapply))) => Some((apply, deapply)),
            _ => None,
        },
        _ => None,
    }
}

/// The location that a table describes. It needs a `variable`; `file` or
/// `files` and `node` or `nodes` default to empty lists, `default` to none
/// and `override` to no exemption.
pub open spec fn location_of(tree: Tree) -> Option<LocationModel> {
    match tree {
        Tree::Table(entries) => {
            let file = named_list(entries, "file"@, "files"@);
            let node = named_list(entries, "node"@, "nodes"@);
            let default = entry(entries, "default"@);
            let exempt = match entry(entries, "override"@) {
                Some(table) => exemptions_of(table),
                None => Some((false, false)),
            };
            match entry(entries, "variable"@) {
                Some(Tree::Text(variable)) => if file is Some && node is Some && (default is None
                    || default->0 is Text) && exempt is Some {
                    Some(
                        LocationModel {
                            file: file->0,
                            node: node->0,
                            variable,
                            default: match default {
                                Some(Tree::Text(text)) => Some(text),
                                _ => None,
                            },
                            exempt_apply: exempt.unwrap().0,
                            exempt_deapply: exempt.unwrap().1,
                        },
                    )
                } else {
                    None
                },
                _ => None,
            }
        },
        _ => None,
    }
}

/// The locations of one format's table: those under `locations`, none when
/// the key is missing.
pub open spec fn locations_of(tree: Tree) -> Option<Seq<LocationModel>> {
    match tree {
        Tree::Table(entries) => match entry(entries, "locations"@) {
            Some(Tree::Array(items)) => if forall|i: int|
                0 <= i < items.len() ==> location_of(#[trigger] items[i]) is Some {
                Some(Seq::new(items.len(), |i: int| location_of(items[i])->0))
            } else {
                None
            },
            Some(_) => None,
            None => Some(Seq::empty()),
        },
        _ => None,
    }
}

/// The locations of the format `name`, none when the format is not mentioned.
pub open spec fn format_of(entries: Seq<(Seq<char>, Tree)>, name: Seq<char>) -> Option<
    Seq<LocationModel>,
> {
    match entry(entries, name) {
        Some(tree) => locations_of(tree),
        None => Some(Seq::empty()),
    }
}

/// The locations of every format, from the `specific` table.
pub open spec fn specific_of(tree: Tree) -> Option<SpecificModel> {
    match tree {
        Tree::Table(entries) => {
            let json = format_of(entries, "json"@);
            let toml = format_of(entries, "toml"@);
            let yaml = format_of(entries, "yaml"@);
            let properties = format_of(entries, "properties"@);
            let xml = format_of(entries, "xml"@);
            if json is Some && toml is Some && yaml is Some && properties is Some && xml is Some {
                Some(
                    SpecificModel {
                        json: json->0,
                        toml: toml->0,
                        yaml: yaml->0,
                        properties: properties->0,
                        xml: xml->0,
                    },
                )
            } else {
                None
            }
        },
        _ => None,
    }
}

/// The string under `key`, or `fallback` when the key is missing.
pub open spec fn text_or(entries: Seq<(Seq<char>, Tree)>, key: Seq<char>, fallback: Seq<char>)
    -> Option<Seq<char>> {
    match entry(entries, key) {
        Some(Tree::Text(text)) => Some(text),
        Some(_) => None,
        None => Some(fallback),
    }
}

/// An `environment` table: prefix and suffix default to a percent sign.
pub open spec fn environment_of(tree: Tree) -> Option<EnvironmentModel> {
    match tree {
        Tree::Table(entries) => {
            let prefix = text_or(entries, "prefix"@, "%"@);
            let suffix = text_or(entries, "suffix"@, "%"@);
            let variables = match entry(entries, "variables"@) {
                Some(list) => texts(list),
                None => Some(Seq::empty()),
            };
            if prefix is Some && suffix is Some && variables is Some {
                Some(
                    EnvironmentModel {
                        prefix: prefix->0,
                        suffix: suffix->0,
                        variables: variables->0,
                    },
                )
            } else {
                None
            }
        },
        _ => None,
    }
}

/// An empty prefix, an empty suffix and no variables.
pub open spec fn empty_environment() -> EnvironmentModel {
    EnvironmentModel { prefix: Seq::empty(), suffix: Seq::empty(), variables: Seq::empty() }
}

/// No location in any format.
pub open spec fn empty_specific() -> SpecificModel {
    SpecificModel {
        json: Seq::empty(),
        toml: Seq::empty(),
        yaml: Seq::empty(),
        properties: Seq::empty(),
        xml: Seq::empty(),
    }
}

/// The configuration that a document describes, or `None` when a value has
/// the wrong type, a needed key is missing or a key is given under both of
/// its names. Keys that the configuration does not know are passed over. A
/// document without an `environment` table has an empty prefix and suffix.
pub open spec fn config_of(tree: Tree) -> Option<ConfigModel> {
    match tree {
        Tree::Table(entries) => {
            let environment = match entry(entries, "environment"@) {
                Some(table) => environment_of(table),
                None => Some(empty_environment()),
            };
            let specific = match entry(entries, "specific"@) {
                Some(table) => specific_of(table),
                None => Some(empty_specific()),
            };
            if environment is Some && specific is Some {
                Some(ConfigModel { environment: environment->0, specific: specific->0 })
            } else {
                None
            }
        },
        _ => None,
    }
}

/// The strings of an array that holds nothing but strings.
fn text_list(node: &Node) -> (r: Option<Vec<String>>)
    ensures
        r.deep_view() == texts(tree_of(*node)),
{
    match node {
        Node::Array(items) => {
            proof {
                lemma_array_view(*items);
            }
            let ghost all = items_view(items@);
            let mut out: Vec<String> = Vec::new();
            let mut i: usize = 0;
            while i < items.len()
                invariant
                    i <= items.len(),
                    all == items_view(items@),
                    tree_of(*node) == Tree::Array(all),
                    forall|j: int| 0 <= j < i ==> all[j] is Text,
                    out.deep_view() == Seq::new(i as nat, |j: int| all[j]->Text_0),
                decreases items.len() - i,
            {
                match &items[i] {
                    Node::Text(text) => {
                        let ghost before = out.deep_view();
                        out.push(text.clone());
                        assert(out.deep_view() == before.push(text@));
                        assert(before.push(text@) == Seq::new(
                            (i + 1) as nat,
                            |j: int| all[j]->Text_0,
                        ));
                    },
                    _ => {
                        assert(!(all[i as int] is Text));
                        return None;
                    },
                }
                i += 1;
            }
            Some(out)
        },
        _ => None,
    }
}

/// A single string as a list of one, or the strings of an array.
fn one_or_many_texts(node: &Node) -> (r: Option<Vec<String>>)
    ensures
        r.deep_view() == one_or_many(tree_of(*node)),
{
    match node {
        Node::Text(text) => {
            let mut out: Vec<String> = Vec::new();
            out.push(text.clone());
            assert(out.deep_view() == seq![text@]);
            Some(out)
        },
        _ => text_list(node),
    }
}

/// The list that a table gives under one of two keys.
fn named_texts(entries: &Vec<(String, Node)>, singular: &str, plural: &str) -> (r: Option<
    Vec<String>,
>)
    ensures
        r.deep_view() == named_list(entries_view(entries@), singular@, plural@),
{
    match (find_entry(entries, singular), find_entry(entries, plural)) {
        (None, None) => {
            let out: Vec<String> = Vec::new();
            assert(out.deep_view() == Seq::<Seq<char>>::empty());
            Some(out)
        },
        (Some(node), None) => one_or_many_texts(node),
        (None, Some(node)) => one_or_many_texts(node),
        (Some(_), Some(_)) => None,
    }
}

/// The two exemptions of an `override` table.
fn exemptions(node: &Node) -> (r: Option<OverrideSettings>)
    ensures
        match exemptions_of(tree_of(*node)) {
            Some((apply, deapply)) => r matches Some(found) && found.exempt_apply == apply
                && found.exempt_deapply == deapply,
            None => r is None,
        },
{
    match node {
        Node::Table(entries) => {
            proof {
                lemma_table_view(*entries);
            }
            match (find_entry(entries, "exemptApply"), find_entry(entries, "exemptDeapply")) {
                (Some(Node::Boolean(apply)), Some(Node::Boolean(deapply))) => Some(
                    OverrideSettings { exempt_apply: *apply, exempt_deapply: *deapply },
                ),
                _ => None,
            }
        },
        _ => None,
    }
}

/// The location that a table describes.
fn location(node: &Node) -> (r: Option<Location>)
    ensures
        match location_of(tree_of(*node)) {
            Some(model) => r matches Some(found) && found@ == model,
            None => r is None,
        },
{
    match node {
        Node::Table(entries) => {
            proof {
                lemma_table_view(*entries);
            }
            let file = match named_texts(entries, "file", "files") {
                Some(list) => list,
                None => {
                    return None;
                },
            };
            let node_paths = match named_texts(entries, "node", "nodes") {
                Some(list) => list,
                None => {
                    return None;
                },
            };
            let variable = match find_entry(entries, "variable") {
                Some(Node::Text(text)) => text.clone(),
                _ => {
                    return None;
                },
            };
            let default = match find_entry(entries, "default") {
                Some(Node::Text(text)) => Some(text.clone()),
                Some(_) => {
                    return None;
                },
                None => None,
            };
            let override_settings = match find_entry(entries, "override") {
                Some(table) => match exemptions(table) {
                    Some(found) => found,
                    None => {
                        return None;
                    },
                },
                None => OverrideSettings { exempt_apply: false, exempt_deapply: false },
            };
            Some(Location { file, node: node_paths, variable, default, override_settings })
        },
        _ => None,
    }
}

/// The locations of one format's table.
fn locations(node: &Node) -> (r: Option<FileTypeConfig>)
    ensures
        match locations_of(tree_of(*node)) {
            Some(model) => r matches Some(found) && found@ == model,
            None => r is None,
        },
{
    match node {
        Node::Table(entries) => {
            proof {
                lemma_table_view(*entries);
            }
            match find_entry(entries, "locations") {
                Some(Node::Array(items)) => {
                    proof {
                        lemma_array_view(*items);
                    }
                    let ghost all = items_view(items@);
                    let mut out: Vec<Location> = Vec::new();
                    let mut i: usize = 0;
                    while i < items.len()
                        invariant
                            i <= items.len(),
                            all == items_view(items@),
                            locations_of(tree_of(*node)) == if forall|j: int|
                                0 <= j < all.len() ==> location_of(#[trigger] all[j]) is Some {
                                Some(Seq::new(all.len(), |j: int| location_of(all[j])->0))
                            } else {
                                None
                            },
                            forall|j: int| 0 <= j < i ==> location_of(#[trigger] all[j]) is Some,
                            out.len() == i,
                            forall|j: int| 0 <= j < i ==> out[j]@ == location_of(all[j])->0,
                        decreases items.len() - i,
                    {
                        assert(all[i as int] == tree_of(items[i as int]));
                        match location(&items[i]) {
                            Some(found) => {
                                out.push(found);
                            },
                            None => {
                                return None;
                            },
                        }
                        i += 1;
                    }
                    let found = FileTypeConfig { locations: out };
                    assert(found@ =~= Seq::new(all.len(), |j: int| location_of(all[j])->0));
                    Some(found)
                },
                Some(_) => None,
                None => {
                    let found = FileTypeConfig { locations: Vec::new() };
                    assert(found@ =~= Seq::<LocationModel>::empty());
                    Some(found)
                },
            }
        },
        _ => None,
    }
}

/// The locations of the format `name`.
fn format(entries: &Vec<(String, Node)>, name: &str) -> (r: Option<FileTypeConfig>)
    ensures
        match format_of(entries_view(entries@), name@) {
            Some(model) => r matches Some(found) && found@ == model,
            None => r is None,
        },
{
    match find_entry(entries, name) {
        Some(node) => locations(node),
        None => {
            let found = FileTypeConfig { locations: Vec::new() };
            assert(found@ =~= Seq::<LocationModel>::empty());
            Some(found)
        },
    }
}

/// The locations of every format.
fn specific(node: &Node) -> (r: Option<Specific>)
    ensures
        match specific_of(tree_of(*node)) {
            Some(model) => r matches Some(found) && found@ == model,
            None => r is None,
        },
{
    match node {
        Node::Table(entries) => {
            proof {
                lemma_table_view(*entries);
            }
            let json = match format(entries, "json") {
                Some(found) => found,
                None => {
                    return None;
                },
            };
            let toml = match format(entries, "toml") {
                Some(found) => found,
                None => {
                    return None;
                },
            };
            let yaml = match format(entries, "yaml") {
                Some(found) => found,
                None => {
                    return None;
                },
            };
            let properties = match format(entries, "properties") {
                Some(found) => found,
                None => {
                    return None;
                },
            };
            let xml = match format(entries, "xml") {
                Some(found) => found,
                None => {
                    return None;
                },
            };
            Some(Specific { json, toml, yaml, properties, xml })
        },
        _ => None,
    }
}

/// The string under `key`, or `fallback` when the key is missing.
fn text_under(entries: &Vec<(String, Node)>, key: &str, fallback: &str) -> (r: Option<String>)
    ensures
        r.deep_view() == text_or(entries_view(entries@), key@, fallback@),
{
    match find_entry(entries, key) {
        Some(Node::Text(text)) => Some(text.clone()),
        Some(_) => None,
        None => Some(fallback.to_string()),
    }
}

/// What an `environment` table holds.
fn environment(node: &Node) -> (r: Option<Environment>)
    ensures
        match environment_of(tree_of(*node)) {
            Some(model) => r matches Some(found) && found@ == model,
            None => r is None,
        },
{
    match node {
        Node::Table(entries) => {
            proof {
                lemma_table_view(*entries);
            }
            let prefix = match text_under(entries, "prefix", "%") {
                Some(text) => text,
                None => {
                    return None;
                },
            };
            let suffix = match text_under(entries, "suffix", "%") {
                Some(text) => text,
                None => {
                    return None;
                },
            };
            let variables = match find_entry(entries, "variables") {
                Some(list) => match text_list(list) {
                    Some(found) => found,
                    None => {
                        return None;
                    },
                },
                None => {
                    let none: Vec<String> = Vec::new();
                    assert(none.deep_view() == Seq::<Seq<char>>::empty());
                    none
                },
            };
            Some(Environment { prefix, suffix, variables })
        },
        _ => None,
    }
}

/// Whether a value is there and is a boolean.
pub open spec fn is_boolean(value: Option<Tree>) -> bool {
    value matches Some(Tree::Boolean(_))
}

/// Whether a value is there and is a string.
pub open spec fn is_text(value: Option<Tree>) -> bool {
    value matches Some(Tree::Text(_))
}

/// The key at which an `override` table departs from what it has to be.
pub open spec fn exemptions_fault(tree: Tree) -> Seq<char> {
    match tree {
        Tree::Table(entries) => if !is_boolean(entry(entries, "exemptApply"@)) {
            "exemptApply"@
        } else {
            "exemptDeapply"@
        },
        _ => "override"@,
    }
}

/// The key at which a location departs from what it has to be: the first of
/// `file`, `node`, `variable`, `default` and `override` that does.
pub open spec fn location_fault(tree: Tree) -> Seq<char> {
    match tree {
        Tree::Table(entries) => if named_list(entries, "file"@, "files"@) is None {
            "file"@
        } else if named_list(entries, "node"@, "nodes"@) is None {
            "node"@
        } else if !is_text(entry(entries, "variable"@)) {
            "variable"@
        } else if entry(entries, "default"@) is Some && !is_text(entry(entries, "default"@)) {
            "default"@
        } else {
            match entry(entries, "override"@) {
                Some(table) => exemptions_fault(table),
                None => "override"@,
            }
        },
        _ => "locations"@,
    }
}

/// The index of the first item that is no location, or the number of items
/// when all are.
pub open spec fn first_rejected(items: Seq<Tree>) -> int
    decreases items.len(),
{
    if items.len() == 0 || location_of(items[0]) is None {
        0
    } else {
        1 + first_rejected(items.drop_first())
    }
}

/// The key at which the table of the format `name` departs from what it has
/// to be.
pub open spec fn locations_fault(tree: Tree, name: Seq<char>) -> Seq<char> {
    match tree {
        Tree::Table(entries) => match entry(entries, "locations"@) {
            Some(Tree::Array(items)) => if 0 <= first_rejected(items) < items.len() {
                location_fault(items[first_rejected(items)])
            } else {
                "locations"@
            },
            _ => "locations"@,
        },
        _ => name,
    }
}

/// The key at which the format `name` departs from what it has to be.
pub open spec fn format_fault(entries: Seq<(Seq<char>, Tree)>, name: Seq<char>) -> Seq<char> {
    match entry(entries, name) {
        Some(tree) => locations_fault(tree, name),
        None => name,
    }
}

/// The key at which a `specific` table departs from what it has to be: that
/// of the first format that does.
pub open spec fn specific_fault(tree: Tree) -> Seq<char> {
    match tree {
        Tree::Table(entries) => if format_of(entries, "json"@) is None {
            format_fault(entries, "json"@)
        } else if format_of(entries, "toml"@) is None {
            format_fault(entries, "toml"@)
        } else if format_of(entries, "yaml"@) is None {
            format_fault(entries, "yaml"@)
        } else if format_of(entries, "properties"@) is None {
            format_fault(entries, "properties"@)
        } else {
            format_fault(entries, "xml"@)
        },
        _ => "specific"@,
    }
}

/// The key at which an `environment` table departs from what it has to be.
pub open spec fn environment_fault(tree: Tree) -> Seq<char> {
    match tree {
        Tree::Table(entries) => if text_or(entries, "prefix"@, "%"@) is None {
            "prefix"@
        } else if text_or(entries, "suffix"@, "%"@) is None {
            "suffix"@
        } else {
            "variables"@
        },
        _ => "environment"@,
    }
}

/// The key at which a document departs from a configuration.
pub open spec fn config_fault(tree: Tree) -> Seq<char> {
    match tree {
        Tree::Table(entries) => match entry(entries, "environment"@) {
            Some(table) => if environment_of(table) is None {
                environment_fault(table)
            } else {
                match entry(entries, "specific"@) {
                    Some(table) => specific_fault(table),
                    None => "specific"@,
                }
            },
            None => match entry(entries, "specific"@) {
                Some(table) => specific_fault(table),
                None => "specific"@,
            },
        },
        _ => "document"@,
    }
}

/// The key at which an `override` table departs from what it has to be.
fn find_exemptions_fault(node: &Node) -> (key: String)
    ensures
        key@ == exemptions_fault(tree_of(*node)),
{
    match node {
        Node::Table(entries) => {
            proof {
                lemma_table_view(*entries);
            }
            match find_entry(entries, "exemptApply") {
                Some(Node::Boolean(_)) => "exemptDeapply".to_string(),
                _ => "exemptApply".to_string(),
            }
        },
        _ => "override".to_string(),
    }
}

/// The key at which a location departs from what it has to be.
fn find_location_fault(node: &Node) -> (key: String)
    ensures
        key@ == location_fault(tree_of(*node)),
{
    match node {
        Node::Table(entries) => {
            proof {
                lemma_table_view(*entries);
            }
            if named_texts(entries, "file", "files").is_none() {
                return "file".to_string();
            }
            if named_texts(entries, "node", "nodes").is_none() {
                return "node".to_string();
            }
            match find_entry(entries, "variable") {
                Some(Node::Text(_)) => {},
                _ => {
                    return "variable".to_string();
                },
            }
            match find_entry(entries, "default") {
                Some(Node::Text(_)) => {},
                Some(_) => {
                    return "default".to_string();
                },
                None => {},
            }
            match find_entry(entries, "override") {
                Some(table) => find_exemptions_fault(table),
                None => "override".to_string(),
            }
        },
        _ => "locations".to_string(),
    }
}

/// The key at which the table of the format `name` departs from what it has
/// to be.
fn find_locations_fault(node: &Node, name: &str) -> (key: String)
    ensures
        key@ == locations_fault(tree_of(*node), name@),
{
    match node {
        Node::Table(entries) => {
            proof {
                lemma_table_view(*entries);
            }
            match find_entry(entries, "locations") {
                Some(Node::Array(items)) => {
                    proof {
                        lemma_array_view(*items);
                    }
                    let ghost all = items_view(items@);
                    let mut i: usize = 0;
                    assert(all.skip(0) == all);
                    while i < items.len()
                        invariant
                            i <= items.len(),
                            all == items_view(items@),
                            first_rejected(all) == i + first_rejected(all.skip(i as int)),
                            locations_fault(tree_of(*node), name@) == if 0 <= first_rejected(all)
                                < all.len() {
                                location_fault(all[first_rejected(all)])
                            } else {
                                "locations"@
                            },
                        decreases items.len() - i,
                    {
                        let ghost rest = all.skip(i as int);
                        assert(rest[0] == tree_of(items[i as int]));
                        assert(rest.drop_first() == all.skip(i + 1));
                        if location(&items[i]).is_none() {
                            assert(first_rejected(rest) == 0);
                            assert(all[i as int] == tree_of(items[i as int]));
                            return find_location_fault(&items[i]);
                        }
                        i += 1;
                    }
                    assert(all.skip(items.len() as int).len() == 0);
                    "locations".to_string()
                },
                _ => "locations".to_string(),
            }
        },
        _ => name.to_string(),
    }
}

/// The key at which the format `name` departs from what it has to be.
fn find_format_fault(entries: &Vec<(String, Node)>, name: &str) -> (key: String)
    ensures
        key@ == format_fault(entries_view(entries@), name@),
{
    match find_entry(entries, name) {
        Some(node) => find_locations_fault(node, name),
        None => name.to_string(),
    }
}

/// The key at which a `specific` table departs from what it has to be.
fn find_specific_fault(node: &Node) -> (key: String)
    ensures
        key@ == specific_fault(tree_of(*node)),
{
    match node {
        Node::Table(entries) => {
            proof {
                lemma_table_view(*entries);
            }
            if format(entries, "json").is_none() {
                find_format_fault(entries, "json")
            } else if format(entries, "toml").is_none() {
                find_format_fault(entries, "toml")
            } else if format(entries, "yaml").is_none() {
                find_format_fault(entries, "yaml")
            } else if format(entries, "properties").is_none() {
                find_format_fault(entries, "properties")
            } else {
                find_format_fault(entries, "xml")
            }
        },
        _ => "specific".to_string(),
    }
}

/// The key at which an `environment` table departs from what it has to be.
fn find_environment_fault(node: &Node) -> (key: String)
    ensures
        key@ == environment_fault(tree_of(*node)),
{
    match node {
        Node::Table(entries) => {
            proof {
                lemma_table_view(*entries);
            }
            if text_under(entries, "prefix", "%").is_none() {
                "prefix".to_string()
            } else if text_under(entries, "suffix", "%").is_none() {
                "suffix".to_string()
            } else {
                "variables".to_string()
            }
        },
        _ => "environment".to_string(),
    }
}

/// The message of a document that is TOML but departs from a configuration
/// at `key`.
pub open spec fn shape_message(key: Seq<char>) -> Seq<char> {
    "TOML parsing error: the key `"@ + key + "` is missing, given twice or of the wrong type"@
}

/// The error of a document that departs from a configuration at `key`.
fn rejected(key: String) -> (error: ConfigError)
    ensures
        error matches ConfigError::ParseError(message) && message@ == shape_message(key@),
{
    let mut message = "TOML parsing error: the key `".to_string();
    message.append(key.as_str());
    message.append("` is missing, given twice or of the wrong type");
    ConfigError::ParseError(message)
}

/// Reads the configuration out of a parsed document. A document that is no
/// configuration is rejected with a message that names the key at which it
/// departs from one.
pub fn config_from_document(document: &Node) -> (r: Result<Config, ConfigError>)
    ensures
        match config_of(tree_of(*document)) {
            Some(model) => r matches Ok(config) && config@ == model,
            None => r matches Err(ConfigError::ParseError(message)) && message@
                == shape_message(config_fault(tree_of(*document))),
        },
{
    match document {
        Node::Table(entries) => {
            proof {
                lemma_table_view(*entries);
            }
            let environment = match find_entry(entries, "environment") {
                Some(table) => match environment(table) {
                    Some(found) => found,
                    None => {
                        return Err(rejected(find_environment_fault(table)));
                    },
                },
                None => {
                    let none: Vec<String> = Vec::new();
                    assert(none.deep_view() == Seq::<Seq<char>>::empty());
                    Environment { prefix: String::new(), suffix: String::new(), variables: none }
                },
            };
            let specific = match find_entry(entries, "specific") {
                Some(table) => match specific(table) {
                    Some(found) => found,
                    None => {
                        return Err(rejected(find_specific_fault(table)));
                    },
                },
                None => {
                    let found = Specific {
                        json: FileTypeConfig { locations: Vec::new() },
                        toml: FileTypeConfig { locations: Vec::new() },
                        yaml: FileTypeConfig { locations: Vec::new() },
                        properties: FileTypeConfig { locations: Vec::new() },
                        xml: FileTypeConfig { locations: Vec::new() },
                    };
                    assert(found.json@ =~= Seq::<LocationModel>::empty());
                    assert(found.toml@ =~= Seq::<LocationModel>::empty());
                    assert(found.yaml@ =~= Seq::<LocationModel>::empty());
                    assert(found.properties@ =~= Seq::<LocationModel>::empty());
                    assert(found.xml@ =~= Seq::<LocationModel>::empty());
                    found
                },
            };
            Ok(Config { environment, specific })
        },
        _ => Err(rejected("document".to_string())),
    }
}

/// What reading `text` as a configuration gives: the configuration, or the
/// message of the error.
pub open spec fn config_of_text(text: Seq<char>) -> Result<ConfigModel, Seq<char>> {
    match toml_document(text) {
        Ok(tree) => match config_of(tree) {
            Some(model) => Ok(model),
            None => Err(shape_message(config_fault(tree))),
        },
        Err(message) => Err("TOML parsing error: "@ + message),
    }
}

impl Config {
    /// Reads a configuration from TOML text.
    pub fn from_toml(text: &str) -> (r: Result<Config, ConfigError>)
        ensures
            match config_of_text(text@) {
                Ok(model) => r matches Ok(config) && config@ == model,
                Err(message) => r matches Err(ConfigError::ParseError(said)) && said@ == message,
            },
    {
        match parse_document(text) {
            Ok(document) => config_from_document(&document),
            Err(message) => {
                let mut said = "TOML parsing error: ".to_string();
                said.append(message.as_str());
                Err(ConfigError::ParseError(said))
            },
        }
    }
}

} // verus!
