//! What a run does, worked out before any file is touched: which files take
//! which edits, in the order in which the run makes them.

use crate::config::{Config, ConfigModel, FileTypeConfig, Location, LocationModel};
use crate::formats::yaml;
use crate::text::{same_text, trim, trimmed};
use crate::variable::{parse_variable, rendering_of, Rendering, RenderingModel};
use crate::variables::{lookup, value_of};
use vstd::prelude::*;
use vstd::string::*;

verus! {

/// The edits that one file takes: one per node, all with the same value.
#[derive(Debug)]
pub struct FileEdits {
    /// The name of the file's format.
    pub format: String,
    /// The file.
    pub file: String,
    /// The paths of the values to replace, in order.
    pub nodes: Vec<String>,
    /// The value as it was given.
    pub value: String,
    /// How the value is written.
    pub rendering: Rendering,
}

/// What a `FileEdits` holds.
pub struct FileEditsModel {
    pub format: Seq<char>,
    pub file: Seq<char>,
    pub nodes: Seq<Seq<char>>,
    pub value: Seq<char>,
    pub rendering: RenderingModel,
}

impl View for FileEdits {
    type V = FileEditsModel;

    open spec fn view(&self) -> FileEditsModel {
        FileEditsModel {
            format: self.format@,
            file: self.file@,
            nodes: self.nodes.deep_view(),
            value: self.value@,
            rendering: self.rendering@,
        }
    }
}

/// What a list of `FileEdits` holds.
pub open spec fn plan_view(plan: Seq<FileEdits>) -> Seq<FileEditsModel> {
    Seq::new(plan.len(), |i: int| plan[i]@)
}

/// The nodes among `nodes` that are not blank.
pub open spec fn named_nodes(nodes: Seq<Seq<char>>) -> Seq<Seq<char>>
    decreases nodes.len(),
{
    if nodes.len() == 0 {
        Seq::empty()
    } else if trimmed(nodes.last()).len() == 0 {
        named_nodes(nodes.drop_last())
    } else {
        named_nodes(nodes.drop_last()).push(nodes.last())
    }
}

/// One entry per file among the first `upto` files of a location.
pub open spec fn edits_of_files(
    format: Seq<char>,
    location: LocationModel,
    value: Seq<char>,
    rendering: RenderingModel,
    upto: int,
) -> Seq<FileEditsModel>
    decreases upto,
{
    if upto <= 0 {
        Seq::empty()
    } else {
        edits_of_files(format, location, value, rendering, upto - 1).push(
            FileEditsModel {
                format,
                file: location.file[upto - 1],
                nodes: named_nodes(location.node),
                value,
                rendering,
            },
        )
    }
}

/// The entries of one location: one per file, none when the location names
/// no node.
pub open spec fn edits_of_location(
    format: Seq<char>,
    location: LocationModel,
    value: Seq<char>,
    rendering: RenderingModel,
) -> Seq<FileEditsModel> {
    if location.node.len() == 0 {
        Seq::empty()
    } else {
        edits_of_files(format, location, value, rendering, location.file.len() as int)
    }
}

/// The placeholder or default that a location goes back to.
pub open spec fn resting_value(location: LocationModel, prefix: Seq<char>, suffix: Seq<char>) -> Seq<
    char,
> {
    match location.default {
        Some(text) => text,
        None => prefix + location.variable + suffix,
    }
}

/// The entries by which one location goes back to its resting value. A
/// location that is exempt gives none. The value is quoted unless it is a
/// number, whatever the format.
pub open spec fn deapply_location(
    format: Seq<char>,
    location: LocationModel,
    prefix: Seq<char>,
    suffix: Seq<char>,
) -> Seq<FileEditsModel> {
    if location.exempt_deapply {
        Seq::empty()
    } else {
        let value = resting_value(location, prefix, suffix);
        edits_of_location(format, location, value, yaml::rendering_of(value))
    }
}

/// The entries of the first `upto` locations of a format.
pub open spec fn deapply_format(
    format: Seq<char>,
    locations: Seq<LocationModel>,
    prefix: Seq<char>,
    suffix: Seq<char>,
    upto: int,
) -> Seq<FileEditsModel>
    decreases upto,
{
    if upto <= 0 {
        Seq::empty()
    } else {
        deapply_format(format, locations, prefix, suffix, upto - 1) + deapply_location(
            format,
            locations[upto - 1],
            prefix,
            suffix,
        )
    }
}

/// Everything that a run does which takes the files back to their resting
/// values: the formats in their working order, in each its locations in
/// order, in each its files in order.
pub open spec fn deapply_plan(config: ConfigModel) -> Seq<FileEditsModel> {
    let prefix = config.environment.prefix;
    let suffix = config.environment.suffix;
    let specific = config.specific;
    deapply_format("json"@, specific.json, prefix, suffix, specific.json.len() as int)
        + deapply_format("toml"@, specific.toml, prefix, suffix, specific.toml.len() as int)
        + deapply_format("yaml"@, specific.yaml, prefix, suffix, specific.yaml.len() as int)
        + deapply_format(
        "properties"@,
        specific.properties,
        prefix,
        suffix,
        specific.properties.len() as int,
    ) + deapply_format("xml"@, specific.xml, prefix, suffix, specific.xml.len() as int)
}

/// The entries by which one location takes the value of its variable. A
/// location that is exempt or whose variable is not set gives none.
pub open spec fn apply_location(
    format: Seq<char>,
    location: LocationModel,
    variables: Seq<(Seq<char>, Seq<char>)>,
) -> Seq<FileEditsModel> {
    if location.exempt_apply {
        Seq::empty()
    } else {
        match value_of(variables, location.variable) {
            Some(value) => edits_of_location(format, location, value, rendering_of(format, value)),
            None => Seq::empty(),
        }
    }
}

/// The entries of the first `upto` locations of a format.
pub open spec fn apply_format(
    format: Seq<char>,
    locations: Seq<LocationModel>,
    variables: Seq<(Seq<char>, Seq<char>)>,
    upto: int,
) -> Seq<FileEditsModel>
    decreases upto,
{
    if upto <= 0 {
        Seq::empty()
    } else {
        apply_format(format, locations, variables, upto - 1) + apply_location(
            format,
            locations[upto - 1],
            variables,
        )
    }
}

/// Everything that a run does which writes the values of the variables into
/// the files.
pub open spec fn apply_plan(config: ConfigModel, variables: Seq<(Seq<char>, Seq<char>)>) -> Seq<
    FileEditsModel,
> {
    let specific = config.specific;
    apply_format("json"@, specific.json, variables, specific.json.len() as int) + apply_format(
        "toml"@,
        specific.toml,
        variables,
        specific.toml.len() as int,
    ) + apply_format("yaml"@, specific.yaml, variables, specific.yaml.len() as int) + apply_format(
        "properties"@,
        specific.properties,
        variables,
        specific.properties.len() as int,
    ) + apply_format("xml"@, specific.xml, variables, specific.xml.len() as int)
}

/// The files of the entries that name a node, each once, in the order of
/// their first entry.
pub open spec fn touched_files(plan: Seq<FileEditsModel>) -> Seq<Seq<char>>
    decreases plan.len(),
{
    if plan.len() == 0 {
        Seq::empty()
    } else {
        let before = touched_files(plan.drop_last());
        let entry = plan.last();
        if entry.nodes.len() == 0 || before.contains(entry.file) {
            before
        } else {
            before.push(entry.file)
        }
    }
}

/// Whether `node` is blank.
pub fn is_blank(node: &str) -> (r: bool)
    ensures
        r == (trimmed(node@).len() == 0),
{
    trim(node).as_str().is_empty()
}

/// A copy of the nodes that are not blank.
pub fn copy_named_nodes(nodes: &Vec<String>) -> (named: Vec<String>)
    ensures
        named.deep_view() == named_nodes(nodes.deep_view()),
{
    let mut named: Vec<String> = Vec::new();
    let mut i: usize = 0;
    assert(nodes.deep_view().take(0) == Seq::<Seq<char>>::empty());
    assert(named.deep_view() == Seq::<Seq<char>>::empty());
    while i < nodes.len()
        invariant
            i <= nodes.len(),
            named.deep_view() == named_nodes(nodes.deep_view().take(i as int)),
        decreases nodes.len() - i,
    {
        let ghost now = nodes.deep_view().take(i + 1);
        assert(now.drop_last() == nodes.deep_view().take(i as int));
        assert(now.last() == nodes[i as int]@);
        if !is_blank(nodes[i].as_str()) {
            let ghost before = named.deep_view();
            named.push(nodes[i].clone());
            assert(named.deep_view() == before.push(nodes[i as int]@));
        }
        i += 1;
    }
    assert(nodes.deep_view().take(nodes.len() as int) == nodes.deep_view());
    named
}

/// A copy of a rendering.
pub fn copy_rendering(rendering: &Rendering) -> (copy: Rendering)
    ensures
        copy@ == rendering@,
{
    match rendering {
        Rendering::Number => Rendering::Number,
        Rendering::Text(text) => Rendering::Text(text.clone()),
    }
}

/// Adds the entries of one location to `plan`.
pub fn add_location_edits(
    plan: &mut Vec<FileEdits>,
    format: &str,
    location: &Location,
    value: &str,
    rendering: &Rendering,
)
    ensures
        plan_view(final(plan)@) == plan_view(old(plan)@) + edits_of_location(
            format@,
            location@,
            value@,
            rendering@,
        ),
{
    if location.node.len() == 0 {
        assert(plan_view(plan@) + Seq::<FileEditsModel>::empty() == plan_view(plan@));
        return ;
    }
    let mut i: usize = 0;
    assert(plan_view(plan@) + Seq::<FileEditsModel>::empty() == plan_view(plan@));
    while i < location.file.len()
        invariant
            i <= location.file.len(),
            plan_view(plan@) == plan_view(old(plan)@) + edits_of_files(
                format@,
                location@,
                value@,
                rendering@,
                i as int,
            ),
        decreases location.file.len() - i,
    {
        let entry = FileEdits {
            format: format.to_string(),
            file: location.file[i].clone(),
            nodes: copy_named_nodes(&location.node),
            value: value.to_string(),
            rendering: copy_rendering(rendering),
        };
        let ghost before = plan_view(plan@);
        let ghost model = entry@;
        assert(location@.file[i as int] == location.file[i as int]@);
        plan.push(entry);
        assert(plan_view(plan@) == before.push(model));
        assert(before.push(model) == plan_view(old(plan)@) + edits_of_files(
            format@,
            location@,
            value@,
            rendering@,
            i as int,
        ).push(model));
        i += 1;
    }
}

/// Adds the entries by which the locations of one format go back to their
/// resting values.
fn add_deapply_format(
    plan: &mut Vec<FileEdits>,
    format: &str,
    locations: &FileTypeConfig,
    prefix: &str,
    suffix: &str,
)
    ensures
        plan_view(final(plan)@) == plan_view(old(plan)@) + deapply_format(
            format@,
            locations@,
            prefix@,
            suffix@,
            locations@.len() as int,
        ),
{
    let mut i: usize = 0;
    assert(plan_view(plan@) + Seq::<FileEditsModel>::empty() == plan_view(plan@));
    while i < locations.locations.len()
        invariant
            i <= locations.locations.len(),
            plan_view(plan@) == plan_view(old(plan)@) + deapply_format(
                format@,
                locations@,
                prefix@,
                suffix@,
                i as int,
            ),
        decreases locations.locations.len() - i,
    {
        let location = &locations.locations[i];
        assert(locations@[i as int] == location@);
        let ghost before = plan_view(plan@);
        if !location.override_settings.exempt_deapply {
            let value = match &location.default {
                Some(text) => text.clone(),
                None => {
                    let mut text = prefix.to_string();
                    text.append(location.variable.as_str());
                    text.append(suffix);
                    text
                },
            };
            let rendering = yaml::parse_variable(value.as_str());
            add_location_edits(plan, format, location, value.as_str(), &rendering);
        } else {
            assert(before + Seq::<FileEditsModel>::empty() == before);
        }
        assert(plan_view(plan@) == before + deapply_location(
            format@,
            location@,
            prefix@,
            suffix@,
        ));
        assert(plan_view(old(plan)@) + deapply_format(
            format@,
            locations@,
            prefix@,
            suffix@,
            i as int,
        ) + deapply_location(format@, location@, prefix@, suffix@) == plan_view(old(plan)@) + (
        deapply_format(format@, locations@, prefix@, suffix@, i as int) + deapply_location(
            format@,
            location@,
            prefix@,
            suffix@,
        )));
        i += 1;
    }
}

/// Works out the run that takes the files back to their resting values.
/// Whether a file is there is for the caller to find out.
pub fn deapply(config: &Config) -> (plan: Vec<FileEdits>)
    ensures
        plan_view(plan@) == deapply_plan(config@),
{
    let prefix = config.environment.prefix.as_str();
    let suffix = config.environment.suffix.as_str();
    let mut plan: Vec<FileEdits> = Vec::new();
    assert(plan_view(plan@) == Seq::<FileEditsModel>::empty());
    add_deapply_format(&mut plan, "json", &config.specific.json, prefix, suffix);
    assert(plan_view(plan@) == deapply_format(
        "json"@,
        config@.specific.json,
        prefix@,
        suffix@,
        config@.specific.json.len() as int,
    ));
    add_deapply_format(&mut plan, "toml", &config.specific.toml, prefix, suffix);
    add_deapply_format(&mut plan, "yaml", &config.specific.yaml, prefix, suffix);
    add_deapply_format(&mut plan, "properties", &config.specific.properties, prefix, suffix);
    add_deapply_format(&mut plan, "xml", &config.specific.xml, prefix, suffix);
    plan
}

/// Adds the entries by which the locations of one format take the values of
/// their variables.
fn add_apply_format(
    plan: &mut Vec<FileEdits>,
    format: &str,
    locations: &FileTypeConfig,
    variables: &Vec<(String, String)>,
)
    ensures
        plan_view(final(plan)@) == plan_view(old(plan)@) + apply_format(
            format@,
            locations@,
            variables.deep_view(),
            locations@.len() as int,
        ),
{
    let mut i: usize = 0;
    assert(plan_view(plan@) + Seq::<FileEditsModel>::empty() == plan_view(plan@));
    while i < locations.locations.len()
        invariant
            i <= locations.locations.len(),
            plan_view(plan@) == plan_view(old(plan)@) + apply_format(
                format@,
                locations@,
                variables.deep_view(),
                i as int,
            ),
        decreases locations.locations.len() - i,
    {
        let location = &locations.locations[i];
        assert(locations@[i as int] == location@);
        let ghost before = plan_view(plan@);
        let value = if location.override_settings.exempt_apply {
            None
        } else {
            lookup(variables, location.variable.as_str())
        };
        match value {
            Some(value) => {
                let rendering = parse_variable(format, value.as_str());
                add_location_edits(plan, format, location, value.as_str(), &rendering);
            },
            None => {
                assert(before + Seq::<FileEditsModel>::empty() == before);
            },
        }
        assert(plan_view(plan@) == before + apply_location(
            format@,
            location@,
            variables.deep_view(),
        ));
        assert(plan_view(old(plan)@) + apply_format(
            format@,
            locations@,
            variables.deep_view(),
            i as int,
        ) + apply_location(format@, location@, variables.deep_view()) == plan_view(old(plan)@) + (
        apply_format(format@, locations@, variables.deep_view(), i as int) + apply_location(
            format@,
            location@,
            variables.deep_view(),
        )));
        i += 1;
    }
}

/// Works out the run that writes the values of `variables` into the files.
/// Whether a file is there is for the caller to find out.
pub fn apply(config: &Config, variables: &Vec<(String, String)>) -> (plan: Vec<FileEdits>)
    ensures
        plan_view(plan@) == apply_plan(config@, variables.deep_view()),
{
    let mut plan: Vec<FileEdits> = Vec::new();
    assert(plan_view(plan@) == Seq::<FileEditsModel>::empty());
    add_apply_format(&mut plan, "json", &config.specific.json, variables);
    assert(plan_view(plan@) == apply_format(
        "json"@,
        config@.specific.json,
        variables.deep_view(),
        config@.specific.json.len() as int,
    ));
    add_apply_format(&mut plan, "toml", &config.specific.toml, variables);
    add_apply_format(&mut plan, "yaml", &config.specific.yaml, variables);
    add_apply_format(&mut plan, "properties", &config.specific.properties, variables);
    add_apply_format(&mut plan, "xml", &config.specific.xml, variables);
    plan
}

/// Whether `file` is among `files`.
fn holds(files: &Vec<String>, file: &str) -> (r: bool)
    ensures
        r == files.deep_view().contains(file@),
{
    let mut i: usize = 0;
    while i < files.len()
        invariant
            i <= files.len(),
            forall|j: int| 0 <= j < i ==> files.deep_view()[j] != file@,
        decreases files.len() - i,
    {
        if same_text(files[i].as_str(), file) {
            assert(files.deep_view()[i as int] == file@);
            return true;
        }
        i += 1;
    }
    false
}

/// The files that a run which writes the values of `variables` would touch
/// if they were all there, each once.
pub fn get(config: &Config, variables: &Vec<(String, String)>) -> (files: Vec<String>)
    ensures
        files.deep_view() == touched_files(apply_plan(config@, variables.deep_view())),
{
    let plan = apply(config, variables);
    let mut files: Vec<String> = Vec::new();
    let mut i: usize = 0;
    assert(plan_view(plan@).take(0) == Seq::<FileEditsModel>::empty());
    assert(files.deep_view() == Seq::<Seq<char>>::empty());
    while i < plan.len()
        invariant
            i <= plan.len(),
            files.deep_view() == touched_files(plan_view(plan@).take(i as int)),
        decreases plan.len() - i,
    {
        let ghost now = plan_view(plan@).take(i + 1);
        assert(now.drop_last() == plan_view(plan@).take(i as int));
        assert(now.last() == plan[i as int]@);
        if plan[i].nodes.len() > 0 && !holds(&files, plan[i].file.as_str()) {
            let ghost before = files.deep_view();
            files.push(plan[i].file.clone());
            assert(files.deep_view() == before.push(plan[i as int].file@));
        }
        i += 1;
    }
    assert(plan_view(plan@).take(plan.len() as int) == plan_view(plan@));
    files
}

} // verus!
