use env_applier::apply::{change_file, knows};
use env_applier::config::Config;
use env_applier::error::UpdateError;
use env_applier::plan::{apply, copy_named_nodes, deapply, get, is_blank};
use env_applier::variable::Rendering;

const CONFIG: &str = r#"
[environment]
prefix = "${"
suffix = "}"

[[specific.yaml.locations]]
file = ["a.yml", "b.yml"]
nodes = ["server.port", "  ", "server.host", ""]
variable = "PORT"

[[specific.yaml.locations]]
file = "c.yml"
node = "name"
variable = "NAME"
default = "12.50"
override = { exemptApply = true, exemptDeapply = false }

[[specific.json.locations]]
file = "d.json"
node = "key"
variable = "KEY"
override = { exemptApply = false, exemptDeapply = true }

[[specific.properties.locations]]
files = ["e.properties", "a.yml"]
node = ["  "]
variable = "PORT"

[[specific.xml.locations]]
file = "f.xml"
variable = "PORT"

[[specific.toml.locations]]
node = "x"
variable = "PORT"

[[specific.toml.locations]]
file = "g.toml"
node = "x.y"
variable = "UNSET"
"#;

fn pairs(list: &[(&str, &str)]) -> Vec<(String, String)> {
    list.iter().map(|(name, value)| (name.to_string(), value.to_string())).collect()
}

#[test]
fn blank_nodes_are_left_out() {
    assert!(is_blank(""));
    assert!(is_blank(" \t"));
    assert!(!is_blank(" a "));
    let nodes = vec!["a".to_string(), " ".to_string(), "".to_string(), " b".to_string()];
    assert_eq!(copy_named_nodes(&nodes), vec!["a", " b"]);
}

#[test]
fn deapply_goes_back_to_the_default_or_the_placeholder() {
    let config = Config::from_toml(CONFIG).unwrap();
    let plan = deapply(&config);
    let seen: Vec<(&str, &str, Vec<&str>, &str, &Rendering)> = plan
        .iter()
        .map(|entry| {
            (
                entry.format.as_str(),
                entry.file.as_str(),
                entry.nodes.iter().map(|node| node.as_str()).collect(),
                entry.value.as_str(),
                &entry.rendering,
            )
        })
        .collect();
    let placeholder = Rendering::Text("\"${PORT}\"".to_string());
    let unset = Rendering::Text("\"${UNSET}\"".to_string());
    assert_eq!(
        seen,
        vec![
            ("toml", "g.toml", vec!["x.y"], "${UNSET}", &unset),
            ("yaml", "a.yml", vec!["server.port", "server.host"], "${PORT}", &placeholder),
            ("yaml", "b.yml", vec!["server.port", "server.host"], "${PORT}", &placeholder),
            ("yaml", "c.yml", vec!["name"], "12.50", &Rendering::Number),
            ("properties", "e.properties", vec![], "${PORT}", &placeholder),
            ("properties", "a.yml", vec![], "${PORT}", &placeholder),
        ]
    );
}

#[test]
fn apply_takes_the_values_of_the_variables_that_are_set() {
    let config = Config::from_toml(CONFIG).unwrap();
    let variables = pairs(&[("PORT", "8080"), ("NAME", "n"), ("KEY", "some key")]);
    let plan = apply(&config, &variables);
    let seen: Vec<(&str, &str, usize, &str, &Rendering)> = plan
        .iter()
        .map(|entry| {
            (
                entry.format.as_str(),
                entry.file.as_str(),
                entry.nodes.len(),
                entry.value.as_str(),
                &entry.rendering,
            )
        })
        .collect();
    let key = Rendering::Text("\"some key\"".to_string());
    assert_eq!(
        seen,
        vec![
            ("json", "d.json", 1, "some key", &key),
            ("yaml", "a.yml", 2, "8080", &Rendering::Number),
            ("yaml", "b.yml", 2, "8080", &Rendering::Number),
            ("properties", "e.properties", 0, "8080", &Rendering::Number),
            ("properties", "a.yml", 0, "8080", &Rendering::Number),
        ]
    );
    assert!(apply(&config, &Vec::new()).is_empty());
}

#[test]
fn files_are_listed_once_and_only_with_a_node() {
    let config = Config::from_toml(CONFIG).unwrap();
    let variables = pairs(&[("PORT", "8080"), ("KEY", "k"), ("UNSET", "now set")]);
    assert_eq!(get(&config, &variables), vec!["d.json", "g.toml", "a.yml", "b.yml"]);
    let twice = Config::from_toml(
        "[[specific.yaml.locations]]\nfile = [\"a\", \"b\", \"a\"]\nnode = \"n\"\nvariable = \"V\"\n[[specific.xml.locations]]\nfile = \"b\"\nnode = \"n\"\nvariable = \"V\"\n",
    )
    .unwrap();
    assert_eq!(get(&twice, &pairs(&[("V", "1")])), vec!["a", "b"]);
    assert!(get(&twice, &Vec::new()).is_empty());
}

#[test]
fn an_edit_goes_to_the_adapter_of_its_format() {
    assert_eq!(change_file("yaml", "a: 1", "a", "2").unwrap().unwrap(), "a: 2");
    assert_eq!(change_file("json", "\"a\": 1,", "a", "2").unwrap().unwrap(), "\"a\": 2,");
    assert_eq!(change_file("toml", "a = 1", "a", "2").unwrap().unwrap(), "a = 2");
    assert_eq!(change_file("xml", "<a>1</a>", "a", "2").unwrap().unwrap(), "<a>2</a>");
    assert_eq!(change_file("properties", "a=1", "a", "2").unwrap().unwrap(), "a=2");
    assert_eq!(change_file("hocon", "a = x", "a", "y").unwrap().unwrap(), "a = \"y\"");
    assert!(change_file("ini", "a=1", "a", "2").unwrap().is_none());
    assert!(matches!(change_file("xml", "<a/>", "a", "2"), Err(UpdateError::SelfClosing)));
    for known in ["yaml", "json", "toml", "xml", "properties", "hocon"] {
        assert!(knows(known));
    }
    assert!(!knows("Yaml"));
    assert!(!knows(""));
}
