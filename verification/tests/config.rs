use env_applier::config::{Config, ConfigError};
use std::path::PathBuf;

const SAMPLE_CONFIG: &str = r##"
        [environment]
        prefix = "test"
        suffix = "test"
        variables = ["APP_ENV", "DEBUG"]

        [specific.yaml]
            [[specific.yaml.locations]]
            file = "single.yml"
            node = "single.node"
            variable = "VAR1"

            [[specific.yaml.locations]]
            file = ["multi1.yml", "multi2.yml"]
            nodes = ["node1", "node2"]
            variable = "VAR2"

            [[specific.yaml.locations]]
            files = ["both_files1.yml", "both_files2.yml"]
            nodes = ["both_nodes1", "both_nodes2"]
            variable = "VAR3"
            override = { exemptApply = true, exemptDeapply = false }
    "##;

fn paths(files: &[String]) -> Vec<PathBuf> {
    files.iter().map(PathBuf::from).collect()
}

#[test]
fn test_full_config_parsing() {
    let config: Config = Config::from_toml(SAMPLE_CONFIG).unwrap();

    assert_eq!(config.environment.prefix, "test");
    assert_eq!(config.environment.suffix, "test");
    assert_eq!(config.environment.variables, vec!["APP_ENV", "DEBUG"]);

    let yaml_locations = &config.specific.yaml.locations;
    assert_eq!(yaml_locations.len(), 3);

    assert_eq!(paths(&yaml_locations[0].file), vec![PathBuf::from("single.yml")]);
    assert_eq!(yaml_locations[0].node, vec!["single.node"]);
    assert_eq!(yaml_locations[0].variable, "VAR1");
    assert!(yaml_locations[0].default.is_none());

    assert_eq!(
        paths(&yaml_locations[1].file),
        vec![PathBuf::from("multi1.yml"), PathBuf::from("multi2.yml")]
    );
    assert_eq!(yaml_locations[1].node, vec!["node1", "node2"]);
    assert_eq!(yaml_locations[1].variable, "VAR2");

    assert_eq!(
        paths(&yaml_locations[2].file),
        vec![
            PathBuf::from("both_files1.yml"),
            PathBuf::from("both_files2.yml")
        ]
    );
    assert_eq!(yaml_locations[2].node, vec!["both_nodes1", "both_nodes2"]);
    assert_eq!(yaml_locations[2].variable, "VAR3");
    assert!(yaml_locations[2].override_settings.exempt_apply);
    assert!(!yaml_locations[2].override_settings.exempt_deapply);
}

#[test]
fn test_default_values() {
    let toml_input = r#"
            [specific.properties]
                [[specific.properties.locations]]
                variable = "DEFAULT_TEST"
        "#;

    let config: Config = Config::from_toml(toml_input).unwrap();
    let location = &config.specific.properties.locations[0];

    assert!(location.file.is_empty());
    assert!(location.node.is_empty());
    assert_eq!(location.variable, "DEFAULT_TEST");
    assert!(!location.override_settings.exempt_apply);
    assert!(!location.override_settings.exempt_deapply);
}

#[test]
fn test_invalid_toml() {
    let invalid_toml = r#"
            [specific.yaml.locations]
            file = "test.yml"
            node = "server.port
            variable = "PORT"
        "#;

    let result: Result<Config, _> = Config::from_toml(invalid_toml);
    assert!(result.is_err());
}

#[test]
fn test_edge_cases() {
    let toml_input = r#"
            [specific.yaml]
                [[specific.yaml.locations]]
                files = []
                nodes = []
                variable = "EMPTY_TEST"

                [[specific.yaml.locations]]
                file = ""
                node = ""
                variable = "BLANK_TEST"
        "#;

    let config: Config = Config::from_toml(toml_input).unwrap();

    let empty_location = &config.specific.yaml.locations[0];
    assert!(empty_location.file.is_empty());
    assert!(empty_location.node.is_empty());

    let blank_location = &config.specific.yaml.locations[1];
    assert_eq!(paths(&blank_location.file), vec![PathBuf::from("")]);
    assert_eq!(blank_location.node, vec![""]);
}

#[test]
fn environment_defaults_depend_on_the_table_being_there() {
    let absent = Config::from_toml("").unwrap();
    assert_eq!(absent.environment.prefix, "");
    assert_eq!(absent.environment.suffix, "");
    assert!(absent.environment.variables.is_empty());
    assert!(absent.specific.json.locations.is_empty());

    let present = Config::from_toml("[environment]\nvariables = [\"A\"]\n").unwrap();
    assert_eq!(present.environment.prefix, "%");
    assert_eq!(present.environment.suffix, "%");
    assert_eq!(present.environment.variables, vec!["A"]);
}

#[test]
fn a_parse_error_carries_the_parser_message() {
    match Config::from_toml("key = ") {
        Err(ConfigError::ParseError(message)) => {
            assert!(message.starts_with("TOML parsing error: "));
            assert!(message.len() > "TOML parsing error: ".len());
        }
        other => panic!("expected a parse error, got {:?}", other),
    }
}

#[test]
fn a_document_of_the_wrong_shape_is_rejected() {
    let cases = [
        ("environment = 5", "environment"),
        ("[environment]\nprefix = 1", "prefix"),
        ("[environment]\nsuffix = []", "suffix"),
        ("[environment]\nvariables = [1, 2]", "variables"),
        ("specific = 1", "specific"),
        ("[specific]\nyaml = \"x\"", "yaml"),
        ("[specific]\nxml = 1\njson = 2", "json"),
        ("[specific.yaml]\nlocations = \"x\"", "locations"),
        ("[specific.yaml]\nlocations = [1]", "locations"),
        ("[[specific.yaml.locations]]\nfile = \"a\"", "variable"),
        ("[[specific.yaml.locations]]\nvariable = 3", "variable"),
        (
            "[[specific.yaml.locations]]\nvariable = \"V\"\nfile = \"a\"\nfiles = [\"b\"]",
            "file",
        ),
        ("[[specific.yaml.locations]]\nvariable = \"V\"\nfile = [1]", "file"),
        ("[[specific.yaml.locations]]\nvariable = \"V\"\nnode = 7", "node"),
        ("[[specific.yaml.locations]]\nvariable = \"V\"\ndefault = true", "default"),
        ("[[specific.yaml.locations]]\nvariable = \"V\"\noverride = 1", "override"),
        (
            "[[specific.yaml.locations]]\nvariable = \"V\"\noverride = { exemptApply = true }",
            "exemptDeapply",
        ),
        (
            "[[specific.yaml.locations]]\nvariable = \"V\"\noverride = { exemptDeapply = true }",
            "exemptApply",
        ),
        (
            "[[specific.toml.locations]]\nvariable = \"V\"\n[[specific.toml.locations]]\nnode = 1\nvariable = \"W\"",
            "node",
        ),
    ];
    for (text, key) in cases {
        match Config::from_toml(text) {
            Err(ConfigError::ParseError(message)) => assert_eq!(
                message,
                format!(
                    "TOML parsing error: the key `{}` is missing, given twice or of the wrong type",
                    key
                ),
                "{}",
                text
            ),
            other => panic!("{}: expected a parse error, got {:?}", text, other),
        }
    }
}

#[test]
fn unknown_keys_are_passed_over_and_defaults_are_read() {
    let config = Config::from_toml(
        "other = 1\n[[specific.xml.locations]]\nvariable = \"V\"\ndefault = \"d\"\nextra = [1]\n",
    )
    .unwrap();
    let location = &config.specific.xml.locations[0];
    assert_eq!(location.default.as_deref(), Some("d"));
    assert_eq!(location.variable, "V");
}

#[test]
fn formats_are_listed_in_working_order() {
    let config = Config::from_toml("[[specific.toml.locations]]\nvariable = \"V\"\n").unwrap();
    let all = config.specific.iter();
    let names: Vec<&str> = all.iter().map(|(name, _)| *name).collect();
    assert_eq!(names, vec!["json", "toml", "yaml", "properties", "xml"]);
    assert_eq!(all[1].1.locations.len(), 1);
    assert!(all[0].1.locations.is_empty());
}
