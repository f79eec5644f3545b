use env_applier::envfile::{
    expand, get_current_mode, get_env_file_paths, load, parse_contents, unquote_value, EnvError,
};

fn pairs(list: &[(&str, &str)]) -> Vec<(String, String)> {
    list.iter().map(|(name, value)| (name.to_string(), value.to_string())).collect()
}

#[test]
fn env_file_names_follow_the_mode() {
    assert_eq!(get_env_file_paths(""), vec![".env", ".env.local"]);
    assert_eq!(
        get_env_file_paths("production"),
        vec![".env", ".env.local", ".env.production", ".env.production.local"]
    );
}

#[test]
fn mode_is_the_first_setting_that_is_there() {
    assert_eq!(get_current_mode(Some("a"), Some("b")), "a");
    assert_eq!(get_current_mode(None, Some("b")), "b");
    assert_eq!(get_current_mode(None, None), "development");
}

#[test]
fn quotes_come_off_in_pairs_only() {
    assert_eq!(unquote_value("\"abc\""), "abc");
    assert_eq!(unquote_value("'abc'"), "abc");
    assert_eq!(unquote_value("  \"a b\"  "), "a b");
    assert_eq!(unquote_value("\"abc'"), "\"abc'");
    assert_eq!(unquote_value("abc\""), "abc\"");
    assert_eq!(unquote_value("\""), "\"");
    assert_eq!(unquote_value("\"\""), "");
    assert_eq!(unquote_value("  plain "), "plain");
    assert_eq!(unquote_value(""), "");
    assert_eq!(unquote_value("\u{e9}"), "\u{e9}");
}

#[test]
fn definitions_are_taken_in_and_references_followed() {
    let mut vars = Vec::new();
    let ran_out = parse_contents(
        "# comment\n\nA=1\n  B = \"${A}2\"  \nC=$B x # trailing\nD='$MISSING!'\nE=$HOME/bin\n",
        &mut vars,
        &pairs(&[("HOME", "/root")]),
    )
    .unwrap();
    assert!(!ran_out);
    assert_eq!(
        vars,
        pairs(&[("A", "1"), ("B", "12"), ("C", "12 x"), ("D", "!"), ("E", "/root/bin")])
    );
}

#[test]
fn a_name_that_the_environment_has_is_passed_over() {
    let mut vars = pairs(&[("OLD", "$A")]);
    parse_contents("A=1\nHOME=/elsewhere\n", &mut vars, &pairs(&[("HOME", "/root")])).unwrap();
    assert_eq!(vars, pairs(&[("OLD", "1"), ("A", "1")]));
}

#[test]
fn a_later_definition_replaces_an_earlier_one_in_place() {
    let mut vars = Vec::new();
    parse_contents("A=1\nB=2\nA=3\n", &mut vars, &Vec::new()).unwrap();
    assert_eq!(vars, pairs(&[("A", "3"), ("B", "2")]));
}

#[test]
fn a_line_that_is_no_definition_is_an_error_and_changes_nothing() {
    let mut vars = pairs(&[("KEEP", "1")]);
    match parse_contents("A=1\n  not a definition  \nB=2\n", &mut vars, &Vec::new()) {
        Err(EnvError::InvalidLine(line)) => assert_eq!(line, "not a definition"),
        other => panic!("expected an invalid line, got {:?}", other),
    }
    assert_eq!(vars, pairs(&[("KEEP", "1")]));
}

#[test]
fn a_value_that_grows_for_ever_runs_out_of_rounds() {
    let mut vars = Vec::new();
    let ran_out = parse_contents("A=x$A\n", &mut vars, &Vec::new()).unwrap();
    assert!(ran_out);
    assert_eq!(vars.len(), 1);
    assert_eq!(vars[0].1, format!("{}$A", "x".repeat(1 << 15)));
}

#[test]
fn two_names_that_refer_to_each_other_come_to_rest() {
    let mut vars = Vec::new();
    let ran_out = parse_contents("A=$B\nB=$A\n", &mut vars, &Vec::new()).unwrap();
    assert!(!ran_out);
    assert_eq!(vars, pairs(&[("A", "$A"), ("B", "$A")]));
}

#[test]
fn references_are_replaced_between_the_pieces_around_them() {
    let vars = pairs(&[("A", "1"), ("B_2", "two")]);
    let env = pairs(&[("A", "shadowed"), ("E", "env")]);
    assert_eq!(expand("", &vars, &env).unwrap(), "");
    assert_eq!(expand("plain", &vars, &env).unwrap(), "plain");
    assert_eq!(expand("$A", &vars, &env).unwrap(), "1");
    assert_eq!(expand("<${A}>$B_2-$E$NONE|${9}$", &vars, &env).unwrap(), "<1>two-env|${9}$");
}

#[test]
fn files_are_taken_in_one_after_the_other() {
    let files = vec![
        "A=1\nB=$A\n".to_string(),
        "A=2\nC=${B}${A}\nLOOP=$LOOP.\n".to_string(),
    ];
    let (variables, ran_out) = load(&files, &pairs(&[("SET", "x")])).unwrap();
    assert_eq!(ran_out, 1);
    assert_eq!(variables[0], ("A".to_string(), "2".to_string()));
    assert_eq!(variables[1], ("B".to_string(), "1".to_string()));
    assert_eq!(variables[2], ("C".to_string(), "12".to_string()));
    assert_eq!(variables[3].0, "LOOP");
    assert_eq!(variables.len(), 4);

    match load(&vec!["A=1".to_string(), "?".to_string()], &Vec::new()) {
        Err(error) => {
            assert_eq!(error.file, 1);
            assert!(matches!(error.cause, EnvError::InvalidLine(ref line) if line == "?"));
        }
        Ok(_) => panic!("expected an error"),
    }
}
