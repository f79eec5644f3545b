use env_applier::config::ConfigError;
use env_applier::envfile::EnvError;
use env_applier::formats::hocon;
use env_applier::formats::indent::{detect_indent, skips, step};
use env_applier::formats::json;
use env_applier::formats::properties;
use env_applier::formats::region::{find_value_end, replace_value, Syntax};
use env_applier::formats::toml::{Line, Tracker};
use env_applier::formats::yaml;
use env_applier::pattern::{capture_first, captures, group_or_empty};

const JSON: Syntax = Syntax {
    hash: false,
    slashes: true,
    single: false,
    comma: true,
    front_only: false,
    spaced: false,
};

const YAML: Syntax = Syntax {
    hash: true,
    slashes: false,
    single: true,
    comma: false,
    front_only: true,
    spaced: true,
};

const HOCON: Syntax = Syntax {
    hash: true,
    slashes: true,
    single: false,
    comma: true,
    front_only: false,
    spaced: false,
};

fn path(segments: &[&str]) -> Vec<String> {
    segments.iter().map(|segment| segment.to_string()).collect()
}

#[test]
fn hocon_cursor_enters_and_leaves_containers() {
    let wanted = path(&["a", "b", "c"]);
    let mut cursor = hocon::Cursor::new();
    let key = |indent: usize, name: &str| Some((indent, name.to_string()));

    assert!(!cursor.visit(0, &key(0, "x"), false, &wanted));
    assert_eq!((cursor.segment, cursor.opened.clone()), (0, vec![]));
    assert!(!cursor.visit(0, &key(0, "y"), true, &wanted), "a container off the path");
    assert_eq!((cursor.segment, cursor.opened.clone()), (0, vec![(0, false)]));
    assert!(!cursor.visit(2, &key(2, "a"), true, &wanted), "a inside y is not the a of the path");
    assert_eq!((cursor.segment, cursor.opened.clone()), (0, vec![(0, false), (2, false)]));
    assert!(!cursor.visit(0, &key(0, "a"), true, &wanted));
    assert_eq!((cursor.segment, cursor.opened.clone()), (1, vec![(0, true)]));
    assert!(!cursor.visit(2, &key(4, "b"), false, &wanted), "the two widths must agree");
    assert_eq!(cursor.segment, 1);
    assert!(!cursor.visit(6, &key(6, "x"), false, &wanted));
    assert!(!cursor.visit(2, &key(2, "b"), false, &wanted), "siblings need not line up");
    assert_eq!((cursor.segment, cursor.opened.clone()), (2, vec![(0, true), (2, true)]));
    assert!(!cursor.visit(4, &None, false, &wanted));
    assert!(!cursor.visit(2, &key(2, "c"), false, &wanted), "leaving b takes the scan back to b");
    assert_eq!((cursor.segment, cursor.opened.clone()), (1, vec![(0, true)]));
    assert!(!cursor.visit(2, &key(2, "b"), true, &wanted));
    assert!(!cursor.visit(4, &key(4, "z"), true, &wanted));
    assert!(!cursor.visit(6, &key(6, "c"), false, &wanted), "c inside z is not the c of the path");
    assert!(cursor.visit(4, &key(4, "c"), false, &wanted));
    assert_eq!((cursor.segment, cursor.opened.clone()), (2, vec![(0, true), (2, true)]));
    assert!(cursor.is_on_path());

    let mut cursor = hocon::Cursor {
        segment: 3,
        opened: vec![(0, true), (2, true), (2, false), (5, true)],
    };
    assert!(!cursor.is_on_path());
    assert!(!cursor.visit(2, &None, false, &path(&["a", "b", "c", "d"])));
    assert_eq!((cursor.segment, cursor.opened.clone()), (1, vec![(0, true)]));
    let mut cursor = hocon::Cursor { segment: 0, opened: vec![(4, true), (4, false)] };
    assert!(!cursor.visit(1, &None, false, &wanted));
    assert_eq!((cursor.segment, cursor.opened.clone()), (0, vec![]));
    assert!(hocon::opens("k {", ""));
    assert!(hocon::opens("  \"k\" {  x", "x"));
    assert!(hocon::opens("k = { a = 1 }", "{ a = 1 }"));
    assert!(!hocon::opens("k = 1", "1"));
    assert!(!hocon::opens("k = \"{\"", "\"{\""));
    assert!(!hocon::opens("k", "longer than the line"));
}

#[test]
fn hocon_key_line_is_taken_apart() {
    assert_eq!(
        hocon::find_key("  \"a b\" { x").unwrap(),
        Some((2, "a b".to_string(), "x".to_string()))
    );
    assert_eq!(
        hocon::find_key("\u{a0}key-1=v # c").unwrap(),
        Some((2, "key-1".to_string(), "v # c".to_string()))
    );
    assert_eq!(
        hocon::find_key("k :  \"v\"").unwrap(),
        Some((0, "k".to_string(), "\"v\"".to_string()))
    );
    assert_eq!(hocon::find_key("1key = v").unwrap(), None);
    assert!(hocon::skips("  // c"));
    assert!(hocon::skips("\t# c"));
    assert!(hocon::skips(" "));
    assert!(!hocon::skips("/ c"));
}

#[test]
fn value_ends_before_comma_whitespace_and_comment() {
    let json = JSON;
    let yaml = YAML;
    let hocon = HOCON;
    assert_eq!(find_value_end("\"old\", // c", json), 5);
    assert_eq!(find_value_end("\"x,y\"", json), 5);
    assert_eq!(find_value_end("\"x,y\" ,  ", json), 5);
    assert_eq!(find_value_end("\"http://x\" // c", json), 10);
    assert_eq!(find_value_end("\"a\\\"//b\" // c", json), 8);
    assert_eq!(find_value_end("1 # no comment here", json), 19);
    assert_eq!(find_value_end("1,", yaml), 2);
    assert_eq!(find_value_end("'a#b' # c", yaml), 5);
    assert_eq!(find_value_end("\"a#b\" # c", yaml), 5);
    assert_eq!(find_value_end("a#b", yaml), 1);
    assert_eq!(find_value_end("it's // c", hocon), 4);
    assert_eq!(find_value_end("v   // c # d", hocon), 1);
    assert_eq!(find_value_end("v   # c // d", hocon), 1);
    assert_eq!(find_value_end("  ", hocon), 0);
    assert_eq!(find_value_end("", hocon), 0);
    assert_eq!(find_value_end("\"open // never closed", hocon), 5);
    assert_eq!(find_value_end("a'b #c", yaml), 3);
    assert_eq!(find_value_end("it's # c", yaml), 4);
    assert_eq!(find_value_end("a 'b #c' # d", yaml), 4);
    assert_eq!(find_value_end("'it''s #' # c", yaml), 9);
    assert_eq!(find_value_end("\"a\"b\" # c", hocon), 5);
    assert_eq!(find_value_end("\"C:\\temp\\\" # c", hocon), 10);
    assert_eq!(find_value_end("[\"a#b\", \"c\"] # d", hocon), 12);
    assert_eq!(find_value_end("/ /", hocon), 3);
}

#[test]
fn value_is_replaced_and_the_rest_stays() {
    let json = JSON;
    assert_eq!(
        replace_value("    \"k\" :  \"old\" ,  // c", "\"old\" ,  // c", "1", json),
        "    \"k\" :  1 ,  // c"
    );
    assert_eq!(replace_value("k: v", "v", "w", json), "k: w");
    assert_eq!(replace_value("k: ", "", "w", json), "k: w");
    assert_eq!(replace_value("k", "longer than the line", "w", json), "w");
    assert_eq!(replace_value("k:", "", "v", YAML), "k: v");
    assert_eq!(replace_value("k:   # c", "# c", "v", YAML), "k: v   # c");
    assert_eq!(replace_value("k:#c", "#c", "v", YAML), "k: v #c");
    assert_eq!(replace_value("k:old", "old", "v", YAML), "k: v");
    assert_eq!(replace_value("k:\t old  # c", "old  # c", "v", YAML), "k:\t v  # c");
    assert_eq!(replace_value("k:   ", "", "v", YAML), "k:   v");
}

#[test]
fn indentation_scanners_share_their_steps() {
    assert_eq!(step(0, true, 3), (1, false));
    assert_eq!(step(2, true, 3), (2, true));
    assert_eq!(step(1, false, 3), (1, false));
    assert_eq!(step(0, true, 1), (0, true));
    assert_eq!(step(0, true, 0), (0, false));
    assert_eq!(step(3, true, 3), (3, false));

    let lines = |text: &str| -> Vec<String> { text.lines().map(|line| line.to_string()).collect() };
    assert_eq!(detect_indent(&lines("a\nb"), "#"), 2);
    assert_eq!(detect_indent(&lines("a\n   b\n c"), "#"), 3);
    assert_eq!(detect_indent(&lines("  # c\n\n \n\tb"), "#"), 1);
    assert_eq!(detect_indent(&lines("    // c\n{\n      \"a\": 1"), "//"), 6);
    assert_eq!(detect_indent(&Vec::new(), "#"), 2);
    assert!(skips("   ", "//"));
    assert!(skips(" //x", "//"));
    assert!(!skips(" /x", "//"));
}

#[test]
fn yaml_and_json_keys_are_looked_for_at_their_depth() {
    assert_eq!(
        yaml::find_key("  a: 1 # c", 1, 2).unwrap(),
        Some(("a".to_string(), "1 # c".to_string()))
    );
    assert_eq!(yaml::find_key("  a: 1", 0, 2).unwrap(), None);
    assert_eq!(yaml::find_key(" a: 1", 1, 2).unwrap(), None);
    assert_eq!(yaml::find_key("a: 1", usize::MAX, 2).unwrap(), None);
    assert_eq!(
        json::find_key("    \"k\": 1, // c", 1, 2, "k").unwrap(),
        Some("1, // c".to_string())
    );
    assert_eq!(json::find_key(" \"k\": 1", 1, 2, "k").unwrap(), None);
    assert_eq!(json::find_key("\"k\": 1", usize::MAX, usize::MAX, "k").unwrap(), None);
    assert_eq!(json::find_key("\"k\": 1", 0, 2, "j").unwrap(), None);
}

#[test]
fn toml_tracker_follows_the_headers() {
    let mut tracker = Tracker::new();
    let entry = || Line::Entry("k = ".to_string(), String::new());
    assert!(tracker.visit(entry(), "k", "k"));
    assert!(!tracker.visit(entry(), "a.k", "k"));
    assert!(!tracker.visit(Line::TableHeader(path(&["a", "b"])), "a.b.k", "k"));
    assert_eq!(tracker.full_path("k"), "a.b.k");
    assert!(tracker.visit(entry(), "a.b.k", "k"));
    assert!(!tracker.visit(Line::ArrayHeader(path(&["c"])), "a.b.c.k", "k"));
    assert_eq!(tracker.full_path("k"), "a.b.c.k");
    assert!(!tracker.visit(Line::Bracket, "a.b.c.k", "k"));
    assert!(!tracker.visit(Line::Other, "a.b.c.k", "k"));
    assert!(tracker.visit(entry(), "a.b.c.k", "k"));
    assert!(!tracker.visit(Line::TableHeader(path(&["d"])), "d.k", "k"));
    assert_eq!((tracker.table.clone(), tracker.array.len()), (path(&["d"]), 0));
    assert!(tracker.visit(entry(), "d.k", "k"));
}

#[test]
fn properties_line_is_taken_apart_and_put_together() {
    let chars: Vec<char> = "k = \"a#b\" \\# c # d".chars().collect();
    assert_eq!(properties::find_comment(&chars, 3), 15);
    assert_eq!(properties::find_comment(&chars, 18), 18);
    let plain: Vec<char> = "abc".chars().collect();
    assert_eq!(properties::find_comment(&plain, 0), 3);
    assert_eq!(properties::compose_line("k ", " ", "v", "  ", "# c"), "k = v  # c");
    assert_eq!(properties::compose_line("k ", " ", "", "  ", "# c"), "k = # c");
    assert_eq!(properties::rewrite_line("no assignment here", "v"), "no assignment here");
    assert!(properties::is_assignment(" k =1", "k"));
    assert!(!properties::is_assignment("# k =1", "k"));
    assert!(!properties::is_assignment("k", "k"));
    assert_eq!(
        properties::find_target(&vec!["a=1".to_string(), "b=2".to_string()], "b"),
        Some(1)
    );
}

#[test]
fn groups_are_the_matched_texts() {
    let groups = captures(r"^(a+)(x)?(b*)", "aab!").unwrap().unwrap();
    assert_eq!(
        groups,
        vec![Some("aab".to_string()), Some("aa".to_string()), None, Some("b".to_string())]
    );
    assert_eq!(group_or_empty(&groups, 1), "aa");
    assert_eq!(group_or_empty(&groups, 2), "");
    assert_eq!(group_or_empty(&groups, 9), "");
    assert!(captures("^b", "ab").unwrap().is_none());
    assert!(captures("(", "ab").is_err());
    let found = capture_first(&vec!["^x(.)", "^a(.)", "^(a)(b)"], "ab").unwrap().unwrap();
    assert_eq!(found, vec![Some("ab".to_string()), Some("b".to_string())]);
    assert!(capture_first(&vec!["^x", "^y"], "ab").unwrap().is_none());
    assert!(capture_first(&Vec::new(), "ab").unwrap().is_none());
    assert!(capture_first(&vec!["^a", "("], "ab").unwrap().is_some());
    assert!(capture_first(&vec!["(", "^a"], "ab").is_err());
}

#[test]
fn errors_say_what_went_wrong() {
    assert_eq!(
        ConfigError::NotFound("config.toml".to_string()).message(),
        "Config file not found at config.toml"
    );
    assert_eq!(
        ConfigError::ParseError("bad".to_string()).message(),
        "Config parsing error: bad"
    );
    let io = std::io::Error::new(std::io::ErrorKind::Other, "disk on fire");
    assert_eq!(ConfigError::IoError(io).message(), "IO error: disk on fire");
    assert_eq!(
        EnvError::InvalidLine("x y".to_string()).message(),
        "Invalid line format: x y"
    );
}
