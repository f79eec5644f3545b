use env_applier::formats::xml::_parse_variable;
use env_applier::formats::yaml::parse_variable as parse_quoted_variable;
use env_applier::number::is_float;
use env_applier::variable::{parse_variable, Rendering};

fn text(value: &str) -> Rendering {
    Rendering::Text(value.to_string())
}

#[test]
fn numbers_are_written_as_numbers_and_text_is_quoted_where_strings_are() {
    for file_type in ["yaml", "json", "toml", "hocon"] {
        assert_eq!(parse_variable(file_type, "8080"), Rendering::Number);
        assert_eq!(parse_variable(file_type, "1e3"), Rendering::Number);
        assert_eq!(parse_variable(file_type, "localhost"), text("\"localhost\""));
        assert_eq!(parse_variable(file_type, ""), text("\"\""));
        assert_eq!(parse_variable(file_type, " 1"), text("\" 1\""));
    }
    assert_eq!(parse_variable("properties", "8080"), Rendering::Number);
    assert_eq!(parse_variable("properties", "localhost"), text("localhost"));
    assert_eq!(parse_variable("xml", "8080"), text(""));
    assert_eq!(parse_variable("ini", "x"), text(""));
    assert_eq!(parse_variable("YAML", "x"), text(""));
}

#[test]
fn the_variants_for_one_kind_of_file() {
    assert_eq!(parse_quoted_variable("12.5"), Rendering::Number);
    assert_eq!(parse_quoted_variable("%VAR%"), text("\"%VAR%\""));
    assert_eq!(_parse_variable("12.5"), Rendering::Number);
    assert_eq!(_parse_variable("%VAR%"), text("%VAR%"));
}

#[test]
fn float_notation_agrees_with_the_parser_of_std() {
    let samples = [
        "", " ", "0", "1", "-1", "+1", "+-1", "1.", ".1", ".", "-.", "1.5", "1.5.2", "1e5", "1E5",
        "1e", "1e+", "1e+5", "1e-5", "e5", ".e5", "1.e5", ".5e5", "1e5.0", "1e5e5", "inf", "-inf",
        "+Inf", "INF", "infinity", "-INFINITY", "infinit", "infinityy", "nan", "NaN", "-nan",
        "+NAN", "nane", "n", "i", "0x10", "1_000", "1 ", " 1", "\t1", "1\n", "١", "1٢", "１",
        "1,5", "1f32", "--1", "++1", "007", "00.00", "-0", "1e400", "9".repeat(400).as_str(),
        "İnf", "ınf", "K", "+", "-", "+.", "+e1", "1e+-1", ".e", "1..", "..1", "1.e", "1.e+",
    ]
    .map(|sample| sample.to_string());
    for sample in samples.iter() {
        assert_eq!(is_float(sample), sample.parse::<f64>().is_ok(), "{:?}", sample);
    }
    let alphabet = ['0', '7', '.', 'e', 'E', '+', '-', 'i', 'n', 'f', 'a', ' '];
    let mut counter: u32 = 0;
    while counter < 12 * 12 * 12 * 12 {
        let mut sample = String::new();
        let mut rest = counter;
        for _ in 0..4 {
            sample.push(alphabet[(rest % 12) as usize]);
            rest /= 12;
        }
        for length in 0..=4 {
            let cut: String = sample.chars().take(length).collect();
            assert_eq!(is_float(&cut), cut.parse::<f64>().is_ok(), "{:?}", cut);
        }
        counter += 1;
    }
}
