use env_applier::text::{
    chars_of, contains_char, ends_with, indentation_bytes, is_whitespace, join_with, same_text,
    spaces, split_lines, split_on, starts_with, trim,
};

const SAMPLES: [&str; 24] = [
    "",
    "\n",
    "\r",
    "\r\n",
    "a",
    "a\n",
    "a\r\n",
    "a\r",
    "a\n\n",
    "\na",
    "a\nb",
    "a\r\nb\r\n",
    "a\r\r\nb",
    "a\n\rb",
    "\n\n\n",
    "a\n\r\n\n",
    "  a  \n\tb\t",
    "\u{a0}x\u{2003}",
    "a.b.c",
    ".a.",
    "..",
    "caf\u{e9}\ncr\u{e8}me\r\n",
    " \u{85} ",
    "\u{3000}",
];

#[test]
fn whitespace_agrees_with_std_on_every_char() {
    let mut n: u32 = 0;
    while n <= 0x10FFFF {
        if let Some(c) = char::from_u32(n) {
            assert_eq!(is_whitespace(c), c.is_whitespace(), "U+{:04X}", n);
        }
        n += 1;
    }
}

#[test]
fn chars_of_lists_every_char() {
    assert_eq!(chars_of("a\u{e9}b"), vec!['a', '\u{e9}', 'b']);
    assert!(same_text("abc", "abc"));
    assert!(!same_text("abc", "abd"));
    assert!(!same_text("abc", "ab"));
    assert!(same_text("", ""));
}

#[test]
fn lines_agree_with_std() {
    for sample in SAMPLES {
        let expected: Vec<String> = sample.lines().map(|line| line.to_string()).collect();
        assert_eq!(split_lines(sample), expected, "{:?}", sample);
    }
    assert_eq!(split_lines("a\r\nb\n\nc"), vec!["a", "b", "", "c"]);
    assert!(split_lines("").is_empty());
    assert_eq!(split_lines("\n"), vec![""]);
}

#[test]
fn split_agrees_with_std() {
    for sample in SAMPLES {
        for sep in ['.', '\n', 'a'] {
            let expected: Vec<String> = sample.split(sep).map(|part| part.to_string()).collect();
            assert_eq!(split_on(sample, sep), expected, "{:?} at {:?}", sample, sep);
        }
    }
    assert_eq!(split_on("a.b..c.", '.'), vec!["a", "b", "", "c", ""]);
    assert_eq!(split_on("", '.'), vec![""]);
}

#[test]
fn join_agrees_with_std() {
    for sample in SAMPLES {
        let parts = split_on(sample, '.');
        assert_eq!(join_with(&parts, '.'), sample);
        assert_eq!(join_with(&parts, '\n'), parts.join("\n"));
    }
    assert_eq!(join_with(&Vec::new(), '\n'), "");
    assert_eq!(join_with(&vec!["a".to_string()], '\n'), "a");
    assert_eq!(join_with(&vec!["a".to_string(), "".to_string()], '\n'), "a\n");
}

#[test]
fn trim_agrees_with_std() {
    for sample in SAMPLES {
        assert_eq!(trim(sample), sample.trim(), "{:?}", sample);
        assert_eq!(
            indentation_bytes(sample),
            sample.len() - sample.trim_start().len(),
            "{:?}",
            sample
        );
    }
    assert_eq!(trim("  a b \t"), "a b");
    assert_eq!(indentation_bytes("\u{a0} x"), 3);
}

#[test]
fn prefixes_suffixes_and_members() {
    for sample in SAMPLES {
        for other in ["", "a", "a\n", ".", "..", "\n", "\r\n", "b\r\n"] {
            assert_eq!(starts_with(sample, other), sample.starts_with(other));
            assert_eq!(ends_with(sample, other), sample.ends_with(other));
        }
        for c in ['a', '.', '\n', '\u{e9}'] {
            assert_eq!(contains_char(sample, c), sample.contains(c));
        }
    }
}

#[test]
fn spaces_are_spaces() {
    assert_eq!(spaces(0), "");
    assert_eq!(spaces(3), "   ");
    assert_eq!(spaces(3), " ".repeat(3));
}
