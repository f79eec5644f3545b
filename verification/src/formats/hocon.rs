//! HOCON: keys may be bare or quoted, followed by `=`, `:` or an opening
//! brace. Nesting is followed by indentation: entering a container records
//! the indentation of its key, and a later line indented no deeper than that
//! leaves it again. Containers that are not on the path are followed too: a
//! key of the path is taken only while every container open around it is on
//! the path, so that a key of the same name inside another container is not
//! taken for it. On the target line the value is replaced by the literal
//! that stands for the new value; what stands before and after it stays.

use crate::error::UpdateError;
use crate::formats::region::{
    after_value, before, kept_front, lemma_replaced_is_free_of, lemma_replaced_is_one_line,
    lemma_replaced_keeps_the_rest, replace_value, replaced, Syntax,
};
use crate::number::{equals_ignoring_case, is_float, is_float_literal, same_ignoring_case};
use crate::pattern::{
    capture_first, first_capture, first_failure, group_or_empty, group_text,
    lemma_first_group_is_part, lemma_part_is_free_of, regex_compiles,
};
use crate::text::{
    byte_len, chars_of, count_trailing_whitespace, cut_text, indentation, indentation_bytes,
    is_free_of, is_one_line, join_text, lemma_concat_is_free_of, lemma_line_count_of_any_text,
    lemma_line_count_with_tail, lemma_main_lines, lemma_main_lines_of_any_text, lemma_rejoined,
    lines_of, main_lines, starts_with, tail_feeds, text_between, trailing_spaces, trim, trimmed,
    with_tail,
};
use vstd::prelude::*;
use vstd::string::*;

verus! {

/// A bare key and `=`.
pub const KEY_EQUALS: &'static str = r"^(\s*)([a-zA-Z_][a-zA-Z0-9_-]*)\s*=\s*(.*)$";

/// A bare key and `:`.
pub const KEY_COLON: &'static str = r"^(\s*)([a-zA-Z_][a-zA-Z0-9_-]*)\s*:\s*(.*)$";

/// A quoted key and `=`.
pub const QUOTED_KEY_EQUALS: &'static str = r#"^(\s*)"([^"]+)"\s*=\s*(.*)$"#;

/// A quoted key and `:`.
pub const QUOTED_KEY_COLON: &'static str = r#"^(\s*)"([^"]+)"\s*:\s*(.*)$"#;

/// A bare key and an opening brace.
pub const KEY_BRACE: &'static str = r"^(\s*)([a-zA-Z_][a-zA-Z0-9_-]*)\s*\{\s*(.*)$";

/// A quoted key and an opening brace.
pub const QUOTED_KEY_BRACE: &'static str = r#"^(\s*)"([^"]+)"\s*\{\s*(.*)$"#;

/// The shapes of a line that carries a key, in the order in which they are tried.
pub open spec fn key_patterns() -> Seq<Seq<char>> {
    seq![
        KEY_EQUALS@,
        KEY_COLON@,
        QUOTED_KEY_EQUALS@,
        QUOTED_KEY_COLON@,
        KEY_BRACE@,
        QUOTED_KEY_BRACE@,
    ]
}

/// A line that is blank or holds nothing but a comment.
pub open spec fn is_skipped(line: Seq<char>) -> bool {
    let t = trimmed(line);
    t.len() == 0 || "#"@.is_prefix_of(t) || "//"@.is_prefix_of(t)
}

/// What ends a value: a comma, `#` or `//` outside double quotes.
pub open spec fn syntax() -> Syntax {
    Syntax {
        hash: true,
        slashes: true,
        single: false,
        comma: true,
        front_only: false,
        spaced: false,
    }
}

/// What a key line holds: the width in bytes of the whitespace that the
/// pattern found before the key, the key without its quotes, and what stands
/// after the key and its sign.
pub open spec fn key_line(line: Seq<char>) -> Option<(usize, Seq<char>, Seq<char>)> {
    match first_capture(key_patterns(), line) {
        Some(groups) => Some(
            (byte_len(group_text(groups, 1)), group_text(groups, 2), group_text(groups, 3)),
        ),
        None => None,
    }
}

/// The key that a line carries: the width in bytes of the whitespace before
/// it, and the key without its quotes.
pub open spec fn key_of(line: Seq<char>) -> Option<(usize, Seq<char>)> {
    match key_line(line) {
        Some((indent, name, _)) => Some((indent, name)),
        None => None,
    }
}

/// What stands on a key line after the key and its sign: the value and what
/// follows it.
pub open spec fn rest_of(line: Seq<char>) -> Seq<char> {
    match key_line(line) {
        Some((_, _, rest)) => rest,
        None => Seq::empty(),
    }
}

/// Where a scan stands: the index of the path segment it looks for next, and
/// for each container it has entered, innermost last, the indentation of its
/// key and whether the container is on the path.
pub struct Place {
    pub segment: int,
    pub opened: Seq<(usize, bool)>,
}

/// The place before the first line.
pub open spec fn start() -> Place {
    Place { segment: 0, opened: Seq::empty() }
}

/// The place after the innermost container was left. Leaving a container on
/// the path takes the scan back by one segment.
pub open spec fn left_once(place: Place) -> Place {
    Place {
        segment: if place.opened.last().1 && place.segment > 0 {
            place.segment - 1
        } else {
            place.segment
        },
        opened: place.opened.drop_last(),
    }
}

/// Leaves every container whose key is indented at least as deep as `indent`.
pub open spec fn leave(place: Place, indent: usize) -> Place
    decreases place.opened.len(),
{
    if place.opened.len() > 0 && indent <= place.opened.last().0 {
        leave(left_once(place), indent)
    } else {
        place
    }
}

/// Whether every container entered is on the path.
pub open spec fn all_on_path(opened: Seq<(usize, bool)>) -> bool
    decreases opened.len(),
{
    opened.len() == 0 || (opened.last().1 && all_on_path(opened.drop_last()))
}

/// Whether a key line opens a container: a brace stands right after the key
/// or at the front of the value.
pub open spec fn opens_container(line: Seq<char>, rest: Seq<char>) -> bool {
    let head = before(line, rest);
    let end = head.len() - trailing_spaces(head);
    (0 < end <= head.len() && head[end - 1] == '{') || (rest.len() > 0 && rest[0] == '{')
}

/// One content line seen from `place`: the place afterwards, and whether the
/// line is the one that the path names.
///
/// `indent` is the width of the line's leading whitespace, `key` what its key
/// pattern found, and `opens` whether the line opens a container. A line
/// without a key, or one on which the two widths differ, only leaves
/// containers. A key line counts if every container open around it is on the
/// path and its key is the segment looked for: the last segment makes it the
/// target, any other enters a container on the path. A key line that does
/// not count and opens a container enters one that is not on the path.
pub open spec fn visit(
    place: Place,
    indent: usize,
    key: Option<(usize, Seq<char>)>,
    opens: bool,
    path: Seq<Seq<char>>,
) -> (Place, bool) {
    let at = leave(place, indent);
    match key {
        Some((key_indent, name)) => if key_indent == indent {
            if all_on_path(at.opened) && at.segment < path.len() && name == path[at.segment] {
                if at.segment == path.len() - 1 {
                    (at, true)
                } else {
                    (
                        Place {
                            segment: at.segment + 1,
                            opened: at.opened.push((key_indent, true)),
                        },
                        false,
                    )
                }
            } else if opens {
                (Place { segment: at.segment, opened: at.opened.push((key_indent, false)) }, false)
            } else {
                (at, false)
            }
        } else {
            (at, false)
        },
        None => (at, false),
    }
}

/// The place after the first `upto` lines, and the index of the target line
/// if it is among them. Nothing moves once the target is found.
pub open spec fn scan(lines: Seq<Seq<char>>, path: Seq<Seq<char>>, upto: int) -> (
    Place,
    Option<int>,
)
    decreases upto,
{
    if upto <= 0 {
        (start(), None)
    } else {
        let (place, found) = scan(lines, path, upto - 1);
        let line = lines[upto - 1];
        if found is Some || is_skipped(line) {
            (place, found)
        } else {
            let (next, hit) = visit(
                place,
                byte_len(indentation(line)),
                key_of(line),
                opens_container(line, rest_of(line)),
                path,
            );
            (
                next,
                if hit {
                    Some(upto - 1)
                } else {
                    None
                },
            )
        }
    }
}

/// Whether the scan of the first `upto` lines comes, before it finds the
/// target, to a line at which a key pattern does not compile before one
/// matches.
pub open spec fn breaks(lines: Seq<Seq<char>>, path: Seq<Seq<char>>, upto: int) -> bool
    decreases upto,
{
    if upto <= 0 {
        false
    } else {
        let line = lines[upto - 1];
        breaks(lines, path, upto - 1) || (scan(lines, path, upto - 1).1 is None && !is_skipped(
            line,
        ) && first_failure(key_patterns(), line))
    }
}

/// Whether an edit fails: the scan comes to a key pattern that does not
/// compile.
pub open spec fn fails(lines: Seq<Seq<char>>, path: Seq<Seq<char>>) -> bool {
    breaks(lines, path, lines.len() as int)
}

/// The line that the path names and the index of the path's last segment, or
/// `None` when the path names no line.
pub open spec fn target(lines: Seq<Seq<char>>, path: Seq<Seq<char>>) -> Option<(int, int)> {
    let (place, found) = scan(lines, path, lines.len() as int);
    match found {
        Some(index) => Some((index, place.segment)),
        None => None,
    }
}

/// The scan's position while it runs.
pub struct Cursor {
    pub segment: usize,
    pub opened: Vec<(usize, bool)>,
}

impl View for Cursor {
    type V = Place;

    open spec fn view(&self) -> Place {
        Place { segment: self.segment as int, opened: self.opened@ }
    }
}

impl Cursor {
    /// A cursor before the first line.
    pub fn new() -> (cursor: Cursor)
        ensures
            cursor@ == start(),
    {
        Cursor { segment: 0, opened: Vec::new() }
    }

    /// Whether every container entered is on the path.
    pub fn is_on_path(&self) -> (r: bool)
        ensures
            r == all_on_path(self.opened@),
    {
        let mut i: usize = self.opened.len();
        assert(self.opened@.take(i as int) == self.opened@);
        while i > 0
            invariant
                i <= self.opened.len(),
                all_on_path(self.opened@) == all_on_path(self.opened@.take(i as int)),
            decreases i,
        {
            let ghost now = self.opened@.take(i as int);
            assert(now.last() == self.opened@[i - 1]);
            assert(now.drop_last() == self.opened@.take(i - 1));
            if !self.opened[i - 1].1 {
                return false;
            }
            i -= 1;
        }
        assert(self.opened@.take(0).len() == 0);
        true
    }

    /// Moves the cursor over one content line and says whether that line is
    /// the target.
    pub fn visit(
        &mut self,
        indent: usize,
        key: &Option<(usize, String)>,
        opens: bool,
        path: &Vec<String>,
    ) -> (hit: bool)
        ensures
            (final(self)@, hit) == visit(
                old(self)@,
                indent,
                key.deep_view(),
                opens,
                path.deep_view(),
            ),
            old(self).segment <= path.len() ==> final(self).segment <= path.len(),
            hit ==> final(self).segment < path.len(),
    {
        while self.opened.len() > 0 && indent <= self.opened[self.opened.len() - 1].0
            invariant
                old(self).segment <= path.len() ==> self.segment <= path.len(),
                leave(self@, indent) == leave(old(self)@, indent),
            decreases self.opened.len(),
        {
            let top = self.opened.pop().unwrap();
            if top.1 && self.segment > 0 {
                self.segment -= 1;
            }
        }
        match key {
            Some((key_indent, name)) => {
                if *key_indent != indent {
                    return false;
                }
                if self.is_on_path() && self.segment < path.len() && *name
                    == path[self.segment] {
                    if self.segment == path.len() - 1 {
                        true
                    } else {
                        self.segment += 1;
                        self.opened.push((*key_indent, true));
                        false
                    }
                } else {
                    if opens {
                        self.opened.push((*key_indent, false));
                    }
                    false
                }
            },
            None => false,
        }
    }
}

/// Whether a key line opens a container.
pub fn opens(line: &str, rest: &str) -> (r: bool)
    ensures
        r == opens_container(line@, rest@),
{
    let all = chars_of(line);
    let tail = chars_of(rest);
    if tail.len() > 0 && tail[0] == '{' {
        return true;
    }
    if tail.len() > all.len() {
        return false;
    }
    let head = text_between(&all, 0, all.len() - tail.len());
    let front = chars_of(head.as_str());
    let end = front.len() - count_trailing_whitespace(&front);
    end > 0 && front[end - 1] == '{'
}

/// Whether `line` is blank or holds nothing but a comment.
pub fn skips(line: &str) -> (r: bool)
    ensures
        r == is_skipped(line@),
{
    let t = trim(line);
    t.as_str().is_empty() || starts_with(t.as_str(), "#") || starts_with(t.as_str(), "//")
}

/// What ends a value in HOCON.
pub fn value_syntax() -> (s: Syntax)
    ensures
        s == syntax(),
{
    Syntax {
        hash: true,
        slashes: true,
        single: false,
        comma: true,
        front_only: false,
        spaced: false,
    }
}

/// What `line` holds if it has the shape of a key line. The search fails
/// exactly when it comes to a pattern that does not compile before one
/// matches.
pub fn find_key(line: &str) -> (r: Result<Option<(usize, String, String)>, UpdateError>)
    ensures
        r matches Ok(key) ==> key.deep_view() == key_line(line@),
        r matches Err(error) ==> error is Pattern,
        r is Err <==> first_failure(key_patterns(), line@),
{
    let patterns: Vec<&str> = vec![
        KEY_EQUALS,
        KEY_COLON,
        QUOTED_KEY_EQUALS,
        QUOTED_KEY_COLON,
        KEY_BRACE,
        QUOTED_KEY_BRACE,
    ];
    assert(patterns.deep_view() == key_patterns());
    match capture_first(&patterns, line) {
        Ok(Some(groups)) => {
            let lead = group_or_empty(&groups, 1);
            let name = group_or_empty(&groups, 2);
            let rest = group_or_empty(&groups, 3);
            Ok(Some((lead.as_str().len(), name, rest)))
        },
        Ok(None) => Ok(None),
        Err(error) => Err(UpdateError::Pattern(error)),
    }
}

/// Once the target is found, reading further lines changes nothing; and once
/// the scan has broken, it stays broken.
pub proof fn lemma_scan_settled(lines: Seq<Seq<char>>, path: Seq<Seq<char>>, at: int, upto: int)
    requires
        0 <= at <= upto,
    ensures
        scan(lines, path, at).1 is Some ==> scan(lines, path, upto) == scan(lines, path, at)
            && breaks(lines, path, upto) == breaks(lines, path, at),
        breaks(lines, path, at) ==> breaks(lines, path, upto),
    decreases upto - at,
{
    if at < upto {
        lemma_scan_settled(lines, path, at, upto - 1);
    }
}

/// Finds the line that `path` names: its index, the index of the path's last
/// segment, and what stands on the line after the key and its sign.
pub fn find_target(lines: &Vec<String>, path: &Vec<String>) -> (r: Result<
    Option<(usize, usize, String)>,
    UpdateError,
>)
    ensures
        r matches Ok(found) ==> match found {
            Some((index, segment, rest)) => target(lines.deep_view(), path.deep_view()) == Some(
                (index as int, segment as int),
            ) && index < lines.len() && segment < path.len() && rest@ == rest_of(
                lines[index as int]@,
            ),
            None => target(lines.deep_view(), path.deep_view()) is None,
        },
        r matches Err(error) ==> error is Pattern,
        r is Err <==> fails(lines.deep_view(), path.deep_view()),
{
    let mut cursor = Cursor::new();
    let mut i: usize = 0;
    while i < lines.len()
        invariant
            i <= lines.len(),
            cursor.segment <= path.len(),
            scan(lines.deep_view(), path.deep_view(), i as int) == (cursor@, None::<int>),
            !breaks(lines.deep_view(), path.deep_view(), i as int),
        decreases lines.len() - i,
    {
        let line = lines[i].as_str();
        assert(lines.deep_view()[i as int] == line@);
        if !skips(line) {
            let found = match find_key(line) {
                Ok(found) => found,
                Err(error) => {
                    proof {
                        lemma_scan_settled(
                            lines.deep_view(),
                            path.deep_view(),
                            i + 1,
                            lines.len() as int,
                        );
                    }
                    return Err(error);
                },
            };
            let (key, rest) = match found {
                Some((indent, name, rest)) => (Some((indent, name)), rest),
                None => (None, String::new()),
            };
            let indent = indentation_bytes(line);
            let enters = opens(line, rest.as_str());
            if cursor.visit(indent, &key, enters, path) {
                proof {
                    lemma_scan_settled(
                        lines.deep_view(),
                        path.deep_view(),
                        i + 1,
                        lines.len() as int,
                    );
                }
                return Ok(Some((i, cursor.segment, rest)));
            }
        }
        i += 1;
    }
    Ok(None)
}

/// The literal that stands for `value`. A value in double quotes, a number,
/// a boolean or `null` stays bare, the latter two in small letters; anything
/// else is a string and gets double quotes.
pub open spec fn literal_of(value: Seq<char>) -> Seq<char> {
    if value.len() > 0 && value.first() == '"' && value.last() == '"' {
        value
    } else if is_float_literal(value) {
        value
    } else if same_ignoring_case(value, "true"@) {
        "true"@
    } else if same_ignoring_case(value, "false"@) {
        "false"@
    } else if same_ignoring_case(value, "null"@) {
        "null"@
    } else {
        "\""@ + value + "\""@
    }
}

/// The target line with its value replaced by the literal for `value`: what
/// stands before the value and what follows it, comma, whitespace and
/// comment, stay as they are.
pub open spec fn rewritten(line: Seq<char>, value: Seq<char>) -> Seq<char> {
    replaced(line, rest_of(line), literal_of(value), syntax())
}

/// The lines after the edit: the value on the target line replaced, or no
/// change when the path names no line.
pub open spec fn updated_lines(
    lines: Seq<Seq<char>>,
    path: Seq<Seq<char>>,
    value: Seq<char>,
) -> Seq<Seq<char>> {
    match target(lines, path) {
        Some((index, _)) => lines.update(index, rewritten(lines[index], value)),
        None => lines,
    }
}

/// The literal that stands for `value` in a HOCON file.
pub fn format_hocon_value(value: &str) -> (r: String)
    ensures
        r@ == literal_of(value@),
{
    let chars = chars_of(value);
    let n = chars.len();
    if n > 0 && chars[0] == '"' && chars[n - 1] == '"' {
        return value.to_string();
    }
    if is_float(value) {
        return value.to_string();
    }
    if equals_ignoring_case(&chars, &chars_of("true")) {
        return "true".to_string();
    }
    if equals_ignoring_case(&chars, &chars_of("false")) {
        return "false".to_string();
    }
    if equals_ignoring_case(&chars, &chars_of("null")) {
        return "null".to_string();
    }
    let mut out = "\"".to_string();
    out.append(value);
    out.append("\"");
    out
}

/// Replaces the value on the line that `path` names and returns the lines.
/// The edit fails exactly when the scan comes to a key pattern that does not
/// compile.
pub fn update_lines(lines: Vec<String>, path: &Vec<String>, value: &str) -> (r: Result<
    Vec<String>,
    UpdateError,
>)
    ensures
        r matches Ok(out) ==> out.deep_view() == updated_lines(
            lines.deep_view(),
            path.deep_view(),
            value@,
        ),
        r matches Err(error) ==> error is Pattern,
        r is Err <==> fails(lines.deep_view(), path.deep_view()),
{
    let found = match find_target(&lines, path) {
        Ok(found) => found,
        Err(error) => {
            return Err(error);
        },
    };
    match found {
        Some((index, _, rest)) => {
            let literal = format_hocon_value(value);
            let line = replace_value(
                lines[index].as_str(),
                rest.as_str(),
                literal.as_str(),
                value_syntax(),
            );
            let mut out = lines;
            let ghost before = out.deep_view();
            let ghost text = line@;
            out[index] = line;
            assert(out.deep_view() == before.update(index as int, text));
            Ok(out)
        },
        None => Ok(lines),
    }
}

/// The segments of the rest of a path, given the segments already closed,
/// the segment being read and whether the reader is inside double quotes.
///
/// A double quote switches quoting on or off and is not part of the segment.
/// A dot outside quotes closes the segment, unless it is empty. A backslash
/// inside quotes takes the next character as it is.
pub open spec fn segments_from(
    rest: Seq<char>,
    closed: Seq<Seq<char>>,
    current: Seq<char>,
    quoted: bool,
) -> Seq<Seq<char>>
    decreases rest.len(),
{
    if rest.len() == 0 {
        if current.len() > 0 {
            closed.push(current)
        } else {
            closed
        }
    } else if rest[0] == '"' {
        segments_from(rest.skip(1), closed, current, !quoted)
    } else if rest[0] == '.' && !quoted {
        if current.len() > 0 {
            segments_from(rest.skip(1), closed.push(current), Seq::empty(), quoted)
        } else {
            segments_from(rest.skip(1), closed, current, quoted)
        }
    } else if rest[0] == '\\' && quoted {
        if rest.len() > 1 {
            segments_from(rest.skip(2), closed, current.push(rest[1]), quoted)
        } else {
            segments_from(rest.skip(1), closed, current, quoted)
        }
    } else {
        segments_from(rest.skip(1), closed, current.push(rest[0]), quoted)
    }
}

/// The segments of a path in which a segment may stand in double quotes.
pub open spec fn segments_of(path: Seq<char>) -> Seq<Seq<char>> {
    segments_from(path, Seq::empty(), Seq::empty(), false)
}

/// Splits a path at the dots that stand outside double quotes.
pub fn parse_hocon_path(path: &str) -> (parts: Vec<String>)
    ensures
        parts.deep_view() == segments_of(path@),
{
    let chars = chars_of(path);
    let n = chars.len();
    let mut parts: Vec<String> = Vec::new();
    let mut current = String::new();
    let mut quoted = false;
    let mut i: usize = 0;
    assert(path@.skip(0) == path@);
    assert(parts.deep_view() == Seq::<Seq<char>>::empty());
    while i < n
        invariant
            chars@ == path@,
            n == chars.len(),
            i <= n,
            segments_of(path@) == segments_from(
                path@.skip(i as int),
                parts.deep_view(),
                current@,
                quoted,
            ),
        decreases n - i,
    {
        let c = chars[i];
        let ghost rest = path@.skip(i as int);
        assert(rest[0] == c);
        assert(rest.skip(1) == path@.skip(i + 1));
        if c == '"' {
            quoted = !quoted;
            i += 1;
        } else if c == '.' && !quoted {
            if !current.as_str().is_empty() {
                let ghost before = parts.deep_view();
                let ghost text = current@;
                parts.push(current);
                assert(parts.deep_view() == before.push(text));
                current = String::new();
            }
            i += 1;
        } else if c == '\\' && quoted {
            if i + 1 < n {
                assert(rest[1] == chars@[i + 1]);
                assert(rest.skip(2) == path@.skip(i + 2));
                current.push(chars[i + 1]);
                i += 2;
            } else {
                i += 1;
            }
        } else {
            current.push(c);
            i += 1;
        }
    }
    if !current.as_str().is_empty() {
        let ghost before = parts.deep_view();
        let ghost text = current@;
        parts.push(current);
        assert(parts.deep_view() == before.push(text));
    }
    parts
}

/// The text after the edit: the lines joined with single line feeds, and
/// after them the line feeds that stood at the end of the text.
pub open spec fn updated_text(content: Seq<char>, node_path: Seq<char>, value: Seq<char>) -> Seq<
    char,
> {
    with_tail(updated_lines(main_lines(content), segments_of(node_path), value), content)
}

/// Whether the edit of a text fails.
pub open spec fn text_fails(content: Seq<char>, node_path: Seq<char>) -> bool {
    fails(main_lines(content), segments_of(node_path))
}

/// Replaces the value that `node_path` names in the HOCON text `content`
/// and returns the new text. The edit fails exactly when the scan comes to a
/// key pattern that does not compile.
pub fn update_hocon_node(content: &str, node_path: &str, new_value: &str) -> (r: Result<
    String,
    UpdateError,
>)
    ensures
        r matches Ok(text) ==> text@ == updated_text(content@, node_path@, new_value@),
        r matches Err(error) ==> error is Pattern,
        r is Err <==> text_fails(content@, node_path@),
{
    let (lines, tail) = cut_text(content);
    let path = parse_hocon_path(node_path);
    match update_lines(lines, &path, new_value) {
        Ok(out) => Ok(join_text(&out, tail.as_str())),
        Err(error) => Err(error),
    }
}

/// Where the six key patterns compile, no edit fails.
pub proof fn edit_succeeds_where_patterns_compile(lines: Seq<Seq<char>>, path: Seq<Seq<char>>)
    requires
        forall|i: int| 0 <= i < key_patterns().len() ==> regex_compiles(#[trigger] key_patterns()[i]),
    ensures
        !fails(lines, path),
{
    lemma_never_breaks(lines, path, lines.len() as int);
}

/// Patterns that all compile are tried without a failure.
pub proof fn lemma_no_failure(patterns: Seq<Seq<char>>, haystack: Seq<char>)
    requires
        forall|i: int| 0 <= i < patterns.len() ==> regex_compiles(#[trigger] patterns[i]),
    ensures
        !first_failure(patterns, haystack),
    decreases patterns.len(),
{
    if patterns.len() > 0 {
        assert(regex_compiles(patterns[0]));
        let rest = patterns.drop_first();
        assert forall|i: int| 0 <= i < rest.len() implies regex_compiles(#[trigger] rest[i]) by {
            assert(rest[i] == patterns[i + 1]);
        }
        lemma_no_failure(rest, haystack);
    }
}

/// Where the key patterns compile, the scan never breaks.
pub proof fn lemma_never_breaks(lines: Seq<Seq<char>>, path: Seq<Seq<char>>, upto: int)
    requires
        forall|i: int| 0 <= i < key_patterns().len() ==> regex_compiles(#[trigger] key_patterns()[i]),
    ensures
        !breaks(lines, path, upto),
    decreases upto,
{
    if upto > 0 {
        lemma_never_breaks(lines, path, upto - 1);
        lemma_no_failure(key_patterns(), lines[upto - 1]);
    }
}

/// A target lies among the lines read, and its segment is the path's last.
pub proof fn lemma_scan_in_range(lines: Seq<Seq<char>>, path: Seq<Seq<char>>, upto: int)
    ensures
        scan(lines, path, upto).0.segment >= 0,
        scan(lines, path, upto).1 matches Some(index) ==> 0 <= index < upto && scan(
            lines,
            path,
            upto,
        ).0.segment == path.len() - 1,
    decreases upto,
{
    if upto > 0 {
        lemma_scan_in_range(lines, path, upto - 1);
        let (place, found) = scan(lines, path, upto - 1);
        let line = lines[upto - 1];
        lemma_leave_in_range(place, byte_len(indentation(line)));
    }
}

/// Leaving containers never takes the segment below the first.
pub proof fn lemma_leave_in_range(place: Place, indent: usize)
    requires
        place.segment >= 0,
    ensures
        leave(place, indent).segment >= 0,
    decreases place.opened.len(),
{
    if place.opened.len() > 0 && indent <= place.opened.last().0 {
        lemma_leave_in_range(left_once(place), indent);
    }
}

/// An edit keeps the number of lines.
pub proof fn line_count_is_kept(lines: Seq<Seq<char>>, path: Seq<Seq<char>>, value: Seq<char>)
    ensures
        updated_lines(lines, path, value).len() == lines.len(),
{
    lemma_scan_in_range(lines, path, lines.len() as int);
}

/// An edit changes no line but the target.
pub proof fn other_lines_are_kept(
    lines: Seq<Seq<char>>,
    path: Seq<Seq<char>>,
    value: Seq<char>,
    index: int,
)
    requires
        0 <= index < lines.len(),
        !(target(lines, path) matches Some(found) && found.0 == index),
    ensures
        updated_lines(lines, path, value)[index] == lines[index],
{
    lemma_scan_in_range(lines, path, lines.len() as int);
}

/// A path that names no line leaves the lines as they are.
pub proof fn missing_path_changes_nothing(
    lines: Seq<Seq<char>>,
    path: Seq<Seq<char>>,
    value: Seq<char>,
)
    requires
        target(lines, path) is None,
    ensures
        updated_lines(lines, path, value) == lines,
{
}

/// The target line starts, after the edit, as it did before, and ends with
/// what followed its value: the comma, the whitespace and the comment.
pub proof fn comment_is_kept(lines: Seq<Seq<char>>, path: Seq<Seq<char>>, value: Seq<char>)
    requires
        target(lines, path) is Some,
    ensures
        ({
            let index = target(lines, path).unwrap().0;
            let rest = rest_of(lines[index]);
            let after = updated_lines(lines, path, value)[index];
            kept_front(lines[index], rest, syntax()).is_prefix_of(after) && after_value(
                rest,
                syntax(),
            ).is_suffix_of(after)
        }),
{
    lemma_scan_in_range(lines, path, lines.len() as int);
    let index = target(lines, path).unwrap().0;
    lemma_replaced_keeps_the_rest(lines[index], rest_of(lines[index]), literal_of(value), syntax());
}

/// Whether the line that an edit wrote is read back as the line before it
/// was: it is found again as the target, and writing the value into it once
/// more leaves it as it is.
pub open spec fn reads_back(lines: Seq<Seq<char>>, path: Seq<Seq<char>>, value: Seq<char>) -> bool {
    let once = updated_lines(lines, path, value);
    target(lines, path) matches Some(found) ==> {
        &&& target(once, path) == target(lines, path)
        &&& rewritten(once[found.0], value) == once[found.0]
    }
}

/// Editing twice with the same value gives what editing once gives, as long
/// as the rewritten line is read back as the line before it was.
pub proof fn edit_is_idempotent(lines: Seq<Seq<char>>, path: Seq<Seq<char>>, value: Seq<char>)
    requires
        reads_back(lines, path, value),
    ensures
        updated_lines(updated_lines(lines, path, value), path, value) == updated_lines(
            lines,
            path,
            value,
        ),
{
    lemma_scan_in_range(lines, path, lines.len() as int);
    let once = updated_lines(lines, path, value);
    if target(lines, path) is Some {
        assert(updated_lines(once, path, value) =~= once);
    }
}

/// The literal for a value that fits on one line fits on one line.
pub proof fn lemma_literal_is_one_line(value: Seq<char>)
    requires
        is_one_line(value),
    ensures
        is_one_line(literal_of(value)),
{
    reveal_strlit("true");
    reveal_strlit("false");
    reveal_strlit("null");
    reveal_strlit("\"");
    assert(is_one_line("\""@));
    lemma_concat_is_free_of("\""@, value, '\n');
    lemma_concat_is_free_of("\""@, value, '\r');
    lemma_concat_is_free_of("\""@ + value, "\""@, '\n');
    lemma_concat_is_free_of("\""@ + value, "\""@, '\r');
}

/// The literal for a value is never empty.
pub proof fn lemma_literal_is_not_empty(value: Seq<char>)
    ensures
        literal_of(value).len() > 0,
{
    reveal_strlit("true");
    reveal_strlit("false");
    reveal_strlit("null");
    reveal_strlit("\"");
    reveal_strlit("inf");
    reveal_strlit("infinity");
    reveal_strlit("nan");
    if value.len() == 0 {
        assert(crate::number::unsigned(value) == value);
        assert(!is_float_literal(value));
    }
}

/// The lines of the text after an edit are the lines of the text before it
/// with the edit made in them, and as many line feeds stand at its end. This
/// holds for a text without carriage returns and a value that fits on one
/// line.
pub proof fn text_follows_lines(content: Seq<char>, node_path: Seq<char>, value: Seq<char>)
    requires
        is_free_of(content, '\r'),
        is_one_line(value),
    ensures
        main_lines(updated_text(content, node_path, value)) == updated_lines(
            main_lines(content),
            segments_of(node_path),
            value,
        ),
        lines_of(updated_text(content, node_path, value)).len() == lines_of(content).len(),
        is_free_of(updated_text(content, node_path, value), '\r'),
        with_tail(
            updated_lines(main_lines(content), segments_of(node_path), value),
            updated_text(content, node_path, value),
        ) == updated_text(content, node_path, value),
{
    let lines = main_lines(content);
    let path = segments_of(node_path);
    lemma_main_lines(content);
    lemma_scan_in_range(lines, path, lines.len() as int);
    let after = updated_lines(lines, path, value);
    match target(lines, path) {
        Some((at, _)) => {
            let line = lines[at];
            let rest = rest_of(line);
            if first_capture(key_patterns(), line) is Some {
                lemma_first_group_is_part(key_patterns(), line, 3);
                lemma_part_is_free_of(rest, line, '\n');
                lemma_part_is_free_of(rest, line, '\r');
            }
            lemma_literal_is_one_line(value);
            lemma_literal_is_not_empty(value);
            lemma_replaced_is_one_line(line, rest, literal_of(value), syntax());
            assert forall|i: int| 0 <= i < after.len() implies is_one_line(
                #[trigger] after[i],
            ) by {
                if i != at {
                    assert(after[i] == lines[i]);
                }
            }
        },
        None => {},
    }
    lemma_rejoined(after, content);
    lemma_line_count_with_tail(after, content);
}

/// A path that names no line gives back the text as it was, for a text
/// without carriage returns.
pub proof fn missing_path_returns_the_text(
    content: Seq<char>,
    node_path: Seq<char>,
    value: Seq<char>,
)
    requires
        is_free_of(content, '\r'),
        target(main_lines(content), segments_of(node_path)) is None,
    ensures
        updated_text(content, node_path, value) == content,
{
    lemma_main_lines(content);
}

/// Editing the text twice with the same value gives what editing it once
/// gives, as long as the rewritten line is read back as the line before it
/// was. This holds for a text without carriage returns and a value that fits
/// on one line.
pub proof fn edit_of_text_is_idempotent(
    content: Seq<char>,
    node_path: Seq<char>,
    value: Seq<char>,
)
    requires
        is_free_of(content, '\r'),
        is_one_line(value),
        reads_back(main_lines(content), segments_of(node_path), value),
    ensures
        updated_text(updated_text(content, node_path, value), node_path, value) == updated_text(
            content,
            node_path,
            value,
        ),
{
    text_follows_lines(content, node_path, value);
    edit_is_idempotent(main_lines(content), segments_of(node_path), value);
}

/// The literal for a value without line feeds holds none.
pub proof fn lemma_literal_has_no_line_feed(value: Seq<char>)
    requires
        is_free_of(value, '\n'),
    ensures
        is_free_of(literal_of(value), '\n'),
{
    reveal_strlit("true");
    reveal_strlit("false");
    reveal_strlit("null");
    reveal_strlit("\"");
    assert(is_free_of("\""@, '\n'));
    lemma_concat_is_free_of("\""@, value, '\n');
    lemma_concat_is_free_of("\""@ + value, "\""@, '\n');
}

/// An edit keeps the number of lines of any text, and the number of line
/// feeds at its end, for a value without line feeds.
pub proof fn line_count_of_text_is_kept(
    content: Seq<char>,
    node_path: Seq<char>,
    value: Seq<char>,
)
    requires
        is_free_of(value, '\n'),
    ensures
        lines_of(updated_text(content, node_path, value)).len() == lines_of(content).len(),
        tail_feeds(updated_text(content, node_path, value)) == tail_feeds(content),
{
    let lines = main_lines(content);
    let path = segments_of(node_path);
    lemma_main_lines_of_any_text(content);
    lemma_scan_in_range(lines, path, lines.len() as int);
    let after = updated_lines(lines, path, value);
    match target(lines, path) {
        Some((at, _)) => {
            let line = lines[at];
            let rest = rest_of(line);
            if first_capture(key_patterns(), line) is Some {
                lemma_first_group_is_part(key_patterns(), line, 3);
                lemma_part_is_free_of(rest, line, '\n');
            }
            lemma_literal_has_no_line_feed(value);
            lemma_literal_is_not_empty(value);
            lemma_replaced_is_free_of(line, rest, literal_of(value), syntax(), '\n');
            lemma_replaced_keeps_the_rest(line, rest, literal_of(value), syntax());
            assert forall|i: int| 0 <= i < after.len() implies is_free_of(
                #[trigger] after[i],
                '\n',
            ) by {
                if i != at {
                    assert(after[i] == lines[i]);
                }
            }
        },
        None => {},
    }
    lemma_line_count_of_any_text(after, content);
}

} // verus!
