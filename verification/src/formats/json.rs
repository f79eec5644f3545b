//! JSON with `//` comments: a quoted key is found at or beyond the
//! indentation that its depth in the path calls for. On the target line the
//! value is replaced; what stands before and after it stays.

use crate::error::UpdateError;
use crate::formats::indent::{advance, detect_indent, indent_unit, is_skipped, skips, step};
use crate::formats::region::{
    after_value, kept_front, lemma_replaced_is_free_of, lemma_replaced_is_one_line,
    lemma_replaced_keeps_the_rest, replace_value, replaced, Syntax,
};
use crate::pattern::{
    captured, captures, escaped, group_or_empty, group_text, lemma_group_is_part,
    lemma_part_is_free_of, regex_compiles,
};
use crate::text::{
    blanks, chars_of, cut_text, is_free_of, is_one_line, join_text, lemma_line_count_of_any_text,
    lemma_line_count_with_tail, lemma_main_lines, lemma_main_lines_of_any_text, lemma_rejoined,
    lines_of, main_lines, spaces, split, split_on, tail_feeds, with_tail,
};
use vstd::prelude::*;
use vstd::string::*;

verus! {

/// What stands between the indentation and the key: whitespace and a quote.
pub const BEFORE_KEY: &'static str = r#"\s*""#;

/// What follows the key: a quote, a colon, and the value with what follows
/// it.
pub const AFTER_KEY: &'static str = r#""\s*:\s*(.*)$"#;

/// What a comment line starts with.
pub const COMMENT_MARKER: &'static str = "//";

/// What ends a value: a comma or `//` outside double quotes.
pub open spec fn syntax() -> Syntax {
    Syntax {
        hash: false,
        slashes: true,
        single: false,
        comma: true,
        front_only: false,
        spaced: false,
    }
}

/// The shape of a line that carries `key` at `depth` or more spaces of
/// indentation.
pub open spec fn key_pattern(depth: nat, key: Seq<char>) -> Seq<char> {
    "^"@ + escaped(blanks(depth)) + BEFORE_KEY@ + escaped(key) + AFTER_KEY@
}

/// Whether `line` is searched for a key at `depth` spaces of indentation: a
/// line with fewer characters than `depth` cannot carry one and is not.
pub open spec fn is_searched(line: Seq<char>, depth: int) -> bool {
    0 <= depth <= line.len()
}

/// What stands on `line` after `key`, the colon and the whitespace, if the
/// line carries the key at `depth` or more spaces of indentation. It is
/// shorter than the line.
pub open spec fn key_at(line: Seq<char>, depth: int, key: Seq<char>) -> Option<Seq<char>> {
    if is_searched(line, depth) {
        match captured(key_pattern(depth as nat, key), line) {
            Some(groups) => if group_text(groups, 1).len() < line.len() {
                Some(group_text(groups, 1))
            } else {
                None
            },
            None => None,
        }
    } else {
        None
    }
}

/// The segment looked for after the first `upto` lines, and the index of the
/// target line if it is among them. A segment at index `k` is looked for at
/// `k * unit` spaces of indentation.
pub open spec fn scan(lines: Seq<Seq<char>>, path: Seq<Seq<char>>, unit: int, upto: int) -> (
    int,
    Option<int>,
)
    decreases upto,
{
    if upto <= 0 {
        (0, None)
    } else {
        let (segment, found) = scan(lines, path, unit, upto - 1);
        let line = lines[upto - 1];
        if found is Some || is_skipped(line, COMMENT_MARKER@) {
            (segment, found)
        } else {
            let matched = segment < path.len() && key_at(line, segment * unit, path[segment])
                is Some;
            let (next, hit) = advance(segment, matched, path.len() as int);
            (
                next,
                if hit {
                    Some(upto - 1)
                } else {
                    None
                },
            )
        }
    }
}

/// Whether the scan of the first `upto` lines comes, before it finds the
/// target, to a line whose key pattern does not compile.
pub open spec fn breaks(lines: Seq<Seq<char>>, path: Seq<Seq<char>>, unit: int, upto: int) -> bool
    decreases upto,
{
    if upto <= 0 {
        false
    } else {
        let (segment, found) = scan(lines, path, unit, upto - 1);
        let line = lines[upto - 1];
        breaks(lines, path, unit, upto - 1) || (found is None && !is_skipped(
            line,
            COMMENT_MARKER@,
        ) && segment < path.len() && is_searched(line, segment * unit) && !regex_compiles(
            key_pattern((segment * unit) as nat, path[segment]),
        ))
    }
}

/// Whether an edit fails: the scan comes to a key pattern that does not
/// compile.
pub open spec fn fails(lines: Seq<Seq<char>>, path: Seq<Seq<char>>) -> bool {
    breaks(lines, path, indent_unit(lines, COMMENT_MARKER@), lines.len() as int)
}

/// The line that the path names and the index of the path's last segment.
pub open spec fn target(lines: Seq<Seq<char>>, path: Seq<Seq<char>>) -> Option<(int, int)> {
    let (segment, found) = scan(
        lines,
        path,
        indent_unit(lines, COMMENT_MARKER@),
        lines.len() as int,
    );
    match found {
        Some(index) => Some((index, segment)),
        None => None,
    }
}

/// What stands on `line` after `key` at `depth`, the colon and the
/// whitespace: the value and what follows it.
pub open spec fn rest_at(line: Seq<char>, depth: int, key: Seq<char>) -> Seq<char> {
    match key_at(line, depth, key) {
        Some(rest) => rest,
        None => Seq::empty(),
    }
}

/// The target line with its value replaced: what stands before the value and
/// what follows it, comma, whitespace and comment, stay as they are.
pub open spec fn rewritten(line: Seq<char>, depth: int, key: Seq<char>, value: Seq<char>) -> Seq<
    char,
> {
    replaced(line, rest_at(line, depth, key), value, syntax())
}

/// The lines after the edit: the value on the target line replaced, or no
/// change when the path names no line.
pub open spec fn updated_lines(
    lines: Seq<Seq<char>>,
    path: Seq<Seq<char>>,
    value: Seq<char>,
) -> Seq<Seq<char>> {
    match target(lines, path) {
        Some((index, segment)) => lines.update(
            index,
            rewritten(
                lines[index],
                segment * indent_unit(lines, COMMENT_MARKER@),
                path[segment],
                value,
            ),
        ),
        None => lines,
    }
}

/// What ends a value in JSON.
pub fn value_syntax() -> (s: Syntax)
    ensures
        s == syntax(),
{
    Syntax {
        hash: false,
        slashes: true,
        single: false,
        comma: true,
        front_only: false,
        spaced: false,
    }
}

/// What stands on `line` after `key`, if the line carries it at the depth
/// of segment `segment`. The search fails exactly when the line is searched
/// and the pattern for that depth and key does not compile.
pub fn find_key(line: &str, segment: usize, unit: usize, key: &str) -> (r: Result<
    Option<String>,
    UpdateError,
>)
    ensures
        r matches Ok(found) ==> found.deep_view() == key_at(line@, segment * unit, key@),
        r matches Err(error) ==> error is Pattern,
        r is Err <==> is_searched(line@, segment * unit) && !regex_compiles(
            key_pattern((segment * unit) as nat, key@),
        ),
{
    let width = chars_of(line).len();
    let depth = match segment.checked_mul(unit) {
        Some(depth) => depth,
        None => {
            return Ok(None);
        },
    };
    if depth > width {
        return Ok(None);
    }
    let mut pattern = "^".to_string();
    let indent = spaces(depth);
    pattern.append(regex::escape(indent.as_str()).as_str());
    pattern.append(BEFORE_KEY);
    pattern.append(regex::escape(key).as_str());
    pattern.append(AFTER_KEY);
    match captures(pattern.as_str(), line) {
        Ok(Some(groups)) => {
            let rest = group_or_empty(&groups, 1);
            if chars_of(rest.as_str()).len() < width {
                Ok(Some(rest))
            } else {
                Ok(None)
            }
        },
        Ok(None) => Ok(None),
        Err(error) => Err(UpdateError::Pattern(error)),
    }
}

/// Once the target is found, reading further lines changes nothing; and once
/// the scan has broken, it stays broken.
pub proof fn lemma_scan_settled(
    lines: Seq<Seq<char>>,
    path: Seq<Seq<char>>,
    unit: int,
    at: int,
    upto: int,
)
    requires
        0 <= at <= upto,
    ensures
        scan(lines, path, unit, at).1 is Some ==> scan(lines, path, unit, upto) == scan(
            lines,
            path,
            unit,
            at,
        ) && breaks(lines, path, unit, upto) == breaks(lines, path, unit, at),
        breaks(lines, path, unit, at) ==> breaks(lines, path, unit, upto),
    decreases upto - at,
{
    if at < upto {
        lemma_scan_settled(lines, path, unit, at, upto - 1);
    }
}

/// Finds the line that `path` names: its index, the index of the path's last
/// segment, and what stands on the line after the key.
pub fn find_target(lines: &Vec<String>, path: &Vec<String>) -> (r: Result<
    Option<(usize, usize, String)>,
    UpdateError,
>)
    ensures
        r matches Ok(found) ==> match found {
            Some((index, segment, rest)) => target(lines.deep_view(), path.deep_view()) == Some(
                (index as int, segment as int),
            ) && index < lines.len() && segment < path.len() && rest@ == rest_at(
                lines[index as int]@,
                segment * indent_unit(lines.deep_view(), COMMENT_MARKER@),
                path[segment as int]@,
            ),
            None => target(lines.deep_view(), path.deep_view()) is None,
        },
        r matches Err(error) ==> error is Pattern,
        r is Err <==> fails(lines.deep_view(), path.deep_view()),
{
    let unit = detect_indent(lines, COMMENT_MARKER);
    let mut segment: usize = 0;
    let mut i: usize = 0;
    while i < lines.len()
        invariant
            i <= lines.len(),
            segment <= path.len(),
            unit == indent_unit(lines.deep_view(), COMMENT_MARKER@),
            scan(lines.deep_view(), path.deep_view(), unit as int, i as int) == (
                segment as int,
                None::<int>,
            ),
            !breaks(lines.deep_view(), path.deep_view(), unit as int, i as int),
        decreases lines.len() - i,
    {
        let line = lines[i].as_str();
        assert(lines.deep_view()[i as int] == line@);
        if !skips(line, COMMENT_MARKER) && segment < path.len() {
            let key = match find_key(line, segment, unit, path[segment].as_str()) {
                Ok(key) => key,
                Err(error) => {
                    proof {
                        lemma_scan_settled(
                            lines.deep_view(),
                            path.deep_view(),
                            unit as int,
                            i + 1,
                            lines.len() as int,
                        );
                    }
                    return Err(error);
                },
            };
            let (matched, rest) = match key {
                Some(rest) => (true, rest),
                None => (false, String::new()),
            };
            let (next, hit) = step(segment, matched, path.len());
            segment = next;
            if hit {
                proof {
                    lemma_scan_settled(
                        lines.deep_view(),
                        path.deep_view(),
                        unit as int,
                        i + 1,
                        lines.len() as int,
                    );
                }
                return Ok(Some((i, segment, rest)));
            }
        }
        i += 1;
    }
    Ok(None)
}

/// Replaces the value on the line that `path` names and returns the lines.
/// The edit fails exactly when the scan comes to a key pattern that does not
/// compile.
pub fn update_lines(lines: Vec<String>, path: &Vec<String>, value: &str) -> (r: Result<
    Vec<String>,
    UpdateError,
>)
    ensures
        r matches Ok(out) ==> out.deep_view() == updated_lines(
            lines.deep_view(),
            path.deep_view(),
            value@,
        ),
        r matches Err(error) ==> error is Pattern,
        r is Err <==> fails(lines.deep_view(), path.deep_view()),
{
    let found = match find_target(&lines, path) {
        Ok(found) => found,
        Err(error) => {
            return Err(error);
        },
    };
    match found {
        Some((index, segment, rest)) => {
            let line = replace_value(lines[index].as_str(), rest.as_str(), value, value_syntax());
            let mut out = lines;
            let ghost before = out.deep_view();
            let ghost text = line@;
            out[index] = line;
            assert(out.deep_view() == before.update(index as int, text));
            Ok(out)
        },
        None => Ok(lines),
    }
}

/// The text after the edit: the lines joined with single line feeds, and
/// after them the line feeds that stood at the end of the text.
pub open spec fn updated_text(content: Seq<char>, node_path: Seq<char>, value: Seq<char>) -> Seq<
    char,
> {
    with_tail(updated_lines(main_lines(content), split(node_path, '.'), value), content)
}

/// Whether the edit of a text fails.
pub open spec fn text_fails(content: Seq<char>, node_path: Seq<char>) -> bool {
    fails(main_lines(content), split(node_path, '.'))
}

/// Replaces the value that `node_path` names in the JSON text `content` and
/// returns the new text. The edit fails exactly when the scan comes to a key
/// pattern that does not compile.
pub fn update_json_node(content: &str, node_path: &str, new_value: &str) -> (r: Result<
    String,
    UpdateError,
>)
    ensures
        r matches Ok(text) ==> text@ == updated_text(content@, node_path@, new_value@),
        r matches Err(error) ==> error is Pattern,
        r is Err <==> text_fails(content@, node_path@),
{
    let (lines, tail) = cut_text(content);
    let path = split_on(node_path, '.');
    match update_lines(lines, &path, new_value) {
        Ok(out) => Ok(join_text(&out, tail.as_str())),
        Err(error) => Err(error),
    }
}

/// Whether the pattern compiles with which `line` is searched for `key` as
/// segment `segment`, if it is searched at all.
pub open spec fn compiles_at(line: Seq<char>, segment: int, unit: int, key: Seq<char>) -> bool {
    is_searched(line, segment * unit) ==> regex_compiles(
        key_pattern((segment * unit) as nat, key),
    )
}

/// Whether every pattern compiles that a scan of these lines for this path
/// can come to: for each line and each segment, that of the segment's depth
/// and key, unless the line is too short to be searched at that depth.
pub open spec fn patterns_compile(lines: Seq<Seq<char>>, path: Seq<Seq<char>>, unit: int) -> bool {
    forall|i: int, segment: int|
        0 <= i < lines.len() && 0 <= segment < path.len() ==> #[trigger] compiles_at(
            lines[i],
            segment,
            unit,
            path[segment],
        )
}

/// Where the patterns compile that the scan can come to, no edit fails.
pub proof fn edit_succeeds_where_patterns_compile(lines: Seq<Seq<char>>, path: Seq<Seq<char>>)
    requires
        patterns_compile(lines, path, indent_unit(lines, COMMENT_MARKER@)),
    ensures
        !fails(lines, path),
{
    lemma_never_breaks(lines, path, indent_unit(lines, COMMENT_MARKER@), lines.len() as int);
}

/// Where the patterns compile that the scan can come to, it never breaks,
/// and the segment it looks for is not below the first.
pub proof fn lemma_never_breaks(
    lines: Seq<Seq<char>>,
    path: Seq<Seq<char>>,
    unit: int,
    upto: int,
)
    requires
        patterns_compile(lines, path, unit),
        upto <= lines.len(),
    ensures
        !breaks(lines, path, unit, upto),
        0 <= scan(lines, path, unit, upto).0,
    decreases upto,
{
    if upto > 0 {
        lemma_never_breaks(lines, path, unit, upto - 1);
        let segment = scan(lines, path, unit, upto - 1).0;
        if segment < path.len() {
            assert(compiles_at(lines[upto - 1], segment, unit, path[segment]));
        }
    }
}

/// A target lies among the lines read, and its segment is the path's last.
pub proof fn lemma_scan_in_range(
    lines: Seq<Seq<char>>,
    path: Seq<Seq<char>>,
    unit: int,
    upto: int,
)
    ensures
        scan(lines, path, unit, upto).0 >= 0,
        scan(lines, path, unit, upto).1 matches Some(index) ==> 0 <= index < upto && scan(
            lines,
            path,
            unit,
            upto,
        ).0 == path.len() - 1,
    decreases upto,
{
    if upto > 0 {
        lemma_scan_in_range(lines, path, unit, upto - 1);
    }
}

/// An edit keeps the number of lines.
pub proof fn line_count_is_kept(lines: Seq<Seq<char>>, path: Seq<Seq<char>>, value: Seq<char>)
    ensures
        updated_lines(lines, path, value).len() == lines.len(),
{
    lemma_scan_in_range(lines, path, indent_unit(lines, COMMENT_MARKER@), lines.len() as int);
}

/// An edit changes no line but the target.
pub proof fn other_lines_are_kept(
    lines: Seq<Seq<char>>,
    path: Seq<Seq<char>>,
    value: Seq<char>,
    index: int,
)
    requires
        0 <= index < lines.len(),
        !(target(lines, path) matches Some(found) && found.0 == index),
    ensures
        updated_lines(lines, path, value)[index] == lines[index],
{
    lemma_scan_in_range(lines, path, indent_unit(lines, COMMENT_MARKER@), lines.len() as int);
}

/// A path that names no line leaves the lines as they are.
pub proof fn missing_path_changes_nothing(
    lines: Seq<Seq<char>>,
    path: Seq<Seq<char>>,
    value: Seq<char>,
)
    requires
        target(lines, path) is None,
    ensures
        updated_lines(lines, path, value) == lines,
{
}

/// The target line starts, after the edit, as it did before, and ends with
/// what followed its value: the comma, the whitespace and the comment.
pub proof fn comment_is_kept(lines: Seq<Seq<char>>, path: Seq<Seq<char>>, value: Seq<char>)
    requires
        target(lines, path) is Some,
    ensures
        ({
            let (index, segment) = target(lines, path).unwrap();
            let rest = rest_at(
                lines[index],
                segment * indent_unit(lines, COMMENT_MARKER@),
                path[segment],
            );
            let after = updated_lines(lines, path, value)[index];
            kept_front(lines[index], rest, syntax()).is_prefix_of(after) && after_value(
                rest,
                syntax(),
            ).is_suffix_of(after)
        }),
{
    lemma_scan_in_range(lines, path, indent_unit(lines, COMMENT_MARKER@), lines.len() as int);
    let (index, segment) = target(lines, path).unwrap();
    let rest = rest_at(
        lines[index],
        segment * indent_unit(lines, COMMENT_MARKER@),
        path[segment],
    );
    lemma_replaced_keeps_the_rest(lines[index], rest, value, syntax());
}

/// Whether the line that an edit wrote is read back as the line before it
/// was: it is found again as the target, one level of indentation is as wide
/// as before, and writing the value into it once more leaves it as it is.
pub open spec fn reads_back(lines: Seq<Seq<char>>, path: Seq<Seq<char>>, value: Seq<char>) -> bool {
    let once = updated_lines(lines, path, value);
    let unit = indent_unit(lines, COMMENT_MARKER@);
    target(lines, path) matches Some(found) ==> {
        &&& target(once, path) == target(lines, path)
        &&& indent_unit(once, COMMENT_MARKER@) == unit
        &&& rewritten(once[found.0], found.1 * unit, path[found.1], value) == once[found.0]
    }
}

/// Editing twice with the same value gives what editing once gives, as long
/// as the rewritten line is read back as the line before it was.
pub proof fn edit_is_idempotent(lines: Seq<Seq<char>>, path: Seq<Seq<char>>, value: Seq<char>)
    requires
        reads_back(lines, path, value),
    ensures
        updated_lines(updated_lines(lines, path, value), path, value) == updated_lines(
            lines,
            path,
            value,
        ),
{
    lemma_scan_in_range(lines, path, indent_unit(lines, COMMENT_MARKER@), lines.len() as int);
    let once = updated_lines(lines, path, value);
    if target(lines, path) is Some {
        assert(updated_lines(once, path, value) =~= once);
    }
}

/// The lines of an edited text are one-line texts, the last of them not
/// empty, for a text without carriage returns and a value that fits on one
/// line.
pub proof fn lemma_updated_lines_are_lines(
    content: Seq<char>,
    node_path: Seq<char>,
    value: Seq<char>,
)
    requires
        is_free_of(content, '\r'),
        is_one_line(value),
    ensures
        ({
            let after = updated_lines(main_lines(content), split(node_path, '.'), value);
            &&& after.len() == main_lines(content).len()
            &&& forall|i: int| 0 <= i < after.len() ==> is_one_line(#[trigger] after[i])
            &&& after.len() > 0 ==> after.last().len() > 0
        }),
{
    let lines = main_lines(content);
    let path = split(node_path, '.');
    let unit = indent_unit(lines, COMMENT_MARKER@);
    lemma_main_lines(content);
    lemma_scan_in_range(lines, path, unit, lines.len() as int);
    let after = updated_lines(lines, path, value);
    match target(lines, path) {
        Some((at, segment)) => {
            let line = lines[at];
            let rest = rest_at(line, segment * unit, path[segment]);
            if key_at(line, segment * unit, path[segment]) is Some {
                lemma_group_is_part(
                    key_pattern((segment * unit) as nat, path[segment]),
                    line,
                    1,
                );
                lemma_part_is_free_of(rest, line, '\n');
                lemma_part_is_free_of(rest, line, '\r');
            }
            lemma_replaced_is_one_line(line, rest, value, syntax());
            assert forall|i: int| 0 <= i < after.len() implies is_one_line(
                #[trigger] after[i],
            ) by {
                if i != at {
                    assert(after[i] == lines[i]);
                }
            }
        },
        None => {},
    }
}

/// The lines of the text after an edit are the lines of the text before it
/// with the edit made in them, and as many line feeds stand at its end. This
/// holds for a text without carriage returns and a value that fits on one
/// line.
pub proof fn text_follows_lines(content: Seq<char>, node_path: Seq<char>, value: Seq<char>)
    requires
        is_free_of(content, '\r'),
        is_one_line(value),
    ensures
        main_lines(updated_text(content, node_path, value)) == updated_lines(
            main_lines(content),
            split(node_path, '.'),
            value,
        ),
        lines_of(updated_text(content, node_path, value)).len() == lines_of(content).len(),
        is_free_of(updated_text(content, node_path, value), '\r'),
        with_tail(
            updated_lines(main_lines(content), split(node_path, '.'), value),
            updated_text(content, node_path, value),
        ) == updated_text(content, node_path, value),
{
    lemma_updated_lines_are_lines(content, node_path, value);
    let after = updated_lines(main_lines(content), split(node_path, '.'), value);
    lemma_rejoined(after, content);
    lemma_line_count_with_tail(after, content);
}

/// A path that names no line gives back the text as it was, for a text
/// without carriage returns.
pub proof fn missing_path_returns_the_text(
    content: Seq<char>,
    node_path: Seq<char>,
    value: Seq<char>,
)
    requires
        is_free_of(content, '\r'),
        target(main_lines(content), split(node_path, '.')) is None,
    ensures
        updated_text(content, node_path, value) == content,
{
    lemma_main_lines(content);
}

/// Editing the text twice with the same value gives what editing it once
/// gives, as long as the rewritten line is read back as the line before it
/// was. This holds for a text without carriage returns and a value that fits
/// on one line.
pub proof fn edit_of_text_is_idempotent(
    content: Seq<char>,
    node_path: Seq<char>,
    value: Seq<char>,
)
    requires
        is_free_of(content, '\r'),
        is_one_line(value),
        reads_back(main_lines(content), split(node_path, '.'), value),
    ensures
        updated_text(updated_text(content, node_path, value), node_path, value) == updated_text(
            content,
            node_path,
            value,
        ),
{
    text_follows_lines(content, node_path, value);
    edit_is_idempotent(main_lines(content), split(node_path, '.'), value);
}

/// An edit keeps the number of lines of any text, and the number of line
/// feeds at its end, for a value without line feeds.
pub proof fn line_count_of_text_is_kept(
    content: Seq<char>,
    node_path: Seq<char>,
    value: Seq<char>,
)
    requires
        is_free_of(value, '\n'),
    ensures
        lines_of(updated_text(content, node_path, value)).len() == lines_of(content).len(),
        tail_feeds(updated_text(content, node_path, value)) == tail_feeds(content),
{
    let lines = main_lines(content);
    let path = split(node_path, '.');
    let unit = indent_unit(lines, COMMENT_MARKER@);
    lemma_main_lines_of_any_text(content);
    lemma_scan_in_range(lines, path, unit, lines.len() as int);
    let after = updated_lines(lines, path, value);
    match target(lines, path) {
        Some((at, segment)) => {
            let line = lines[at];
            let rest = rest_at(line, segment * unit, path[segment]);
            if key_at(line, segment * unit, path[segment]) is Some {
                lemma_group_is_part(key_pattern((segment * unit) as nat, path[segment]), line, 1);
                lemma_part_is_free_of(rest, line, '\n');
            }
            lemma_replaced_is_free_of(line, rest, value, syntax(), '\n');
            lemma_replaced_keeps_the_rest(line, rest, value, syntax());
            assert forall|i: int| 0 <= i < after.len() implies is_free_of(
                #[trigger] after[i],
                '\n',
            ) by {
                if i != at {
                    assert(after[i] == lines[i]);
                }
            }
        },
        None => {},
    }
    lemma_line_count_of_any_text(after, content);
}

} // verus!
