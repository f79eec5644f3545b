//! TOML: nesting comes from table headers, not from indentation. The scan
//! keeps the names of the last table header and of the last array-of-tables
//! header, and a key line is the target when those names followed by the key
//! spell the whole path.

use crate::error::UpdateError;
use crate::pattern::{
    captured, captures, escaped, group_or_empty, group_text, lemma_group_is_part,
    lemma_part_is_free_of, regex_compiles,
};
use crate::text::{
    cut_text, ends_with, is_free_of, is_one_line, join, join_text, join_with,
    lemma_concat_is_free_of, lemma_line_count_of_any_text, lemma_line_count_with_tail,
    lemma_main_lines, lemma_main_lines_of_any_text, lemma_rejoined, lines_of, main_lines,
    same_text, split, split_on, starts_with, tail_feeds, trim, trimmed, with_tail,
};
use vstd::prelude::*;
use vstd::string::*;

verus! {

/// The header of an array of tables.
pub const ARRAY_HEADER: &'static str = r"^\[\[([^\]]+)\]\]$";

/// The header of a table.
pub const TABLE_HEADER: &'static str = r"^\[([^\]]+)\]$";

/// What stands before the key: the start of the first group and whitespace.
pub const BEFORE_KEY: &'static str = r"^(\s*";

/// What follows the key: `=`, the value in quotes or as one word, and an
/// optional comment.
pub const AFTER_KEY: &'static str = r#"\s*=\s*)(["'].*?["']|[^#\s]+)(\s*#.*)?$"#;

/// The shape of a line that assigns a value to `key`: the first group runs
/// up to the value, the third holds the comment.
pub open spec fn key_pattern(key: Seq<char>) -> Seq<char> {
    BEFORE_KEY@ + escaped(key) + AFTER_KEY@
}

/// A line that is blank or holds nothing but a comment.
pub open spec fn is_skipped(line: Seq<char>) -> bool {
    trimmed(line).len() == 0 || "#"@.is_prefix_of(trimmed(line))
}

/// What a content line is to the scan.
pub enum LineModel {
    /// `[[a.b]]`: the names between the brackets.
    ArrayHeader(Seq<Seq<char>>),
    /// `[a.b]`: the names between the brackets.
    TableHeader(Seq<Seq<char>>),
    /// A line that starts with a bracket and is neither.
    Bracket,
    /// An assignment to the key: the line up to the value, which is not empty,
    /// and the comment.
    Entry(Seq<char>, Seq<char>),
    /// Anything else.
    Other,
}

/// What `line` is to a scan for `key`.
pub open spec fn line_of(line: Seq<char>, key: Seq<char>) -> LineModel {
    let t = trimmed(line);
    if "["@.is_prefix_of(t) {
        if "[["@.is_prefix_of(t) && "]]"@.is_suffix_of(t) {
            match captured(ARRAY_HEADER@, t) {
                Some(groups) => LineModel::ArrayHeader(split(group_text(groups, 1), '.')),
                None => LineModel::Bracket,
            }
        } else {
            match captured(TABLE_HEADER@, t) {
                Some(groups) => LineModel::TableHeader(split(group_text(groups, 1), '.')),
                None => LineModel::Bracket,
            }
        }
    } else {
        match captured(key_pattern(key), line) {
            Some(groups) => if group_text(groups, 1).len() > 0 {
                LineModel::Entry(group_text(groups, 1), group_text(groups, 3))
            } else {
                LineModel::Other
            },
            None => LineModel::Other,
        }
    }
}

/// Where a scan stands: the names of the last table header and those of the
/// last array-of-tables header since then.
pub struct Context {
    pub table: Seq<Seq<char>>,
    pub array: Seq<Seq<char>>,
}

/// The context before the first line.
pub open spec fn start() -> Context {
    Context { table: Seq::empty(), array: Seq::empty() }
}

/// The dotted path of `key` in `context`.
pub open spec fn full_path(context: Context, key: Seq<char>) -> Seq<char> {
    join(context.table + context.array + seq![key], '.')
}

/// One content line seen from `context`: the context afterwards, and whether
/// the line is the target. An array header replaces the array names. A table
/// header replaces the table names and clears the array names. An assignment
/// to the key is the target when its full path is the path asked for.
pub open spec fn visit(context: Context, line: LineModel, node_path: Seq<char>, key: Seq<char>)
    -> (Context, bool) {
    match line {
        LineModel::ArrayHeader(names) => (Context { table: context.table, array: names }, false),
        LineModel::TableHeader(names) => (Context { table: names, array: Seq::empty() }, false),
        LineModel::Entry(_, _) => (context, full_path(context, key) == node_path),
        _ => (context, false),
    }
}

/// The context after the first `upto` lines, and the index of the target
/// line if it is among them.
pub open spec fn scan(lines: Seq<Seq<char>>, node_path: Seq<char>, upto: int) -> (
    Context,
    Option<int>,
)
    decreases upto,
{
    if upto <= 0 {
        (start(), None)
    } else {
        let (context, found) = scan(lines, node_path, upto - 1);
        let line = lines[upto - 1];
        if found is Some || is_skipped(line) {
            (context, found)
        } else {
            let key = split(node_path, '.').last();
            let (next, hit) = visit(context, line_of(line, key), node_path, key);
            (
                next,
                if hit {
                    Some(upto - 1)
                } else {
                    None
                },
            )
        }
    }
}

/// The pattern that a content line is searched with: that of a header for
/// a line that starts with a bracket, else that of an assignment to `key`.
pub open spec fn pattern_for(line: Seq<char>, key: Seq<char>) -> Seq<char> {
    let t = trimmed(line);
    if "["@.is_prefix_of(t) {
        if "[["@.is_prefix_of(t) && "]]"@.is_suffix_of(t) {
            ARRAY_HEADER@
        } else {
            TABLE_HEADER@
        }
    } else {
        key_pattern(key)
    }
}

/// Whether the scan of the first `upto` lines comes, before it finds the
/// target, to a line whose pattern does not compile.
pub open spec fn breaks(lines: Seq<Seq<char>>, node_path: Seq<char>, upto: int) -> bool
    decreases upto,
{
    if upto <= 0 {
        false
    } else {
        let line = lines[upto - 1];
        breaks(lines, node_path, upto - 1) || (scan(lines, node_path, upto - 1).1 is None
            && !is_skipped(line) && !regex_compiles(
            pattern_for(line, split(node_path, '.').last()),
        ))
    }
}

/// Whether an edit fails: the scan comes to a pattern that does not compile.
pub open spec fn fails(lines: Seq<Seq<char>>, node_path: Seq<char>) -> bool {
    breaks(lines, node_path, lines.len() as int)
}

/// The index of the line that the path names.
pub open spec fn target(lines: Seq<Seq<char>>, node_path: Seq<char>) -> Option<int> {
    scan(lines, node_path, lines.len() as int).1
}

/// The target line with its value replaced: the line up to the value, the
/// new value, and the comment.
pub open spec fn rewritten(line: Seq<char>, key: Seq<char>, value: Seq<char>) -> Seq<char> {
    match line_of(line, key) {
        LineModel::Entry(before, comment) => before + value + comment,
        _ => line,
    }
}

/// The lines after the edit.
pub open spec fn updated_lines(
    lines: Seq<Seq<char>>,
    node_path: Seq<char>,
    value: Seq<char>,
) -> Seq<Seq<char>> {
    match target(lines, node_path) {
        Some(index) => lines.update(
            index,
            rewritten(lines[index], split(node_path, '.').last(), value),
        ),
        None => lines,
    }
}

/// What a content line is to the scan.
#[derive(Debug, PartialEq, Eq)]
pub enum Line {
    ArrayHeader(Vec<String>),
    TableHeader(Vec<String>),
    Bracket,
    Entry(String, String),
    Other,
}

impl View for Line {
    type V = LineModel;

    open spec fn view(&self) -> LineModel {
        match self {
            Line::ArrayHeader(names) => LineModel::ArrayHeader(names.deep_view()),
            Line::TableHeader(names) => LineModel::TableHeader(names.deep_view()),
            Line::Bracket => LineModel::Bracket,
            Line::Entry(before, comment) => LineModel::Entry(before@, comment@),
            Line::Other => LineModel::Other,
        }
    }
}

/// The scan's context while it runs.
pub struct Tracker {
    pub table: Vec<String>,
    pub array: Vec<String>,
}

impl View for Tracker {
    type V = Context;

    open spec fn view(&self) -> Context {
        Context { table: self.table.deep_view(), array: self.array.deep_view() }
    }
}

/// A copy of `names` followed by those of `more`.
fn extended(names: &mut Vec<String>, more: &Vec<String>)
    ensures
        final(names).deep_view() == old(names).deep_view() + more.deep_view(),
{
    let mut i: usize = 0;
    assert(more.deep_view().take(0) == Seq::<Seq<char>>::empty());
    assert(names.deep_view() + Seq::<Seq<char>>::empty() == names.deep_view());
    while i < more.len()
        invariant
            i <= more.len(),
            names.deep_view() == old(names).deep_view() + more.deep_view().take(i as int),
        decreases more.len() - i,
    {
        let ghost before = names.deep_view();
        names.push(more[i].clone());
        assert(names.deep_view() == before.push(more[i as int]@));
        assert(more.deep_view().take(i + 1) == more.deep_view().take(i as int).push(
            more[i as int]@,
        ));
        i += 1;
    }
    assert(more.deep_view().take(more.len() as int) == more.deep_view());
}

impl Tracker {
    /// A tracker before the first line.
    pub fn new() -> (tracker: Tracker)
        ensures
            tracker@ == start(),
    {
        let table: Vec<String> = Vec::new();
        let array: Vec<String> = Vec::new();
        assert(table.deep_view() == Seq::<Seq<char>>::empty());
        assert(array.deep_view() == Seq::<Seq<char>>::empty());
        Tracker { table, array }
    }

    /// The dotted path of `key` under the headers seen so far.
    pub fn full_path(&self, key: &str) -> (r: String)
        ensures
            r@ == full_path(self@, key@),
    {
        let mut names: Vec<String> = Vec::new();
        assert(names.deep_view() == Seq::<Seq<char>>::empty());
        extended(&mut names, &self.table);
        assert(names.deep_view() == self.table.deep_view());
        extended(&mut names, &self.array);
        let ghost before = names.deep_view();
        names.push(key.to_string());
        assert(names.deep_view() == before.push(key@));
        assert(before.push(key@) == before + seq![key@]);
        join_with(&names, '.')
    }

    /// Moves the tracker over one content line and says whether that line is
    /// the target.
    pub fn visit(&mut self, line: Line, node_path: &str, key: &str) -> (hit: bool)
        ensures
            (final(self)@, hit) == visit(old(self)@, line@, node_path@, key@),
    {
        match line {
            Line::ArrayHeader(names) => {
                self.array = names;
                false
            },
            Line::TableHeader(names) => {
                self.table = names;
                self.array = Vec::new();
                assert(self.array.deep_view() == Seq::<Seq<char>>::empty());
                false
            },
            Line::Entry(_, _) => {
                let full = self.full_path(key);
                same_text(full.as_str(), node_path)
            },
            Line::Bracket => false,
            Line::Other => false,
        }
    }
}

/// Whether `line` is blank or holds nothing but a comment.
pub fn skips(line: &str) -> (r: bool)
    ensures
        r == is_skipped(line@),
{
    let t = trim(line);
    t.as_str().is_empty() || starts_with(t.as_str(), "#")
}

/// What `line` is to a scan for `key`.
pub fn read_line(line: &str, key: &str) -> (r: Result<Line, UpdateError>)
    ensures
        r matches Ok(found) ==> found@ == line_of(line@, key@),
        r matches Err(error) ==> error is Pattern,
        r is Err <==> !regex_compiles(pattern_for(line@, key@)),
{
    let t = trim(line);
    if starts_with(t.as_str(), "[") {
        if starts_with(t.as_str(), "[[") && ends_with(t.as_str(), "]]") {
            match captures(ARRAY_HEADER, t.as_str()) {
                Ok(Some(groups)) => Ok(
                    Line::ArrayHeader(split_on(group_or_empty(&groups, 1).as_str(), '.')),
                ),
                Ok(None) => Ok(Line::Bracket),
                Err(error) => Err(UpdateError::Pattern(error)),
            }
        } else {
            match captures(TABLE_HEADER, t.as_str()) {
                Ok(Some(groups)) => Ok(
                    Line::TableHeader(split_on(group_or_empty(&groups, 1).as_str(), '.')),
                ),
                Ok(None) => Ok(Line::Bracket),
                Err(error) => Err(UpdateError::Pattern(error)),
            }
        }
    } else {
        let mut pattern = BEFORE_KEY.to_string();
        pattern.append(regex::escape(key).as_str());
        pattern.append(AFTER_KEY);
        match captures(pattern.as_str(), line) {
            Ok(Some(groups)) => {
                let before = group_or_empty(&groups, 1);
                if before.as_str().is_empty() {
                    Ok(Line::Other)
                } else {
                    Ok(Line::Entry(before, group_or_empty(&groups, 3)))
                }
            },
            Ok(None) => Ok(Line::Other),
            Err(error) => Err(UpdateError::Pattern(error)),
        }
    }
}

/// Once the target is found, reading further lines changes nothing; and once
/// the scan has broken, it stays broken.
pub proof fn lemma_scan_settled(lines: Seq<Seq<char>>, node_path: Seq<char>, at: int, upto: int)
    requires
        0 <= at <= upto,
    ensures
        scan(lines, node_path, at).1 is Some ==> scan(lines, node_path, upto) == scan(
            lines,
            node_path,
            at,
        ) && breaks(lines, node_path, upto) == breaks(lines, node_path, at),
        breaks(lines, node_path, at) ==> breaks(lines, node_path, upto),
    decreases upto - at,
{
    if at < upto {
        lemma_scan_settled(lines, node_path, at, upto - 1);
    }
}

/// The last segment of a dotted path.
pub fn last_segment(node_path: &str) -> (key: String)
    ensures
        key@ == split(node_path@, '.').last(),
{
    let mut parts = split_on(node_path, '.');
    let ghost all = parts.deep_view();
    let key = parts.pop().unwrap();
    assert(key@ == all.last());
    key
}

/// Replaces the value on the line that `node_path` names and returns the
/// lines.
pub fn update_lines(lines: Vec<String>, node_path: &str, value: &str) -> (r: Result<
    Vec<String>,
    UpdateError,
>)
    ensures
        r matches Ok(out) ==> out.deep_view() == updated_lines(
            lines.deep_view(),
            node_path@,
            value@,
        ),
        r matches Err(error) ==> error is Pattern,
        r is Err <==> fails(lines.deep_view(), node_path@),
{
    let key = last_segment(node_path);
    let mut tracker = Tracker::new();
    let mut i: usize = 0;
    while i < lines.len()
        invariant
            i <= lines.len(),
            key@ == split(node_path@, '.').last(),
            scan(lines.deep_view(), node_path@, i as int) == (tracker@, None::<int>),
            !breaks(lines.deep_view(), node_path@, i as int),
        decreases lines.len() - i,
    {
        let line = lines[i].as_str();
        assert(lines.deep_view()[i as int] == line@);
        if !skips(line) {
            let found = match read_line(line, key.as_str()) {
                Ok(found) => found,
                Err(error) => {
                    proof {
                        lemma_scan_settled(
                            lines.deep_view(),
                            node_path@,
                            i + 1,
                            lines.len() as int,
                        );
                    }
                    return Err(error);
                },
            };
            let replacement = match &found {
                Line::Entry(before, comment) => {
                    let mut text = before.clone();
                    text.append(value);
                    text.append(comment.as_str());
                    text
                },
                _ => String::new(),
            };
            if tracker.visit(found, node_path, key.as_str()) {
                proof {
                    lemma_scan_settled(lines.deep_view(), node_path@, i + 1, lines.len() as int);
                }
                let mut out = lines;
                let ghost before = out.deep_view();
                let ghost text = replacement@;
                out[i] = replacement;
                assert(out.deep_view() == before.update(i as int, text));
                return Ok(out);
            }
        }
        i += 1;
    }
    Ok(lines)
}

/// The text after the edit: the lines joined with single line feeds, and
/// after them the line feeds that stood at the end of the text.
pub open spec fn updated_text(content: Seq<char>, node_path: Seq<char>, value: Seq<char>) -> Seq<
    char,
> {
    with_tail(updated_lines(main_lines(content), node_path, value), content)
}

/// Whether the edit of a text fails.
pub open spec fn text_fails(content: Seq<char>, node_path: Seq<char>) -> bool {
    fails(main_lines(content), node_path)
}

/// Replaces the value that `node_path` names in the TOML text `content` and
/// returns the new text. The edit fails exactly when the scan comes to a
/// pattern that does not compile.
pub fn update_toml_node(content: &str, node_path: &str, new_value: &str) -> (r: Result<
    String,
    UpdateError,
>)
    ensures
        r matches Ok(text) ==> text@ == updated_text(content@, node_path@, new_value@),
        r matches Err(error) ==> error is Pattern,
        r is Err <==> text_fails(content@, node_path@),
{
    let (lines, tail) = cut_text(content);
    match update_lines(lines, node_path, new_value) {
        Ok(out) => Ok(join_text(&out, tail.as_str())),
        Err(error) => Err(error),
    }
}

/// Where the two header patterns and the key pattern compile, no edit fails.
pub proof fn edit_succeeds_where_patterns_compile(lines: Seq<Seq<char>>, node_path: Seq<char>)
    requires
        regex_compiles(ARRAY_HEADER@),
        regex_compiles(TABLE_HEADER@),
        regex_compiles(key_pattern(split(node_path, '.').last())),
    ensures
        !fails(lines, node_path),
{
    lemma_never_breaks(lines, node_path, lines.len() as int);
}

/// Where the patterns compile, the scan never breaks.
pub proof fn lemma_never_breaks(lines: Seq<Seq<char>>, node_path: Seq<char>, upto: int)
    requires
        regex_compiles(ARRAY_HEADER@),
        regex_compiles(TABLE_HEADER@),
        regex_compiles(key_pattern(split(node_path, '.').last())),
    ensures
        !breaks(lines, node_path, upto),
    decreases upto,
{
    if upto > 0 {
        lemma_never_breaks(lines, node_path, upto - 1);
    }
}

/// A target lies among the lines read.
pub proof fn lemma_scan_in_range(lines: Seq<Seq<char>>, node_path: Seq<char>, upto: int)
    ensures
        scan(lines, node_path, upto).1 matches Some(index) ==> 0 <= index < upto && line_of(
            lines[index],
            split(node_path, '.').last(),
        ) is Entry,
    decreases upto,
{
    if upto > 0 {
        lemma_scan_in_range(lines, node_path, upto - 1);
    }
}

/// An edit keeps the number of lines.
pub proof fn line_count_is_kept(lines: Seq<Seq<char>>, node_path: Seq<char>, value: Seq<char>)
    ensures
        updated_lines(lines, node_path, value).len() == lines.len(),
{
    lemma_scan_in_range(lines, node_path, lines.len() as int);
}

/// An edit changes no line but the target.
pub proof fn other_lines_are_kept(
    lines: Seq<Seq<char>>,
    node_path: Seq<char>,
    value: Seq<char>,
    index: int,
)
    requires
        0 <= index < lines.len(),
        target(lines, node_path) != Some(index),
    ensures
        updated_lines(lines, node_path, value)[index] == lines[index],
{
    lemma_scan_in_range(lines, node_path, lines.len() as int);
}

/// A path that names no line leaves the lines as they are.
pub proof fn missing_path_changes_nothing(
    lines: Seq<Seq<char>>,
    node_path: Seq<char>,
    value: Seq<char>,
)
    requires
        target(lines, node_path) is None,
    ensures
        updated_lines(lines, node_path, value) == lines,
{
}

/// The target line keeps what stood before its value and ends with the
/// comment it had.
pub proof fn comment_is_kept(lines: Seq<Seq<char>>, node_path: Seq<char>, value: Seq<char>)
    requires
        target(lines, node_path) is Some,
    ensures
        ({
            let index = target(lines, node_path)->0;
            let after = updated_lines(lines, node_path, value)[index];
            match line_of(lines[index], split(node_path, '.').last()) {
                LineModel::Entry(before, comment) => before.is_prefix_of(after)
                    && comment.is_suffix_of(after),
                _ => false,
            }
        }),
{
    lemma_scan_in_range(lines, node_path, lines.len() as int);
    let index = target(lines, node_path).unwrap();
    let after = updated_lines(lines, node_path, value)[index];
    match line_of(lines[index], split(node_path, '.').last()) {
        LineModel::Entry(before, comment) => {
            assert(after.subrange(0, before.len() as int) =~= before);
            assert(after.subrange(after.len() - comment.len(), after.len() as int) =~= comment);
        },
        _ => {},
    }
}

/// Whether the line that an edit wrote is read back as the line before it
/// was: it is found again as the target, and what stands before its value
/// and its comment are recognised as before.
pub open spec fn reads_back(lines: Seq<Seq<char>>, node_path: Seq<char>, value: Seq<char>) -> bool {
    let once = updated_lines(lines, node_path, value);
    let key = split(node_path, '.').last();
    target(lines, node_path) matches Some(index) ==> {
        &&& target(once, node_path) == Some(index)
        &&& line_of(once[index], key) == line_of(lines[index], key)
    }
}

/// Editing twice with the same value gives what editing once gives, as long
/// as the rewritten line is read back as the line before it was.
pub proof fn edit_is_idempotent(lines: Seq<Seq<char>>, node_path: Seq<char>, value: Seq<char>)
    requires
        reads_back(lines, node_path, value),
    ensures
        updated_lines(updated_lines(lines, node_path, value), node_path, value) == updated_lines(
            lines,
            node_path,
            value,
        ),
{
    lemma_scan_in_range(lines, node_path, lines.len() as int);
    let once = updated_lines(lines, node_path, value);
    if target(lines, node_path) is Some {
        assert(updated_lines(once, node_path, value) =~= once);
    }
}

/// A line that fits on one line still does after a value that fits on one
/// line was written into it.
pub proof fn lemma_rewritten_is_one_line(line: Seq<char>, key: Seq<char>, value: Seq<char>)
    requires
        is_one_line(line),
        is_one_line(value),
    ensures
        is_one_line(rewritten(line, key, value)),
        line_of(line, key) is Entry ==> rewritten(line, key, value).len() > 0,
{
    match line_of(line, key) {
        LineModel::Entry(before, comment) => {
            let pattern = key_pattern(key);
            lemma_group_is_part(pattern, line, 1);
            lemma_group_is_part(pattern, line, 3);
            lemma_part_is_free_of(before, line, '\n');
            lemma_part_is_free_of(before, line, '\r');
            lemma_part_is_free_of(comment, line, '\n');
            lemma_part_is_free_of(comment, line, '\r');
            lemma_concat_is_free_of(before, value, '\n');
            lemma_concat_is_free_of(before, value, '\r');
            lemma_concat_is_free_of(before + value, comment, '\n');
            lemma_concat_is_free_of(before + value, comment, '\r');
        },
        _ => {},
    }
}

/// The lines of the text after an edit are the lines of the text before it
/// with the edit made in them, and as many line feeds stand at its end. This
/// holds for a text without carriage returns and a value that fits on one
/// line.
pub proof fn text_follows_lines(content: Seq<char>, node_path: Seq<char>, value: Seq<char>)
    requires
        is_free_of(content, '\r'),
        is_one_line(value),
    ensures
        main_lines(updated_text(content, node_path, value)) == updated_lines(
            main_lines(content),
            node_path,
            value,
        ),
        lines_of(updated_text(content, node_path, value)).len() == lines_of(content).len(),
        is_free_of(updated_text(content, node_path, value), '\r'),
        with_tail(
            updated_lines(main_lines(content), node_path, value),
            updated_text(content, node_path, value),
        ) == updated_text(content, node_path, value),
{
    let lines = main_lines(content);
    lemma_main_lines(content);
    lemma_scan_in_range(lines, node_path, lines.len() as int);
    let after = updated_lines(lines, node_path, value);
    match target(lines, node_path) {
        Some(at) => {
            lemma_rewritten_is_one_line(lines[at], split(node_path, '.').last(), value);
            assert forall|i: int| 0 <= i < after.len() implies is_one_line(
                #[trigger] after[i],
            ) by {
                if i != at {
                    assert(after[i] == lines[i]);
                }
            }
        },
        None => {},
    }
    lemma_rejoined(after, content);
    lemma_line_count_with_tail(after, content);
}

/// A path that names no line gives back the text as it was, for a text
/// without carriage returns.
pub proof fn missing_path_returns_the_text(
    content: Seq<char>,
    node_path: Seq<char>,
    value: Seq<char>,
)
    requires
        is_free_of(content, '\r'),
        target(main_lines(content), node_path) is None,
    ensures
        updated_text(content, node_path, value) == content,
{
    lemma_main_lines(content);
}

/// Editing the text twice with the same value gives what editing it once
/// gives, as long as the rewritten line is read back as the line before it
/// was. This holds for a text without carriage returns and a value that fits
/// on one line.
pub proof fn edit_of_text_is_idempotent(
    content: Seq<char>,
    node_path: Seq<char>,
    value: Seq<char>,
)
    requires
        is_free_of(content, '\r'),
        is_one_line(value),
        reads_back(main_lines(content), node_path, value),
    ensures
        updated_text(updated_text(content, node_path, value), node_path, value) == updated_text(
            content,
            node_path,
            value,
        ),
{
    text_follows_lines(content, node_path, value);
    edit_is_idempotent(main_lines(content), node_path, value);
}

/// A line with a value written into it holds no line feed if neither the
/// line nor the value holds one.
pub proof fn lemma_rewritten_has_no_line_feed(line: Seq<char>, key: Seq<char>, value: Seq<char>)
    requires
        is_free_of(line, '\n'),
        is_free_of(value, '\n'),
    ensures
        is_free_of(rewritten(line, key, value), '\n'),
        line_of(line, key) is Entry ==> rewritten(line, key, value).len() > 0,
{
    match line_of(line, key) {
        LineModel::Entry(before, comment) => {
            let pattern = key_pattern(key);
            lemma_group_is_part(pattern, line, 1);
            lemma_group_is_part(pattern, line, 3);
            lemma_part_is_free_of(before, line, '\n');
            lemma_part_is_free_of(comment, line, '\n');
            lemma_concat_is_free_of(before, value, '\n');
            lemma_concat_is_free_of(before + value, comment, '\n');
        },
        _ => {},
    }
}

/// An edit keeps the number of lines of any text, and the number of line
/// feeds at its end, for a value without line feeds.
pub proof fn line_count_of_text_is_kept(
    content: Seq<char>,
    node_path: Seq<char>,
    value: Seq<char>,
)
    requires
        is_free_of(value, '\n'),
    ensures
        lines_of(updated_text(content, node_path, value)).len() == lines_of(content).len(),
        tail_feeds(updated_text(content, node_path, value)) == tail_feeds(content),
{
    let lines = main_lines(content);
    lemma_main_lines_of_any_text(content);
    lemma_scan_in_range(lines, node_path, lines.len() as int);
    let after = updated_lines(lines, node_path, value);
    match target(lines, node_path) {
        Some(at) => {
            lemma_rewritten_has_no_line_feed(lines[at], split(node_path, '.').last(), value);
            assert forall|i: int| 0 <= i < after.len() implies is_free_of(
                #[trigger] after[i],
                '\n',
            ) by {
                if i != at {
                    assert(after[i] == lines[i]);
                }
            }
        },
        None => {},
    }
    lemma_line_count_of_any_text(after, content);
}

} // verus!
