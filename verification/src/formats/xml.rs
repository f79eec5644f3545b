//! XML: one tag per line. An opening tag that names the segment looked for
//! is entered; when the last segment is entered, that line is the target.

use crate::error::UpdateError;
use crate::pattern::{
    captured, captures, group_or_empty, group_text, lemma_group_is_part, lemma_part_is_free_of,
    regex_compiles,
};
use crate::number::{is_float, is_float_literal};
use crate::text::{
    cut_text, is_free_of, is_one_line, join_text, lemma_concat_is_free_of,
    lemma_line_count_of_any_text, lemma_line_count_with_tail, lemma_main_lines,
    lemma_main_lines_of_any_text, lemma_rejoined, lemma_run_length, lines_of, main_lines, space,
    split, split_on, starts_with, tail_feeds, trim, trimmed, with_tail,
};
use crate::variable::{Rendering, RenderingModel};
use vstd::prelude::*;
use vstd::string::*;

verus! {

/// An opening tag with its name and the text after it.
pub const OPENING_TAG: &'static str = r"^(\s*)<([^>/\s][^>\s]*)[^>]*>([^<]*)";

/// A closing tag with its name.
pub const CLOSING_TAG: &'static str = r"^(\s*)</([^>\s]+)\s*>";

/// A self-closing tag with its name.
pub const SELF_CLOSING_TAG: &'static str = r"^(\s*)<([^>/\s][^>\s]*)[^>]*/\s*>";

/// What a comment line starts with.
pub const COMMENT_MARKER: &'static str = "<!--";

/// An opening tag, text, a closing tag and what follows.
pub const ELEMENT_WITH_TEXT: &'static str = r"^(\s*<[^>]+>)([^<]*)(</[^>]+>)(.*)$";

/// What a line is to the scan, with the name of its tag.
#[derive(Debug, PartialEq, Eq)]
pub enum Tag {
    SelfClosing(String),
    Closing(String),
    Opening(String),
    Other,
}

/// What a `Tag` holds.
pub enum TagModel {
    SelfClosing(Seq<char>),
    Closing(Seq<char>),
    Opening(Seq<char>),
    Other,
}

impl View for Tag {
    type V = TagModel;

    open spec fn view(&self) -> TagModel {
        match self {
            Tag::SelfClosing(name) => TagModel::SelfClosing(name@),
            Tag::Closing(name) => TagModel::Closing(name@),
            Tag::Opening(name) => TagModel::Opening(name@),
            Tag::Other => TagModel::Other,
        }
    }
}

/// A line that is blank or starts, after its indentation, with a comment.
pub open spec fn is_skipped(line: Seq<char>) -> bool {
    trimmed(line).len() == 0 || COMMENT_MARKER@.is_prefix_of(trimmed(line))
}

/// Whether reading the tag of `line` comes to a pattern that does not
/// compile: the patterns are tried in order until one matches.
pub open spec fn tag_breaks(line: Seq<char>) -> bool {
    !regex_compiles(SELF_CLOSING_TAG@) || (captured(SELF_CLOSING_TAG@, line) is None && (
    !regex_compiles(CLOSING_TAG@) || (captured(CLOSING_TAG@, line) is None && !regex_compiles(
        OPENING_TAG@,
    ))))
}

/// The tag at the front of `line`. The self-closing shape is tried first,
/// then the closing one, then the opening one.
pub open spec fn tag_of(line: Seq<char>) -> TagModel {
    if captured(SELF_CLOSING_TAG@, line) is Some {
        TagModel::SelfClosing(group_text(captured(SELF_CLOSING_TAG@, line)->0, 2))
    } else if captured(CLOSING_TAG@, line) is Some {
        TagModel::Closing(group_text(captured(CLOSING_TAG@, line)->0, 2))
    } else if captured(OPENING_TAG@, line) is Some {
        TagModel::Opening(group_text(captured(OPENING_TAG@, line)->0, 2))
    } else {
        TagModel::Other
    }
}

/// Where a scan stands: the index of the path segment it looks for next and
/// the names of the elements it has entered and not left, innermost last.
pub struct Place {
    pub segment: int,
    pub open: Seq<Seq<char>>,
}

/// What a line does to the scan.
pub enum Step {
    /// The scan goes on.
    Next,
    /// The line is the target.
    Hit,
    /// The line is a self-closing element where the target should be.
    Refuse,
}

/// The place before the first line.
pub open spec fn start() -> Place {
    Place { segment: 0, open: Seq::empty() }
}

/// One tag seen from `place`.
///
/// A self-closing tag that names the last segment refuses the edit. A
/// closing tag that names the innermost entered element leaves it; the
/// segment looked for stays. An opening tag that names the segment looked for
/// enters the element and moves to the next segment; entering the last
/// segment makes the line the target.
pub open spec fn visit(place: Place, tag: TagModel, path: Seq<Seq<char>>) -> (Place, Step) {
    match tag {
        TagModel::SelfClosing(name) => if place.segment == path.len() - 1 && name
            == path[place.segment] {
            (place, Step::Refuse)
        } else {
            (place, Step::Next)
        },
        TagModel::Closing(name) => if place.open.len() > 0 && name == place.open.last() {
            (Place { segment: place.segment, open: place.open.drop_last() }, Step::Next)
        } else {
            (place, Step::Next)
        },
        TagModel::Opening(name) => if place.segment < path.len() && name == path[place.segment] {
            (
                Place { segment: place.segment + 1, open: place.open.push(name) },
                if place.segment + 1 == path.len() {
                    Step::Hit
                } else {
                    Step::Next
                },
            )
        } else {
            (place, Step::Next)
        },
        TagModel::Other => (place, Step::Next),
    }
}

/// How a scan ended, or that it has not ended.
pub enum Verdict {
    Searching,
    Found(int),
    SelfClosing,
}

/// The place after the first `upto` lines and what the scan has come to
/// among them. Nothing moves once the scan has ended.
pub open spec fn scan(lines: Seq<Seq<char>>, path: Seq<Seq<char>>, upto: int) -> (Place, Verdict)
    decreases upto,
{
    if upto <= 0 {
        (start(), Verdict::Searching)
    } else {
        let (place, verdict) = scan(lines, path, upto - 1);
        let line = lines[upto - 1];
        if !(verdict is Searching) || is_skipped(line) {
            (place, verdict)
        } else {
            let (next, step) = visit(place, tag_of(line), path);
            (
                next,
                match step {
                    Step::Next => Verdict::Searching,
                    Step::Hit => Verdict::Found(upto - 1),
                    Step::Refuse => Verdict::SelfClosing,
                },
            )
        }
    }
}

/// Whether the scan of the first `upto` lines comes, before it ends, to a
/// line whose tag pattern does not compile.
pub open spec fn breaks(lines: Seq<Seq<char>>, path: Seq<Seq<char>>, upto: int) -> bool
    decreases upto,
{
    if upto <= 0 {
        false
    } else {
        let line = lines[upto - 1];
        breaks(lines, path, upto - 1) || (scan(lines, path, upto - 1).1 is Searching
            && !is_skipped(line) && tag_breaks(line))
    }
}

/// Whether an edit fails for a pattern: the scan comes to a tag pattern that
/// does not compile, or it finds the target and the pattern for an element
/// with text does not compile.
pub open spec fn fails(lines: Seq<Seq<char>>, path: Seq<Seq<char>>) -> bool {
    breaks(lines, path, lines.len() as int) || (verdict(lines, path) is Found && !regex_compiles(
        ELEMENT_WITH_TEXT@,
    ))
}

/// What the scan of all lines comes to.
pub open spec fn verdict(lines: Seq<Seq<char>>, path: Seq<Seq<char>>) -> Verdict {
    scan(lines, path, lines.len() as int).1
}

/// The target line with the text between its tags replaced. A line that is
/// not an opening tag, text and a closing tag stays as it is.
pub open spec fn rewritten(line: Seq<char>, value: Seq<char>) -> Seq<char> {
    match captured(ELEMENT_WITH_TEXT@, line) {
        Some(groups) => if group_text(groups, 1).len() > 0 {
            group_text(groups, 1) + value + group_text(groups, 3) + group_text(groups, 4)
        } else {
            line
        },
        None => line,
    }
}

/// The lines after the edit. Only a found target changes them.
pub open spec fn updated_lines(
    lines: Seq<Seq<char>>,
    path: Seq<Seq<char>>,
    value: Seq<char>,
) -> Seq<Seq<char>> {
    match verdict(lines, path) {
        Verdict::Found(index) => lines.update(index, rewritten(lines[index], value)),
        _ => lines,
    }
}

/// The scan's position while it runs.
pub struct Cursor {
    pub segment: usize,
    pub open: Vec<String>,
}

impl View for Cursor {
    type V = Place;

    open spec fn view(&self) -> Place {
        Place { segment: self.segment as int, open: self.open.deep_view() }
    }
}

/// What a line does to the scan.
#[derive(Debug, PartialEq, Eq, Clone, Copy)]
pub enum Move {
    Next,
    Hit,
    Refuse,
}

impl View for Move {
    type V = Step;

    open spec fn view(&self) -> Step {
        match self {
            Move::Next => Step::Next,
            Move::Hit => Step::Hit,
            Move::Refuse => Step::Refuse,
        }
    }
}

impl Cursor {
    /// A cursor before the first line.
    pub fn new() -> (cursor: Cursor)
        ensures
            cursor@ == start(),
    {
        let open: Vec<String> = Vec::new();
        assert(open.deep_view() == Seq::<Seq<char>>::empty());
        Cursor { segment: 0, open }
    }

    /// Moves the cursor over one tag.
    pub fn visit(&mut self, tag: &Tag, path: &Vec<String>) -> (step: Move)
        ensures
            (final(self)@, step@) == visit(old(self)@, tag@, path.deep_view()),
            step is Next && old(self).segment < path.len() ==> final(self).segment < path.len(),
    {
        match tag {
            Tag::SelfClosing(name) => {
                if self.segment < path.len() && self.segment == path.len() - 1 && *name
                    == path[self.segment] {
                    Move::Refuse
                } else {
                    Move::Next
                }
            },
            Tag::Closing(name) => {
                let n = self.open.len();
                if n > 0 && *name == self.open[n - 1] {
                    let ghost before = self.open.deep_view();
                    self.open.pop();
                    assert(self.open.deep_view() == before.drop_last());
                }
                Move::Next
            },
            Tag::Opening(name) => {
                if self.segment < path.len() && *name == path[self.segment] {
                    let ghost before = self.open.deep_view();
                    self.open.push(name.clone());
                    assert(self.open.deep_view() == before.push(name@));
                    self.segment += 1;
                    if self.segment == path.len() {
                        Move::Hit
                    } else {
                        Move::Next
                    }
                } else {
                    Move::Next
                }
            },
            Tag::Other => Move::Next,
        }
    }
}

/// Whether `line` is blank or starts with a comment.
pub fn skips(line: &str) -> (r: bool)
    ensures
        r == is_skipped(line@),
{
    let t = trim(line);
    t.as_str().is_empty() || starts_with(t.as_str(), COMMENT_MARKER)
}

/// The tag at the front of `line`.
pub fn find_tag(line: &str) -> (r: Result<Tag, UpdateError>)
    ensures
        r matches Ok(tag) ==> tag@ == tag_of(line@),
        r matches Err(error) ==> error is Pattern,
        r is Err <==> tag_breaks(line@),
{
    match captures(SELF_CLOSING_TAG, line) {
        Ok(Some(groups)) => {
            return Ok(Tag::SelfClosing(group_or_empty(&groups, 2)));
        },
        Ok(None) => {},
        Err(error) => {
            return Err(UpdateError::Pattern(error));
        },
    }
    match captures(CLOSING_TAG, line) {
        Ok(Some(groups)) => {
            return Ok(Tag::Closing(group_or_empty(&groups, 2)));
        },
        Ok(None) => {},
        Err(error) => {
            return Err(UpdateError::Pattern(error));
        },
    }
    match captures(OPENING_TAG, line) {
        Ok(Some(groups)) => Ok(Tag::Opening(group_or_empty(&groups, 2))),
        Ok(None) => Ok(Tag::Other),
        Err(error) => Err(UpdateError::Pattern(error)),
    }
}

/// Once the scan has ended, reading further lines changes nothing; and once
/// it has broken, it stays broken.
pub proof fn lemma_scan_settled(lines: Seq<Seq<char>>, path: Seq<Seq<char>>, at: int, upto: int)
    requires
        0 <= at <= upto,
    ensures
        !(scan(lines, path, at).1 is Searching) ==> scan(lines, path, upto) == scan(
            lines,
            path,
            at,
        ) && breaks(lines, path, upto) == breaks(lines, path, at),
        breaks(lines, path, at) ==> breaks(lines, path, upto),
    decreases upto - at,
{
    if at < upto {
        lemma_scan_settled(lines, path, at, upto - 1);
    }
}

/// Finds the line that `path` names. The error for a self-closing element
/// comes exactly when the scan ends at one.
pub fn find_target(lines: &Vec<String>, path: &Vec<String>) -> (r: Result<
    Option<usize>,
    UpdateError,
>)
    ensures
        match r {
            Ok(Some(index)) => verdict(lines.deep_view(), path.deep_view()) == Verdict::Found(
                index as int,
            ) && index < lines.len() && trimmed(lines[index as int]@).len() > 0,
            Ok(None) => verdict(lines.deep_view(), path.deep_view()) is Searching,
            Err(UpdateError::SelfClosing) => verdict(lines.deep_view(), path.deep_view())
                is SelfClosing,
            Err(UpdateError::Pattern(_)) => true,
        },
        r matches Err(UpdateError::Pattern(_)) <==> breaks(
            lines.deep_view(),
            path.deep_view(),
            lines.len() as int,
        ),
{
    let mut cursor = Cursor::new();
    let mut i: usize = 0;
    while i < lines.len()
        invariant
            i <= lines.len(),
            path.len() > 0 ==> cursor.segment < path.len(),
            scan(lines.deep_view(), path.deep_view(), i as int) == (cursor@, Verdict::Searching),
            !breaks(lines.deep_view(), path.deep_view(), i as int),
        decreases lines.len() - i,
    {
        let line = lines[i].as_str();
        assert(lines.deep_view()[i as int] == line@);
        if !skips(line) {
            let tag = match find_tag(line) {
                Ok(tag) => tag,
                Err(error) => {
                    proof {
                        lemma_scan_settled(
                            lines.deep_view(),
                            path.deep_view(),
                            i + 1,
                            lines.len() as int,
                        );
                    }
                    return Err(error);
                },
            };
            match cursor.visit(&tag, path) {
                Move::Next => {},
                Move::Hit => {
                    proof {
                        lemma_scan_settled(
                            lines.deep_view(),
                            path.deep_view(),
                            i + 1,
                            lines.len() as int,
                        );
                    }
                    return Ok(Some(i));
                },
                Move::Refuse => {
                    proof {
                        lemma_scan_settled(
                            lines.deep_view(),
                            path.deep_view(),
                            i + 1,
                            lines.len() as int,
                        );
                    }
                    return Err(UpdateError::SelfClosing);
                },
            }
        }
        i += 1;
    }
    Ok(None)
}

/// The element's line with the text between its tags replaced by `value`.
pub fn compose_line(opening: &str, value: &str, closing: &str, rest: &str) -> (r: String)
    ensures
        r@ == opening@ + value@ + closing@ + rest@,
{
    let mut out = opening.to_string();
    out.append(value);
    out.append(closing);
    out.append(rest);
    out
}

/// The target line with the text between its tags replaced by `value`.
pub fn rewrite_line(line: &str, value: &str) -> (r: Result<String, UpdateError>)
    ensures
        r matches Ok(text) ==> text@ == rewritten(line@, value@),
        r matches Err(error) ==> error is Pattern,
        r is Err <==> !regex_compiles(ELEMENT_WITH_TEXT@),
{
    match captures(ELEMENT_WITH_TEXT, line) {
        Ok(Some(groups)) => {
            let opening = group_or_empty(&groups, 1);
            if opening.as_str().is_empty() {
                Ok(line.to_string())
            } else {
                Ok(
                    compose_line(
                        opening.as_str(),
                        value,
                        group_or_empty(&groups, 3).as_str(),
                        group_or_empty(&groups, 4).as_str(),
                    ),
                )
            }
        },
        Ok(None) => Ok(line.to_string()),
        Err(error) => Err(UpdateError::Pattern(error)),
    }
}

/// Replaces the text of the element that `path` names and returns the lines.
pub fn update_lines(lines: Vec<String>, path: &Vec<String>, value: &str) -> (r: Result<
    Vec<String>,
    UpdateError,
>)
    ensures
        match r {
            Ok(out) => !(verdict(lines.deep_view(), path.deep_view()) is SelfClosing)
                && out.deep_view() == updated_lines(lines.deep_view(), path.deep_view(), value@),
            Err(UpdateError::SelfClosing) => verdict(lines.deep_view(), path.deep_view())
                is SelfClosing,
            Err(UpdateError::Pattern(_)) => true,
        },
        r matches Err(UpdateError::Pattern(_)) <==> fails(lines.deep_view(), path.deep_view()),
        r matches Err(UpdateError::SelfClosing) <==> !fails(lines.deep_view(), path.deep_view())
            && verdict(lines.deep_view(), path.deep_view()) is SelfClosing,
{
    let found = match find_target(&lines, path) {
        Ok(found) => found,
        Err(error) => {
            return Err(error);
        },
    };
    match found {
        Some(index) => {
            let line = match rewrite_line(lines[index].as_str(), value) {
                Ok(line) => line,
                Err(error) => {
                    return Err(error);
                },
            };
            let mut out = lines;
            let ghost before = out.deep_view();
            let ghost text = line@;
            out[index] = line;
            assert(out.deep_view() == before.update(index as int, text));
            Ok(out)
        },
        None => Ok(lines),
    }
}

/// Whether the edit of a text fails for a pattern.
pub open spec fn text_fails(content: Seq<char>, node_path: Seq<char>) -> bool {
    fails(main_lines(content), split(node_path, '.'))
}

/// Whether the edit is refused because the path ends at a self-closing
/// element.
pub open spec fn is_refused(content: Seq<char>, node_path: Seq<char>) -> bool {
    verdict(main_lines(content), split(node_path, '.')) is SelfClosing
}

/// The text after the edit: the lines joined with single line feeds, and
/// after them the line feeds that stood at the end of the text.
pub open spec fn updated_text(content: Seq<char>, node_path: Seq<char>, value: Seq<char>) -> Seq<
    char,
> {
    with_tail(updated_lines(main_lines(content), split(node_path, '.'), value), content)
}

/// Replaces the text of the element that `node_path` names in the XML text
/// `content` and returns the new text. The edit is refused exactly when the
/// path ends at a self-closing element, and fails otherwise exactly when it
/// comes to a pattern that does not compile.
pub fn update_xml_node(content: &str, node_path: &str, new_value: &str) -> (r: Result<
    String,
    UpdateError,
>)
    ensures
        match r {
            Ok(text) => !is_refused(content@, node_path@) && text@ == updated_text(
                content@,
                node_path@,
                new_value@,
            ),
            Err(UpdateError::SelfClosing) => is_refused(content@, node_path@),
            Err(UpdateError::Pattern(_)) => true,
        },
        r matches Err(UpdateError::Pattern(_)) <==> text_fails(content@, node_path@),
        r matches Err(UpdateError::SelfClosing) <==> !text_fails(content@, node_path@)
            && is_refused(content@, node_path@),
{
    let (lines, tail) = cut_text(content);
    let path = split_on(node_path, '.');
    match update_lines(lines, &path, new_value) {
        Ok(out) => Ok(join_text(&out, tail.as_str())),
        Err(error) => Err(error),
    }
}

/// Where the four patterns compile, no edit fails for a pattern.
pub proof fn edit_succeeds_where_patterns_compile(lines: Seq<Seq<char>>, path: Seq<Seq<char>>)
    requires
        regex_compiles(SELF_CLOSING_TAG@),
        regex_compiles(CLOSING_TAG@),
        regex_compiles(OPENING_TAG@),
        regex_compiles(ELEMENT_WITH_TEXT@),
    ensures
        !fails(lines, path),
{
    lemma_never_breaks(lines, path, lines.len() as int);
}

/// Where the tag patterns compile, the scan never breaks.
pub proof fn lemma_never_breaks(lines: Seq<Seq<char>>, path: Seq<Seq<char>>, upto: int)
    requires
        regex_compiles(SELF_CLOSING_TAG@),
        regex_compiles(CLOSING_TAG@),
        regex_compiles(OPENING_TAG@),
    ensures
        !breaks(lines, path, upto),
    decreases upto,
{
    if upto > 0 {
        lemma_never_breaks(lines, path, upto - 1);
    }
}

/// A target lies among the lines read.
pub proof fn lemma_scan_in_range(lines: Seq<Seq<char>>, path: Seq<Seq<char>>, upto: int)
    ensures
        scan(lines, path, upto).1 matches Verdict::Found(index) ==> 0 <= index < upto,
    decreases upto,
{
    if upto > 0 {
        lemma_scan_in_range(lines, path, upto - 1);
    }
}

/// An edit keeps the number of lines.
pub proof fn line_count_is_kept(lines: Seq<Seq<char>>, path: Seq<Seq<char>>, value: Seq<char>)
    ensures
        updated_lines(lines, path, value).len() == lines.len(),
{
    lemma_scan_in_range(lines, path, lines.len() as int);
}

/// An edit changes no line but the target.
pub proof fn other_lines_are_kept(
    lines: Seq<Seq<char>>,
    path: Seq<Seq<char>>,
    value: Seq<char>,
    index: int,
)
    requires
        0 <= index < lines.len(),
        verdict(lines, path) != Verdict::Found(index),
    ensures
        updated_lines(lines, path, value)[index] == lines[index],
{
    lemma_scan_in_range(lines, path, lines.len() as int);
}

/// A path that names no element, or a self-closing one, leaves the lines as
/// they are.
pub proof fn missing_path_changes_nothing(
    lines: Seq<Seq<char>>,
    path: Seq<Seq<char>>,
    value: Seq<char>,
)
    requires
        !(verdict(lines, path) is Found),
    ensures
        updated_lines(lines, path, value) == lines,
{
}

/// The target line ends, after the edit, with the closing tag and what
/// followed it, a comment included.
pub proof fn trailing_text_is_kept(lines: Seq<Seq<char>>, path: Seq<Seq<char>>, value: Seq<char>)
    requires
        verdict(lines, path) is Found,
    ensures
        ({
            let index = verdict(lines, path)->Found_0;
            let after = updated_lines(lines, path, value)[index];
            match captured(ELEMENT_WITH_TEXT@, lines[index]) {
                Some(groups) => if group_text(groups, 1).len() > 0 {
                    group_text(groups, 1).is_prefix_of(after) && (group_text(groups, 3)
                        + group_text(groups, 4)).is_suffix_of(after)
                } else {
                    after == lines[index]
                },
                None => after == lines[index],
            }
        }),
{
    lemma_scan_in_range(lines, path, lines.len() as int);
    let index = verdict(lines, path)->Found_0;
    let after = updated_lines(lines, path, value)[index];
    match captured(ELEMENT_WITH_TEXT@, lines[index]) {
        Some(groups) => {
            let head = group_text(groups, 1);
            let tail = group_text(groups, 3) + group_text(groups, 4);
            if head.len() > 0 {
                assert(after.subrange(0, head.len() as int) =~= head);
                assert(after.subrange(after.len() - tail.len(), after.len() as int) =~= tail);
            }
        },
        None => {},
    }
}

/// Whether the line that an edit wrote is read back as the line before it
/// was: the scan ends at it again, and its tags and what follows them are
/// recognised as before.
pub open spec fn reads_back(lines: Seq<Seq<char>>, path: Seq<Seq<char>>, value: Seq<char>) -> bool {
    let once = updated_lines(lines, path, value);
    verdict(lines, path) matches Verdict::Found(index) ==> {
        &&& verdict(once, path) == verdict(lines, path)
        &&& rewritten(once[index], value) == rewritten(lines[index], value)
    }
}

/// Editing twice with the same value gives what editing once gives, as long
/// as the rewritten line is read back as the line before it was.
pub proof fn edit_is_idempotent(lines: Seq<Seq<char>>, path: Seq<Seq<char>>, value: Seq<char>)
    requires
        reads_back(lines, path, value),
    ensures
        updated_lines(updated_lines(lines, path, value), path, value) == updated_lines(
            lines,
            path,
            value,
        ),
{
    lemma_scan_in_range(lines, path, lines.len() as int);
    let once = updated_lines(lines, path, value);
    if verdict(lines, path) is Found {
        assert(updated_lines(once, path, value) =~= once);
    }
}

/// How a value is written into a file in which nothing is quoted: a number
/// as a number, anything else as it is.
pub open spec fn rendering_of(env: Seq<char>) -> RenderingModel {
    if is_float_literal(env) {
        RenderingModel::Number
    } else {
        RenderingModel::Text(env)
    }
}

/// Decides how `env` is written into a file in which nothing is quoted.
pub fn _parse_variable(env: &str) -> (r: Rendering)
    ensures
        r@ == rendering_of(env@),
{
    if is_float(env) {
        Rendering::Number
    } else {
        Rendering::Text(env.to_string())
    }
}

/// A line that fits on one line still does after a value that fits on one
/// line was written into it.
pub proof fn lemma_rewritten_is_one_line(line: Seq<char>, value: Seq<char>)
    requires
        is_one_line(line),
        is_one_line(value),
        line.len() > 0,
    ensures
        is_one_line(rewritten(line, value)),
        rewritten(line, value).len() > 0,
{
    match captured(ELEMENT_WITH_TEXT@, line) {
        Some(groups) => {
            let opening = group_text(groups, 1);
            let closing = group_text(groups, 3);
            let rest = group_text(groups, 4);
            lemma_group_is_part(ELEMENT_WITH_TEXT@, line, 1);
            lemma_group_is_part(ELEMENT_WITH_TEXT@, line, 3);
            lemma_group_is_part(ELEMENT_WITH_TEXT@, line, 4);
            lemma_part_is_free_of(opening, line, '\n');
            lemma_part_is_free_of(opening, line, '\r');
            lemma_part_is_free_of(closing, line, '\n');
            lemma_part_is_free_of(closing, line, '\r');
            lemma_part_is_free_of(rest, line, '\n');
            lemma_part_is_free_of(rest, line, '\r');
            lemma_concat_is_free_of(opening, value, '\n');
            lemma_concat_is_free_of(opening, value, '\r');
            lemma_concat_is_free_of(opening + value, closing, '\n');
            lemma_concat_is_free_of(opening + value, closing, '\r');
            lemma_concat_is_free_of(opening + value + closing, rest, '\n');
            lemma_concat_is_free_of(opening + value + closing, rest, '\r');
        },
        None => {},
    }
}

/// The lines of the text after an edit are the lines of the text before it
/// with the edit made in them, and as many line feeds stand at its end. This
/// holds for a text without carriage returns and a value that fits on one
/// line.
pub proof fn text_follows_lines(content: Seq<char>, node_path: Seq<char>, value: Seq<char>)
    requires
        is_free_of(content, '\r'),
        is_one_line(value),
    ensures
        main_lines(updated_text(content, node_path, value)) == updated_lines(
            main_lines(content),
            split(node_path, '.'),
            value,
        ),
        lines_of(updated_text(content, node_path, value)).len() == lines_of(content).len(),
        is_free_of(updated_text(content, node_path, value), '\r'),
        with_tail(
            updated_lines(main_lines(content), split(node_path, '.'), value),
            updated_text(content, node_path, value),
        ) == updated_text(content, node_path, value),
{
    let lines = main_lines(content);
    let path = split(node_path, '.');
    lemma_main_lines(content);
    lemma_scan_in_range(lines, path, lines.len() as int);
    let after = updated_lines(lines, path, value);
    match verdict(lines, path) {
        Verdict::Found(at) => {
            lemma_found_line_is_not_blank(lines, path, lines.len() as int);
            lemma_rewritten_is_one_line(lines[at], value);
            assert forall|i: int| 0 <= i < after.len() implies is_one_line(
                #[trigger] after[i],
            ) by {
                if i != at {
                    assert(after[i] == lines[i]);
                }
            }
        },
        _ => {},
    }
    lemma_rejoined(after, content);
    lemma_line_count_with_tail(after, content);
}

/// A path that names no element gives back the text as it was, for a text
/// without carriage returns.
pub proof fn missing_path_returns_the_text(
    content: Seq<char>,
    node_path: Seq<char>,
    value: Seq<char>,
)
    requires
        is_free_of(content, '\r'),
        !(verdict(main_lines(content), split(node_path, '.')) is Found),
    ensures
        updated_text(content, node_path, value) == content,
{
    lemma_main_lines(content);
}

/// The line at which a scan ends is not blank.
pub proof fn lemma_found_line_is_not_blank(
    lines: Seq<Seq<char>>,
    path: Seq<Seq<char>>,
    upto: int,
)
    ensures
        scan(lines, path, upto).1 matches Verdict::Found(index) ==> lines[index].len() > 0,
    decreases upto,
{
    if upto > 0 {
        lemma_found_line_is_not_blank(lines, path, upto - 1);
        let line = lines[upto - 1];
        if line.len() == 0 {
            lemma_run_length(line, space());
            assert(trimmed(line).len() == 0);
        }
    }
}

/// Editing the text twice with the same value gives what editing it once
/// gives, as long as the rewritten line is read back as the line before it
/// was. This holds for a text without carriage returns and a value that fits
/// on one line.
pub proof fn edit_of_text_is_idempotent(
    content: Seq<char>,
    node_path: Seq<char>,
    value: Seq<char>,
)
    requires
        is_free_of(content, '\r'),
        is_one_line(value),
        reads_back(main_lines(content), split(node_path, '.'), value),
    ensures
        updated_text(updated_text(content, node_path, value), node_path, value) == updated_text(
            content,
            node_path,
            value,
        ),
{
    text_follows_lines(content, node_path, value);
    edit_is_idempotent(main_lines(content), split(node_path, '.'), value);
}

/// A line with a value written into it holds no line feed if neither the
/// line nor the value holds one, and it is not empty if the line is not.
pub proof fn lemma_rewritten_has_no_line_feed(line: Seq<char>, value: Seq<char>)
    requires
        is_free_of(line, '\n'),
        is_free_of(value, '\n'),
        line.len() > 0,
    ensures
        is_free_of(rewritten(line, value), '\n'),
        rewritten(line, value).len() > 0,
{
    match captured(ELEMENT_WITH_TEXT@, line) {
        Some(groups) => {
            let opening = group_text(groups, 1);
            let closing = group_text(groups, 3);
            let rest = group_text(groups, 4);
            lemma_group_is_part(ELEMENT_WITH_TEXT@, line, 1);
            lemma_group_is_part(ELEMENT_WITH_TEXT@, line, 3);
            lemma_group_is_part(ELEMENT_WITH_TEXT@, line, 4);
            lemma_part_is_free_of(opening, line, '\n');
            lemma_part_is_free_of(closing, line, '\n');
            lemma_part_is_free_of(rest, line, '\n');
            lemma_concat_is_free_of(opening, value, '\n');
            lemma_concat_is_free_of(opening + value, closing, '\n');
            lemma_concat_is_free_of(opening + value + closing, rest, '\n');
        },
        None => {},
    }
}

/// An edit keeps the number of lines of any text, and the number of line
/// feeds at its end, for a value without line feeds.
pub proof fn line_count_of_text_is_kept(
    content: Seq<char>,
    node_path: Seq<char>,
    value: Seq<char>,
)
    requires
        is_free_of(value, '\n'),
    ensures
        lines_of(updated_text(content, node_path, value)).len() == lines_of(content).len(),
        tail_feeds(updated_text(content, node_path, value)) == tail_feeds(content),
{
    let lines = main_lines(content);
    let path = split(node_path, '.');
    lemma_main_lines_of_any_text(content);
    lemma_scan_in_range(lines, path, lines.len() as int);
    let after = updated_lines(lines, path, value);
    match verdict(lines, path) {
        Verdict::Found(at) => {
            lemma_found_line_is_not_blank(lines, path, lines.len() as int);
            lemma_rewritten_has_no_line_feed(lines[at], value);
            assert forall|i: int| 0 <= i < after.len() implies is_free_of(
                #[trigger] after[i],
                '\n',
            ) by {
                if i != at {
                    assert(after[i] == lines[i]);
                }
            }
        },
        _ => {},
    }
    lemma_line_count_of_any_text(after, content);
}

} // verus!
