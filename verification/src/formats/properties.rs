//! Properties files: flat `key = value` lines. The value is replaced
//! letter for letter; the whitespace around it and the comment after it stay.

use crate::error::UpdateError;
use crate::text::{
    chars_of, count_leading_whitespace, count_trailing_whitespace, cut_text, find_char,
    first_index_of, is_free_of, is_one_line, is_space, join_text, leading_spaces,
    lemma_concat_is_free_of, lemma_line_count_of_any_text, lemma_line_count_with_tail,
    lemma_main_lines, lemma_main_lines_of_any_text, lemma_rejoined, lemma_run_length,
    lemma_run_length_is, lemma_subrange_is_free_of, lemma_tail_run_length,
    lemma_tail_run_length_is, lines_of, main_lines, other_than, same_text, space, starts_with,
    tail_feeds, text_between, trailing_spaces, trim, trim_start, trimmed, with_tail,
};
use vstd::prelude::*;
use vstd::string::*;

verus! {

/// A line that is blank or holds nothing but a comment.
pub open spec fn is_skipped(line: Seq<char>) -> bool {
    trimmed(line).len() == 0 || "#"@.is_prefix_of(trimmed(line))
}

/// The key of a line: what stands before its first `=`, trimmed. A line
/// without `=` has no key.
pub open spec fn key_of(line: Seq<char>) -> Option<Seq<char>> {
    let at = first_index_of(line, '=');
    if 0 <= at < line.len() {
        Some(trimmed(line.take(at)))
    } else {
        None
    }
}

/// Whether `line` assigns to `key`.
pub open spec fn assigns(line: Seq<char>, key: Seq<char>) -> bool {
    !is_skipped(line) && key_of(line) == Some(key)
}

/// The index of the first of the first `upto` lines that assigns to `key`.
pub open spec fn first_assignment(lines: Seq<Seq<char>>, key: Seq<char>, upto: int) -> Option<int>
    decreases upto,
{
    if upto <= 0 {
        None
    } else if first_assignment(lines, key, upto - 1) is Some {
        first_assignment(lines, key, upto - 1)
    } else if assigns(lines[upto - 1], key) {
        Some(upto - 1)
    } else {
        None
    }
}

/// The index of the first line that assigns to `key`.
pub open spec fn target(lines: Seq<Seq<char>>, key: Seq<char>) -> Option<int> {
    first_assignment(lines, key, lines.len() as int)
}

/// Where the comment starts in `rest`, or `rest.len()` when there is none. A
/// `#` starts a comment unless it stands between double quotes or right after
/// a backslash. `quoted` and `escaped` say how the text before `rest` left
/// the reader.
pub open spec fn comment_start(rest: Seq<char>, quoted: bool, escaped: bool) -> int
    decreases rest.len(),
{
    if rest.len() == 0 {
        0
    } else if escaped {
        1 + comment_start(rest.skip(1), quoted, false)
    } else if rest[0] == '\\' {
        1 + comment_start(rest.skip(1), quoted, true)
    } else if rest[0] == '"' {
        1 + comment_start(rest.skip(1), !quoted, false)
    } else if rest[0] == '#' && !quoted {
        0
    } else {
        1 + comment_start(rest.skip(1), quoted, false)
    }
}

/// The parts of an assignment line.
pub struct Parts {
    /// The line up to its first `=`.
    pub key: Seq<char>,
    /// The whitespace between `=` and the value.
    pub leading: Seq<char>,
    /// The whitespace between the value and the comment or the end.
    pub trailing: Seq<char>,
    /// The comment, from its `#` on.
    pub comment: Seq<char>,
}

/// The parts of a line that holds `=`.
pub open spec fn parts_of(line: Seq<char>) -> Parts {
    let at = first_index_of(line, '=');
    let after = line.skip(at + 1);
    let cut = comment_start(after, false, false);
    let value = after.take(cut);
    Parts {
        key: line.take(at),
        leading: value.take(leading_spaces(value)),
        trailing: value.skip(value.len() - trailing_spaces(value)),
        comment: after.skip(cut),
    }
}

/// An assignment line put together from its parts. An empty value gets no
/// whitespace after it.
pub open spec fn composed(
    key: Seq<char>,
    leading: Seq<char>,
    value: Seq<char>,
    trailing: Seq<char>,
    comment: Seq<char>,
) -> Seq<char> {
    key + "="@ + leading + value + (if value.len() == 0 {
        Seq::empty()
    } else {
        trailing
    }) + comment
}

/// A line with its value replaced. A line without `=` stays as it is.
pub open spec fn rewritten(line: Seq<char>, value: Seq<char>) -> Seq<char> {
    if key_of(line) is Some {
        let parts = parts_of(line);
        composed(parts.key, parts.leading, value, parts.trailing, parts.comment)
    } else {
        line
    }
}

/// The lines after the edit.
pub open spec fn updated_lines(lines: Seq<Seq<char>>, key: Seq<char>, value: Seq<char>) -> Seq<
    Seq<char>,
> {
    match target(lines, key) {
        Some(index) => lines.update(index, rewritten(lines[index], value)),
        None => lines,
    }
}

/// Whether `line` is blank or holds nothing but a comment.
pub fn skips(line: &str) -> (r: bool)
    ensures
        r == is_skipped(line@),
{
    let t = trim(line);
    t.as_str().is_empty() || starts_with(t.as_str(), "#")
}

/// Whether `line` assigns to `key`.
pub fn is_assignment(line: &str, key: &str) -> (r: bool)
    ensures
        r == assigns(line@, key@),
{
    if skips(line) {
        return false;
    }
    let chars = chars_of(line);
    let at = find_char(&chars, '=');
    if at < chars.len() {
        let before = text_between(&chars, 0, at);
        let name = trim(before.as_str());
        same_text(name.as_str(), key)
    } else {
        false
    }
}

/// Once an assignment is found, reading further lines changes nothing.
pub proof fn lemma_first_assignment_settled(
    lines: Seq<Seq<char>>,
    key: Seq<char>,
    at: int,
    upto: int,
)
    requires
        0 <= at <= upto,
        first_assignment(lines, key, at) is Some,
    ensures
        first_assignment(lines, key, upto) == first_assignment(lines, key, at),
    decreases upto - at,
{
    if at < upto {
        lemma_first_assignment_settled(lines, key, at, upto - 1);
    }
}

/// The index of the first line that assigns to `key`.
pub fn find_target(lines: &Vec<String>, key: &str) -> (r: Option<usize>)
    ensures
        match r {
            Some(index) => target(lines.deep_view(), key@) == Some(index as int) && index
                < lines.len() && assigns(lines[index as int]@, key@),
            None => target(lines.deep_view(), key@) is None,
        },
{
    let mut i: usize = 0;
    while i < lines.len()
        invariant
            i <= lines.len(),
            first_assignment(lines.deep_view(), key@, i as int) is None,
        decreases lines.len() - i,
    {
        assert(lines.deep_view()[i as int] == lines[i as int]@);
        if is_assignment(lines[i].as_str(), key) {
            proof {
                lemma_first_assignment_settled(
                    lines.deep_view(),
                    key@,
                    i + 1,
                    lines.len() as int,
                );
            }
            return Some(i);
        }
        i += 1;
    }
    None
}

/// Where the comment starts in `chars[from..]`, as a position in `chars`.
pub fn find_comment(chars: &Vec<char>, from: usize) -> (at: usize)
    requires
        from <= chars.len(),
    ensures
        from <= at <= chars.len(),
        at - from == comment_start(chars@.skip(from as int), false, false),
{
    let mut quoted = false;
    let mut escaped = false;
    let mut i: usize = from;
    let ghost all = chars@.skip(from as int);
    assert(all.skip(0) == all);
    while i < chars.len()
        invariant
            from <= i <= chars.len(),
            all == chars@.skip(from as int),
            comment_start(all, false, false) == (i - from) + comment_start(
                all.skip(i - from),
                quoted,
                escaped,
            ),
        decreases chars.len() - i,
    {
        let ghost rest = all.skip(i - from);
        assert(rest[0] == chars@[i as int]);
        assert(rest.skip(1) == all.skip(i + 1 - from));
        let c = chars[i];
        if escaped {
            escaped = false;
        } else if c == '\\' {
            escaped = true;
        } else if c == '"' {
            quoted = !quoted;
        } else if c == '#' && !quoted {
            return i;
        }
        i += 1;
    }
    i
}

/// Puts an assignment line together from its parts.
pub fn compose_line(key: &str, leading: &str, value: &str, trailing: &str, comment: &str) -> (r:
    String)
    ensures
        r@ == composed(key@, leading@, value@, trailing@, comment@),
{
    let mut out = key.to_string();
    out.append("=");
    out.append(leading);
    out.append(value);
    if !value.is_empty() {
        out.append(trailing);
    } else {
        assert(out@ + Seq::<char>::empty() == out@);
    }
    out.append(comment);
    out
}

/// A line with its value replaced by `value`.
pub fn rewrite_line(line: &str, value: &str) -> (r: String)
    ensures
        r@ == rewritten(line@, value@),
{
    let chars = chars_of(line);
    let n = chars.len();
    let at = find_char(&chars, '=');
    if at == n {
        return line.to_string();
    }
    let cut = find_comment(&chars, at + 1);
    let key = text_between(&chars, 0, at);
    let value_part = text_between(&chars, at + 1, cut);
    let comment = text_between(&chars, cut, n);
    let ghost after = line@.skip(at + 1);
    assert(value_part@ == after.take(cut - (at + 1)));
    assert(comment@ == after.skip(cut - (at + 1)));
    let part = chars_of(value_part.as_str());
    let lead = count_leading_whitespace(&part);
    let trail = count_trailing_whitespace(&part);
    let leading = text_between(&part, 0, lead);
    let trailing = text_between(&part, part.len() - trail, part.len());
    compose_line(key.as_str(), leading.as_str(), value, trailing.as_str(), comment.as_str())
}

/// Replaces the value of `key` and returns the lines.
pub fn update_lines(lines: Vec<String>, key: &str, value: &str) -> (out: Vec<String>)
    ensures
        out.deep_view() == updated_lines(lines.deep_view(), key@, value@),
{
    match find_target(&lines, key) {
        Some(index) => {
            let line = rewrite_line(lines[index].as_str(), value);
            let mut out = lines;
            let ghost before = out.deep_view();
            let ghost text = line@;
            out[index] = line;
            assert(out.deep_view() == before.update(index as int, text));
            out
        },
        None => lines,
    }
}

/// The text after the edit: the lines joined with single line feeds, and
/// after them the line feeds that stood at the end of the text.
pub open spec fn updated_text(content: Seq<char>, key: Seq<char>, value: Seq<char>) -> Seq<char> {
    with_tail(updated_lines(main_lines(content), key, value), content)
}

/// Replaces the value of `key` in the properties text `content` and returns
/// the new text. Nothing is ever quoted.
pub fn update_properties_node(content: &str, key: &str, new_value: &str) -> (r: Result<
    String,
    UpdateError,
>)
    ensures
        r matches Ok(text) && text@ == updated_text(content@, key@, new_value@),
{
    let (lines, tail) = cut_text(content);
    let out = update_lines(lines, key, new_value);
    Ok(join_text(&out, tail.as_str()))
}

/// A target lies among the lines read and assigns to the key.
pub proof fn lemma_target_in_range(lines: Seq<Seq<char>>, key: Seq<char>, upto: int)
    ensures
        first_assignment(lines, key, upto) matches Some(index) ==> 0 <= index < upto && assigns(
            lines[index],
            key,
        ),
    decreases upto,
{
    if upto > 0 {
        lemma_target_in_range(lines, key, upto - 1);
    }
}

/// An edit keeps the number of lines.
pub proof fn line_count_is_kept(lines: Seq<Seq<char>>, key: Seq<char>, value: Seq<char>)
    ensures
        updated_lines(lines, key, value).len() == lines.len(),
{
    lemma_target_in_range(lines, key, lines.len() as int);
}

/// An edit changes no line but the target.
pub proof fn other_lines_are_kept(
    lines: Seq<Seq<char>>,
    key: Seq<char>,
    value: Seq<char>,
    index: int,
)
    requires
        0 <= index < lines.len(),
        target(lines, key) != Some(index),
    ensures
        updated_lines(lines, key, value)[index] == lines[index],
{
    lemma_target_in_range(lines, key, lines.len() as int);
}

/// A key that no line assigns to leaves the lines as they are.
pub proof fn missing_key_changes_nothing(lines: Seq<Seq<char>>, key: Seq<char>, value: Seq<char>)
    requires
        target(lines, key) is None,
    ensures
        updated_lines(lines, key, value) == lines,
{
}

/// The target line keeps what stood before its `=` and ends with the comment
/// it had.
pub proof fn comment_is_kept(lines: Seq<Seq<char>>, key: Seq<char>, value: Seq<char>)
    requires
        target(lines, key) is Some,
    ensures
        ({
            let index = target(lines, key)->0;
            let after = updated_lines(lines, key, value)[index];
            parts_of(lines[index]).key.is_prefix_of(after) && parts_of(
                lines[index],
            ).comment.is_suffix_of(after)
        }),
{
    lemma_target_in_range(lines, key, lines.len() as int);
    let index = target(lines, key).unwrap();
    let after = updated_lines(lines, key, value)[index];
    let parts = parts_of(lines[index]);
    assert(after.subrange(0, parts.key.len() as int) =~= parts.key);
    assert(after.subrange(after.len() - parts.comment.len(), after.len() as int)
        =~= parts.comment);
}

/// A value that reads back as it was written: it holds no `#`, no double
/// quote and no backslash, and neither starts nor ends with whitespace.
pub open spec fn is_plain(value: Seq<char>) -> bool {
    &&& forall|i: int|
        0 <= i < value.len() ==> value[i] != '#' && value[i] != '"' && value[i] != '\\'
    &&& value.len() > 0 ==> !is_space(value.first()) && !is_space(value.last())
}

/// A comment starts at a `#`.
pub proof fn lemma_comment_starts_at_hash(rest: Seq<char>, quoted: bool, escaped: bool)
    ensures
        0 <= comment_start(rest, quoted, escaped) <= rest.len(),
        comment_start(rest, quoted, escaped) < rest.len() ==> rest[comment_start(
            rest,
            quoted,
            escaped,
        )] == '#',
    decreases rest.len(),
{
    if rest.len() > 0 {
        lemma_comment_starts_at_hash(rest.skip(1), quoted, false);
        lemma_comment_starts_at_hash(rest.skip(1), quoted, true);
        lemma_comment_starts_at_hash(rest.skip(1), !quoted, false);
    }
}

/// After text without `#`, quotes and backslashes, a comment that follows
/// starts where the text ends.
pub proof fn lemma_comment_after_plain(text: Seq<char>, comment: Seq<char>)
    requires
        forall|i: int|
            0 <= i < text.len() ==> text[i] != '#' && text[i] != '"' && text[i] != '\\',
        comment.len() == 0 || comment[0] == '#',
    ensures
        comment_start(text + comment, false, false) == text.len(),
    decreases text.len(),
{
    let all = text + comment;
    if text.len() == 0 {
        assert(all == comment);
    } else {
        assert(all[0] == text[0]);
        assert(all.skip(1) == text.skip(1) + comment);
        assert forall|i: int| 0 <= i < text.skip(1).len() implies text.skip(1)[i] != '#'
            && text.skip(1)[i] != '"' && text.skip(1)[i] != '\\' by {
            assert(text.skip(1)[i] == text[i + 1]);
        }
        lemma_comment_after_plain(text.skip(1), comment);
    }
}

/// What the parts of an assignment line are made of: the key holds no `=`,
/// the two runs of whitespace are whitespace, and the comment starts at `#`.
pub proof fn lemma_parts(line: Seq<char>)
    requires
        key_of(line) is Some,
    ensures
        forall|i: int| 0 <= i < parts_of(line).key.len() ==> parts_of(line).key[i] != '=',
        forall|i: int| 0 <= i < parts_of(line).leading.len() ==> is_space(parts_of(line).leading[i]),
        forall|i: int|
            0 <= i < parts_of(line).trailing.len() ==> is_space(parts_of(line).trailing[i]),
        parts_of(line).comment.len() == 0 || parts_of(line).comment[0] == '#',
        parts_of(line).key == line.take(first_index_of(line, '=')),
{
    let at = first_index_of(line, '=');
    lemma_run_length(line, other_than('='));
    let after = line.skip(at + 1);
    let cut = comment_start(after, false, false);
    lemma_comment_starts_at_hash(after, false, false);
    let value = after.take(cut);
    lemma_run_length(value, space());
    lemma_tail_run_length(value, space());
    let parts = parts_of(line);
    assert forall|i: int| 0 <= i < parts.key.len() implies parts.key[i] != '=' by {
        assert(other_than('=')(line[i]));
    }
    assert forall|i: int| 0 <= i < parts.leading.len() implies is_space(parts.leading[i]) by {
        assert(space()(value[i]));
    }
    assert forall|i: int| 0 <= i < parts.trailing.len() implies is_space(parts.trailing[i]) by {
        assert(space()(value[value.len() - trailing_spaces(value) + i]));
    }
}

/// The parts of a line that was put together from parts, for a plain value.
pub proof fn lemma_parts_of_composed(
    key: Seq<char>,
    leading: Seq<char>,
    value: Seq<char>,
    trailing: Seq<char>,
    comment: Seq<char>,
)
    requires
        forall|i: int| 0 <= i < key.len() ==> key[i] != '=',
        forall|i: int| 0 <= i < leading.len() ==> is_space(leading[i]),
        forall|i: int| 0 <= i < trailing.len() ==> is_space(trailing[i]),
        comment.len() == 0 || comment[0] == '#',
        is_plain(value),
    ensures
        ({
            let line = composed(key, leading, value, trailing, comment);
            let kept = if value.len() == 0 {
                Seq::empty()
            } else {
                trailing
            };
            &&& first_index_of(line, '=') == key.len()
            &&& key_of(line) is Some
            &&& parts_of(line).key == key
            &&& parts_of(line).leading == leading
            &&& value.len() > 0 ==> parts_of(line).trailing == kept
            &&& parts_of(line).comment == comment
            &&& rewritten(line, value) == line
        }),
{
    reveal_strlit("=");
    let kept = if value.len() == 0 {
        Seq::<char>::empty()
    } else {
        trailing
    };
    let line = composed(key, leading, value, trailing, comment);
    let body = leading + value + kept;
    assert(line =~= key + seq!['='] + (body + comment));
    assert forall|j: int| 0 <= j < key.len() implies other_than('=')(#[trigger] line[j]) by {
        assert(line[j] == key[j]);
    }
    assert(line[key.len() as int] == '=');
    lemma_run_length_is(line, other_than('='), key.len() as int);
    let at = first_index_of(line, '=');
    assert(line.take(at) =~= key);
    let after = line.skip(at + 1);
    assert(after =~= body + comment);
    assert forall|i: int| 0 <= i < body.len() implies body[i] != '#' && body[i] != '"' && body[i]
        != '\\' by {
        if i < leading.len() {
            assert(body[i] == leading[i]);
        } else if i < leading.len() + value.len() {
            assert(body[i] == value[i - leading.len()]);
        } else {
            assert(body[i] == kept[i - leading.len() - value.len()]);
        }
    }
    lemma_comment_after_plain(body, comment);
    let cut = comment_start(after, false, false);
    assert(after.take(cut) =~= body);
    assert(after.skip(cut) =~= comment);
    assert forall|j: int| 0 <= j < leading.len() implies space()(#[trigger] body[j]) by {
        assert(body[j] == leading[j]);
    }
    if value.len() > 0 {
        assert(body[leading.len() as int] == value[0]);
        lemma_run_length_is(body, space(), leading.len() as int);
        assert forall|j: int| body.len() - kept.len() <= j < body.len() implies space()(
            #[trigger] body[j],
        ) by {
            assert(body[j] == kept[j - leading.len() - value.len()]);
        }
        assert(body[body.len() - kept.len() - 1] == value.last());
        lemma_tail_run_length_is(body, space(), kept.len() as int);
        assert(body.skip(body.len() - kept.len()) =~= kept);
    } else {
        assert(body =~= leading);
        lemma_run_length_is(body, space(), leading.len() as int);
    }
    assert(body.take(leading.len() as int) =~= leading);
    let parts = parts_of(line);
    assert(parts.key == key);
    assert(parts.leading == leading);
    assert(parts.comment == comment);
    assert(composed(parts.key, parts.leading, value, parts.trailing, parts.comment) =~= line);
}

/// A line that assigns to a key still assigns to it after its value was
/// replaced.
pub proof fn lemma_rewritten_assigns(line: Seq<char>, key: Seq<char>, value: Seq<char>)
    requires
        assigns(line, key),
        is_plain(value),
    ensures
        assigns(rewritten(line, value), key),
        rewritten(rewritten(line, value), value) == rewritten(line, value),
{
    reveal_strlit("=");
    reveal_strlit("#");
    let parts = parts_of(line);
    lemma_parts(line);
    lemma_parts_of_composed(parts.key, parts.leading, value, parts.trailing, parts.comment);
    let after = rewritten(line, value);
    let at = first_index_of(line, '=');
    lemma_run_length(line, other_than('='));
    assert(after.take(at) =~= line.take(at));
    // Both lines start alike up to and including the `=`.
    assert forall|j: int| 0 <= j <= at implies #[trigger] after[j] == line[j] by {
        if j < at {
            assert(after[j] == parts.key[j]);
        }
    }
    lemma_run_length(line, space());
    let lead = leading_spaces(line);
    assert(lead <= at) by {
        if lead > at {
            assert(space()(line[at]));
        }
    }
    assert forall|j: int| 0 <= j < lead implies space()(#[trigger] after[j]) by {
        assert(space()(line[j]));
    }
    lemma_run_length_is(after, space(), lead);
    lemma_first_of_trimmed(line);
    lemma_first_of_trimmed(after);
    assert("#"@.is_prefix_of(trimmed(after)) == "#"@.is_prefix_of(trimmed(line))) by {
        let a = trimmed(after);
        let b = trimmed(line);
        if a[0] == '#' {
            assert(a.subrange(0, 1) =~= "#"@);
            assert(b.subrange(0, 1) =~= "#"@);
        } else {
            if "#"@.is_prefix_of(a) {
                assert(a.subrange(0, 1)[0] == '#');
            }
            if "#"@.is_prefix_of(b) {
                assert(b.subrange(0, 1)[0] == '#');
            }
        }
    }
}

/// A text with a character that is not whitespace keeps, when trimmed, its
/// first such character at the front.
pub proof fn lemma_first_of_trimmed(s: Seq<char>)
    requires
        leading_spaces(s) < s.len(),
    ensures
        trimmed(s).len() > 0,
        trimmed(s)[0] == s[leading_spaces(s)],
{
    lemma_run_length(s, space());
    let rest = trim_start(s);
    assert(rest[0] == s[leading_spaces(s)]);
    lemma_tail_run_length(rest, space());
    if trailing_spaces(rest) == rest.len() {
        assert(space()(rest[0]));
    }
}

/// Nothing before the target assigns to the key.
pub proof fn lemma_none_before_target(lines: Seq<Seq<char>>, key: Seq<char>, upto: int, at: int)
    requires
        first_assignment(lines, key, upto) == Some(at),
        0 <= at,
    ensures
        first_assignment(lines, key, at) is None,
        at < upto,
        assigns(lines[at], key),
    decreases upto,
{
    if upto > 0 {
        if first_assignment(lines, key, upto - 1) is Some {
            lemma_none_before_target(lines, key, upto - 1, at);
        } else {
            assert(at == upto - 1);
        }
    }
}

/// Two lists of lines that agree up to `upto` have the same first
/// assignment among those lines.
pub proof fn lemma_first_assignment_of_equal_lines(
    a: Seq<Seq<char>>,
    b: Seq<Seq<char>>,
    key: Seq<char>,
    upto: int,
)
    requires
        forall|i: int| 0 <= i < upto ==> a[i] == b[i],
    ensures
        first_assignment(a, key, upto) == first_assignment(b, key, upto),
    decreases upto,
{
    if upto > 0 {
        lemma_first_assignment_of_equal_lines(a, b, key, upto - 1);
    }
}

/// Editing twice with the same plain value gives what editing once gives.
pub proof fn edit_is_idempotent(lines: Seq<Seq<char>>, key: Seq<char>, value: Seq<char>)
    requires
        is_plain(value),
    ensures
        updated_lines(updated_lines(lines, key, value), key, value) == updated_lines(
            lines,
            key,
            value,
        ),
{
    match target(lines, key) {
        Some(at) => {
            let n = lines.len() as int;
            lemma_target_in_range(lines, key, n);
            lemma_none_before_target(lines, key, n, at);
            let once = updated_lines(lines, key, value);
            lemma_rewritten_assigns(lines[at], key, value);
            lemma_first_assignment_of_equal_lines(lines, once, key, at);
            assert(first_assignment(once, key, at + 1) == Some(at));
            lemma_first_assignment_settled(once, key, at + 1, n);
            assert(target(once, key) == Some(at));
            assert(updated_lines(once, key, value) =~= once);
        },
        None => {},
    }
}

/// A line that fits on one line still does after a value that fits on one
/// line was written into it, and it is not empty.
pub proof fn lemma_rewritten_is_one_line(line: Seq<char>, value: Seq<char>, c: char)
    requires
        key_of(line) is Some,
        is_free_of(line, c),
        is_free_of(value, c),
        c != '=',
    ensures
        is_free_of(rewritten(line, value), c),
        rewritten(line, value).len() > 0,
{
    reveal_strlit("=");
    let at = first_index_of(line, '=');
    lemma_run_length(line, other_than('='));
    let after = line.skip(at + 1);
    lemma_comment_starts_at_hash(after, false, false);
    let cut = comment_start(after, false, false);
    let part = after.take(cut);
    lemma_run_length(part, space());
    lemma_tail_run_length(part, space());
    let parts = parts_of(line);
    lemma_subrange_is_free_of(line, 0, at, c);
    lemma_subrange_is_free_of(line, at + 1, line.len() as int, c);
    lemma_subrange_is_free_of(after, 0, cut, c);
    lemma_subrange_is_free_of(after, cut, after.len() as int, c);
    lemma_subrange_is_free_of(part, 0, leading_spaces(part), c);
    lemma_subrange_is_free_of(part, part.len() - trailing_spaces(part), part.len() as int, c);
    let kept = if value.len() == 0 {
        Seq::<char>::empty()
    } else {
        parts.trailing
    };
    assert(is_free_of("="@, c));
    lemma_concat_is_free_of(parts.key, "="@, c);
    lemma_concat_is_free_of(parts.key + "="@, parts.leading, c);
    lemma_concat_is_free_of(parts.key + "="@ + parts.leading, value, c);
    lemma_concat_is_free_of(parts.key + "="@ + parts.leading + value, kept, c);
    lemma_concat_is_free_of(
        parts.key + "="@ + parts.leading + value + kept,
        parts.comment,
        c,
    );
}

/// The lines of the text after an edit are the lines of the text before it
/// with the edit made in them, and as many line feeds stand at its end. This
/// holds for a text without carriage returns and a value that fits on one
/// line.
pub proof fn text_follows_lines(content: Seq<char>, key: Seq<char>, value: Seq<char>)
    requires
        is_free_of(content, '\r'),
        is_one_line(value),
    ensures
        main_lines(updated_text(content, key, value)) == updated_lines(
            main_lines(content),
            key,
            value,
        ),
        lines_of(updated_text(content, key, value)).len() == lines_of(content).len(),
        is_free_of(updated_text(content, key, value), '\r'),
        with_tail(
            updated_lines(main_lines(content), key, value),
            updated_text(content, key, value),
        ) == updated_text(content, key, value),
{
    let lines = main_lines(content);
    lemma_main_lines(content);
    lemma_target_in_range(lines, key, lines.len() as int);
    let after = updated_lines(lines, key, value);
    match target(lines, key) {
        Some(at) => {
            lemma_rewritten_is_one_line(lines[at], value, '\n');
            lemma_rewritten_is_one_line(lines[at], value, '\r');
            assert forall|i: int| 0 <= i < after.len() implies is_one_line(
                #[trigger] after[i],
            ) by {
                if i != at {
                    assert(after[i] == lines[i]);
                }
            }
        },
        None => {},
    }
    lemma_rejoined(after, content);
    lemma_line_count_with_tail(after, content);
}

/// Editing the text twice with the same plain value gives what editing it
/// once gives, for a text without carriage returns and a value that fits on
/// one line.
pub proof fn edit_of_text_is_idempotent(content: Seq<char>, key: Seq<char>, value: Seq<char>)
    requires
        is_free_of(content, '\r'),
        is_one_line(value),
        is_plain(value),
    ensures
        updated_text(updated_text(content, key, value), key, value) == updated_text(
            content,
            key,
            value,
        ),
{
    text_follows_lines(content, key, value);
    edit_is_idempotent(main_lines(content), key, value);
}

/// A key that no line assigns to gives back the text as it was, for a text
/// without carriage returns.
pub proof fn missing_key_returns_the_text(content: Seq<char>, key: Seq<char>, value: Seq<char>)
    requires
        is_free_of(content, '\r'),
        target(main_lines(content), key) is None,
    ensures
        updated_text(content, key, value) == content,
{
    lemma_main_lines(content);
}

/// An edit keeps the number of lines of any text, and the number of line
/// feeds at its end, for a value without line feeds.
pub proof fn line_count_of_text_is_kept(content: Seq<char>, key: Seq<char>, value: Seq<char>)
    requires
        is_free_of(value, '\n'),
    ensures
        lines_of(updated_text(content, key, value)).len() == lines_of(content).len(),
        tail_feeds(updated_text(content, key, value)) == tail_feeds(content),
{
    let lines = main_lines(content);
    lemma_main_lines_of_any_text(content);
    lemma_target_in_range(lines, key, lines.len() as int);
    let after = updated_lines(lines, key, value);
    match target(lines, key) {
        Some(at) => {
            lemma_rewritten_is_one_line(lines[at], value, '\n');
            assert forall|i: int| 0 <= i < after.len() implies is_free_of(
                #[trigger] after[i],
                '\n',
            ) by {
                if i != at {
                    assert(after[i] == lines[i]);
                }
            }
        },
        None => {},
    }
    lemma_line_count_of_any_text(after, content);
}

} // verus!
