//! The value on a key line: where it ends, and what stays when it is
//! replaced. A line is the part before its value, the value, and what
//! follows the value: whitespace, in some formats a comma, and a comment.
//! Replacing the value keeps the other two parts letter for letter.

use crate::text::{
    chars_of, count_trailing_whitespace, is_free_of, is_one_line, lemma_concat_is_free_of,
    lemma_subrange_is_free_of, lemma_tail_run_length, space, text_between, trailing_spaces,
};
use vstd::prelude::*;
use vstd::string::*;

verus! {

/// What ends a value in a format, and how the value stands on its line.
#[derive(Clone, Copy, Debug, PartialEq, Eq)]
pub struct Syntax {
    /// `#` starts a comment.
    pub hash: bool,
    /// `//` starts a comment.
    pub slashes: bool,
    /// Single quotes hold a string, as double quotes always do.
    pub single: bool,
    /// A comma after the value is not part of it.
    pub comma: bool,
    /// A quote opens a string only at the front of the value.
    pub front_only: bool,
    /// Whitespace must stand between the sign and the value, and between the
    /// value and a comment.
    pub spaced: bool,
}

/// Whether a comment starts at the front of `rest`.
pub open spec fn opens_comment(rest: Seq<char>, syntax: Syntax) -> bool {
    rest.len() > 0 && ((syntax.hash && rest[0] == '#') || (syntax.slashes && rest.len() >= 2
        && rest[0] == '/' && rest[1] == '/'))
}

/// Whether `c` is a quote that can open a string.
pub open spec fn is_quote(c: char, syntax: Syntax) -> bool {
    c == '"' || (syntax.single && c == '\'')
}

/// The position in `text` of the quote that closes a string opened right
/// before `text` with the quote `q`, or -1 when the string stays open. A
/// backslash takes the next character with it, and so does a single quote
/// that is followed by another in a string between single quotes.
pub open spec fn closing(text: Seq<char>, q: char) -> int
    decreases text.len(),
{
    if text.len() == 0 {
        -1
    } else if text.len() > 1 && (text[0] == '\\' || (q == '\'' && text[0] == q && text[1] == q)) {
        let further = closing(text.skip(2), q);
        if further < 0 {
            -1
        } else {
            2 + further
        }
    } else if text[0] == q {
        0
    } else {
        let further = closing(text.skip(1), q);
        if further < 0 {
            -1
        } else {
            1 + further
        }
    }
}

/// Whether a string starts at the front of `rest`: a quote stands there,
/// quotes open strings at this place, and the string is closed further on. A
/// quote whose string is never closed is a character like any other.
pub open spec fn opens_string(rest: Seq<char>, front: bool, syntax: Syntax) -> bool {
    rest.len() > 0 && is_quote(rest[0], syntax) && (front || !syntax.front_only) && 0 <= closing(
        rest.skip(1),
        rest[0],
    ) < rest.len() - 1
}

/// Where the comment starts in `rest`, or `rest.len()` when there is none.
/// `front` says whether `rest` starts at the front of the value. Inside a
/// string nothing starts a comment.
pub open spec fn comment_start(rest: Seq<char>, front: bool, syntax: Syntax) -> int
    decreases rest.len(),
{
    if rest.len() == 0 || opens_comment(rest, syntax) {
        0
    } else if opens_string(rest, front, syntax) {
        let length = closing(rest.skip(1), rest[0]) + 2;
        length + comment_start(rest.skip(length), false, syntax)
    } else {
        1 + comment_start(rest.skip(1), false, syntax)
    }
}

/// The position before the whitespace at the end of the first `upto`
/// characters.
pub open spec fn before_spaces(rest: Seq<char>, upto: int) -> int {
    upto - trailing_spaces(rest.take(upto))
}

/// Where the value ends that stands at the front of `rest`: before the
/// comment, the whitespace before it and, where the format has one, the comma
/// before that and the whitespace before the comma.
pub open spec fn value_end(rest: Seq<char>, syntax: Syntax) -> int {
    let end = before_spaces(rest, comment_start(rest, true, syntax));
    if syntax.comma && 0 < end <= rest.len() && rest[end - 1] == ',' {
        before_spaces(rest, end - 1)
    } else {
        end
    }
}

/// The part of `line` before its last `rest.len()` characters.
pub open spec fn before(line: Seq<char>, rest: Seq<char>) -> Seq<char> {
    if rest.len() <= line.len() {
        line.take(line.len() - rest.len())
    } else {
        Seq::empty()
    }
}

/// What follows the value at the front of `rest`.
pub open spec fn after_value(rest: Seq<char>, syntax: Syntax) -> Seq<char> {
    rest.skip(value_end(rest, syntax))
}

/// What stays at the front of a line when its value is replaced: the part
/// before the value, without the whitespace at its end where the format sets
/// that whitespace anew.
pub open spec fn kept_front(line: Seq<char>, rest: Seq<char>, syntax: Syntax) -> Seq<char> {
    let head = before(line, rest);
    if syntax.spaced {
        head.take(head.len() - trailing_spaces(head))
    } else {
        head
    }
}

/// The whitespace between the sign and the value, one space when there is
/// none.
pub open spec fn gap(line: Seq<char>, rest: Seq<char>) -> Seq<char> {
    let head = before(line, rest);
    if trailing_spaces(head) > 0 {
        head.skip(head.len() - trailing_spaces(head))
    } else {
        seq![' ']
    }
}

/// `line`, whose value and what follows it is `rest`, with the value
/// replaced by `value`.
///
/// What stood before the value and what followed it stay. Where the format
/// needs whitespace around the value, one space is put after a sign that had
/// none; and where the line had no value but a comment, the new value goes one
/// space after the sign and the whitespace that stood there goes before the
/// comment.
pub open spec fn replaced(line: Seq<char>, rest: Seq<char>, value: Seq<char>, syntax: Syntax)
    -> Seq<char> {
    if syntax.spaced {
        if value_end(rest, syntax) == 0 && rest.len() > 0 {
            kept_front(line, rest, syntax) + seq![' '] + value + gap(line, rest) + rest
        } else {
            kept_front(line, rest, syntax) + gap(line, rest) + value + after_value(rest, syntax)
        }
    } else {
        before(line, rest) + value + after_value(rest, syntax)
    }
}

/// The comment starts inside `rest` or at its end.
pub proof fn lemma_comment_start_in_range(rest: Seq<char>, front: bool, syntax: Syntax)
    ensures
        0 <= comment_start(rest, front, syntax) <= rest.len(),
    decreases rest.len(),
{
    if rest.len() > 0 && !opens_comment(rest, syntax) {
        if opens_string(rest, front, syntax) {
            let length = closing(rest.skip(1), rest[0]) + 2;
            lemma_comment_start_in_range(rest.skip(length), false, syntax);
        } else {
            lemma_comment_start_in_range(rest.skip(1), false, syntax);
        }
    }
}

/// The value ends inside `rest`.
pub proof fn lemma_value_end_in_range(rest: Seq<char>, syntax: Syntax)
    ensures
        0 <= value_end(rest, syntax) <= rest.len(),
{
    lemma_comment_start_in_range(rest, true, syntax);
    let cut = comment_start(rest, true, syntax);
    lemma_tail_run_length(rest.take(cut), space());
    let end = before_spaces(rest, cut);
    if 0 < end {
        lemma_tail_run_length(rest.take(end - 1), space());
    }
}

/// A line with its value replaced starts as it did and ends with what
/// followed the old value, and it is at least as long as what stood before
/// the old value and the new value together.
pub proof fn lemma_replaced_keeps_the_rest(
    line: Seq<char>,
    rest: Seq<char>,
    value: Seq<char>,
    syntax: Syntax,
)
    ensures
        kept_front(line, rest, syntax).is_prefix_of(replaced(line, rest, value, syntax)),
        after_value(rest, syntax).is_suffix_of(replaced(line, rest, value, syntax)),
        replaced(line, rest, value, syntax).len() >= before(line, rest).len() + value.len(),
{
    lemma_value_end_in_range(rest, syntax);
    lemma_tail_run_length(before(line, rest), space());
    let new = replaced(line, rest, value, syntax);
    let head = kept_front(line, rest, syntax);
    let tail = after_value(rest, syntax);
    if syntax.spaced && value_end(rest, syntax) == 0 && rest.len() > 0 {
        assert(tail == rest);
    }
    assert(new.subrange(0, head.len() as int) =~= head);
    assert(new.subrange(new.len() - tail.len(), new.len() as int) =~= tail);
}

/// A line with its value replaced holds no character, but for the space,
/// that neither the line, nor what stood after its key, nor the new value
/// holds.
pub proof fn lemma_replaced_is_free_of(
    line: Seq<char>,
    rest: Seq<char>,
    value: Seq<char>,
    syntax: Syntax,
    c: char,
)
    requires
        is_free_of(line, c),
        is_free_of(rest, c),
        is_free_of(value, c),
        c != ' ',
    ensures
        is_free_of(replaced(line, rest, value, syntax), c),
{
    lemma_value_end_in_range(rest, syntax);
    let head = before(line, rest);
    lemma_tail_run_length(head, space());
    let tail = after_value(rest, syntax);
    if rest.len() <= line.len() {
        lemma_subrange_is_free_of(line, 0, line.len() - rest.len(), c);
    }
    lemma_subrange_is_free_of(rest, value_end(rest, syntax), rest.len() as int, c);
    if syntax.spaced {
        let front = kept_front(line, rest, syntax);
        let between = gap(line, rest);
        lemma_subrange_is_free_of(head, 0, head.len() - trailing_spaces(head), c);
        lemma_subrange_is_free_of(head, head.len() - trailing_spaces(head), head.len() as int, c);
        assert(is_free_of(seq![' '], c));
        assert(is_free_of(between, c));
        if value_end(rest, syntax) == 0 && rest.len() > 0 {
            lemma_concat_is_free_of(front, seq![' '], c);
            lemma_concat_is_free_of(front + seq![' '], value, c);
            lemma_concat_is_free_of(front + seq![' '] + value, between, c);
            lemma_concat_is_free_of(front + seq![' '] + value + between, rest, c);
        } else {
            lemma_concat_is_free_of(front, between, c);
            lemma_concat_is_free_of(front + between, value, c);
            lemma_concat_is_free_of(front + between + value, tail, c);
        }
    } else {
        lemma_concat_is_free_of(head, value, c);
        lemma_concat_is_free_of(head + value, tail, c);
    }
}

/// The position of the quote that closes a string opened right before
/// `chars[from]` with the quote `q`.
pub fn find_closing(chars: &Vec<char>, from: usize, q: char) -> (r: Option<usize>)
    requires
        from <= chars.len(),
    ensures
        match r {
            Some(at) => from <= at < chars.len() && closing(chars@.skip(from as int), q) == at
                - from,
            None => closing(chars@.skip(from as int), q) < 0,
        },
{
    let n = chars.len();
    let mut i: usize = from;
    let ghost all = chars@.skip(from as int);
    assert(all.skip(0) == all);
    while i < n
        invariant
            n == chars.len(),
            from <= i <= n,
            all == chars@.skip(from as int),
            closing(all, q) == if closing(all.skip(i - from), q) < 0 {
                -1
            } else {
                (i - from) + closing(all.skip(i - from), q)
            },
        decreases n - i,
    {
        let ghost rest = all.skip(i - from);
        assert(rest[0] == chars@[i as int]);
        assert(rest.skip(1) == all.skip(i + 1 - from));
        let c = chars[i];
        if i + 1 < n {
            assert(rest[1] == chars@[i + 1]);
        }
        if i + 1 < n && (c == '\\' || (q == '\'' && c == q && chars[i + 1] == q)) {
            assert(rest.skip(2) == all.skip(i + 2 - from));
            i += 2;
        } else if c == q {
            return Some(i);
        } else {
            i += 1;
        }
    }
    None
}

/// Where the comment starts in `chars`.
pub fn find_comment_start(chars: &Vec<char>, syntax: Syntax) -> (at: usize)
    ensures
        at == comment_start(chars@, true, syntax),
        at <= chars.len(),
{
    let n = chars.len();
    let mut i: usize = 0;
    assert(chars@.skip(0) == chars@);
    while i < n
        invariant
            n == chars.len(),
            i <= n,
            comment_start(chars@, true, syntax) == i + comment_start(
                chars@.skip(i as int),
                i == 0,
                syntax,
            ),
        decreases n - i,
    {
        let ghost rest = chars@.skip(i as int);
        assert(rest[0] == chars@[i as int]);
        assert(rest.skip(1) == chars@.skip(i + 1));
        if i + 1 < n {
            assert(rest[1] == chars@[i + 1]);
        }
        let c = chars[i];
        if (syntax.hash && c == '#') || (syntax.slashes && c == '/' && i + 1 < n && chars[i + 1]
            == '/') {
            return i;
        }
        let mut next = i + 1;
        if (c == '"' || (syntax.single && c == '\'')) && (i == 0 || !syntax.front_only) {
            match find_closing(chars, i + 1, c) {
                Some(at) => {
                    assert(rest.skip(at + 1 - i) == chars@.skip(at + 1));
                    next = at + 1;
                },
                None => {},
            }
        }
        i = next;
    }
    i
}

/// The position before the whitespace at the end of `chars[..upto]`.
fn skip_back_spaces(chars: &Vec<char>, upto: usize) -> (at: usize)
    requires
        upto <= chars.len(),
    ensures
        at == before_spaces(chars@, upto as int),
        at <= upto,
{
    let part = text_between(chars, 0, upto);
    let head = chars_of(part.as_str());
    assert(head@ == chars@.take(upto as int));
    upto - count_trailing_whitespace(&head)
}

/// Where the value ends that stands at the front of `rest`.
pub fn find_value_end(rest: &str, syntax: Syntax) -> (at: usize)
    ensures
        at == value_end(rest@, syntax),
        at <= rest@.len(),
{
    let chars = chars_of(rest);
    let cut = find_comment_start(&chars, syntax);
    let end = skip_back_spaces(&chars, cut);
    if syntax.comma && end > 0 && chars[end - 1] == ',' {
        skip_back_spaces(&chars, end - 1)
    } else {
        end
    }
}

/// `line`, whose value and what follows it is `rest`, with the value
/// replaced by `value`.
pub fn replace_value(line: &str, rest: &str, value: &str, syntax: Syntax) -> (r: String)
    ensures
        r@ == replaced(line@, rest@, value@, syntax),
{
    let all = chars_of(line);
    let tail = chars_of(rest);
    let end = find_value_end(rest, syntax);
    let head = if tail.len() <= all.len() {
        text_between(&all, 0, all.len() - tail.len())
    } else {
        String::new()
    };
    if !syntax.spaced {
        let mut out = head;
        out.append(value);
        out.append(text_between(&tail, end, tail.len()).as_str());
        return out;
    }
    let front = chars_of(head.as_str());
    let spaces = count_trailing_whitespace(&front);
    let mut out = text_between(&front, 0, front.len() - spaces);
    let between = if spaces > 0 {
        text_between(&front, front.len() - spaces, front.len())
    } else {
        let mut one = String::new();
        one.push(' ');
        assert(one@ == seq![' ']);
        one
    };
    if end == 0 && tail.len() > 0 {
        out.push(' ');
        out.append(value);
        out.append(between.as_str());
        out.append(rest);
        assert(out@ == kept_front(line@, rest@, syntax) + seq![' '] + value@ + gap(
            line@,
            rest@,
        ) + rest@);
    } else {
        out.append(between.as_str());
        out.append(value);
        out.append(text_between(&tail, end, tail.len()).as_str());
    }
    out
}

/// A line that fits on one line still does after a value that fits on one
/// line was written into it.
pub proof fn lemma_replaced_is_one_line(
    line: Seq<char>,
    rest: Seq<char>,
    value: Seq<char>,
    syntax: Syntax,
)
    requires
        is_one_line(line),
        is_one_line(rest),
        is_one_line(value),
    ensures
        is_one_line(replaced(line, rest, value, syntax)),
        replaced(line, rest, value, syntax).len() >= before(line, rest).len() + value.len(),
{
    lemma_replaced_is_free_of(line, rest, value, syntax, '\n');
    lemma_replaced_is_free_of(line, rest, value, syntax, '\r');
    lemma_replaced_keeps_the_rest(line, rest, value, syntax);
}

} // verus!
