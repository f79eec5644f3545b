//! Character-level building blocks shared by the format adapters: whitespace,
//! trimming, splitting into lines and segments, and joining back.
//!
//! Every function here is stated over the `Seq<char>` view of its arguments.

use vstd::prelude::*;
use vstd::string::*;
use vstd::utf8::*;

verus! {

/// `String::push` appends one character at the end.
pub assume_specification[ String::push ](s: &mut String, c: char)
    ensures
        final(s)@ == old(s)@.push(c),
;

/// The characters with the Unicode `White_Space` property.
pub open spec fn is_space(c: char) -> bool {
    let n = c as u32;
    ||| 0x09 <= n <= 0x0D
    ||| n == 0x20
    ||| n == 0x85
    ||| n == 0xA0
    ||| n == 0x1680
    ||| 0x2000 <= n <= 0x200A
    ||| n == 0x2028
    ||| n == 0x2029
    ||| n == 0x202F
    ||| n == 0x205F
    ||| n == 0x3000
}

/// Whether `c` has the Unicode `White_Space` property.
pub fn is_whitespace(c: char) -> (r: bool)
    ensures
        r == is_space(c),
{
    let n: u32 = c as u32;
    (0x09 <= n && n <= 0x0D) || n == 0x20 || n == 0x85 || n == 0xA0 || n == 0x1680 || (0x2000 <= n
        && n <= 0x200A) || n == 0x2028 || n == 0x2029 || n == 0x202F || n == 0x205F || n == 0x3000
}

/// The characters of `s`, in order.
pub fn chars_of(s: &str) -> (r: Vec<char>)
    ensures
        r@ == s@,
{
    let mut v: Vec<char> = Vec::new();
    for c in it: s.chars()
        invariant
            v@ == it.seq().take(it.index()),
    {
        v.push(c);
    }
    v
}

/// The string made of `chars[from..to]`.
pub fn text_between(chars: &Vec<char>, from: usize, to: usize) -> (r: String)
    requires
        from <= to <= chars.len(),
    ensures
        r@ == chars@.subrange(from as int, to as int),
{
    let mut out = String::new();
    let mut i: usize = from;
    while i < to
        invariant
            from <= i <= to <= chars.len(),
            out@ == chars@.subrange(from as int, i as int),
        decreases to - i,
    {
        out.push(chars[i]);
        i += 1;
    }
    out
}

/// Whether two strings hold the same characters.
pub fn same_text(a: &str, b: &str) -> (r: bool)
    ensures
        r == (a@ == b@),
{
    let x = chars_of(a);
    let y = chars_of(b);
    if x.len() != y.len() {
        return false;
    }
    let mut i: usize = 0;
    while i < x.len()
        invariant
            x@ == a@,
            y@ == b@,
            x.len() == y.len(),
            i <= x.len(),
            x@.take(i as int) == y@.take(i as int),
        decreases x.len() - i,
    {
        if x[i] != y[i] {
            assert(a@[i as int] != b@[i as int]);
            return false;
        }
        assert(x@.take(i + 1) == x@.take(i as int).push(x@[i as int]));
        assert(y@.take(i + 1) == y@.take(i as int).push(y@[i as int]));
        i += 1;
    }
    assert(x@ == x@.take(x.len() as int));
    assert(y@ == y@.take(y.len() as int));
    true
}

/// The length of the longest prefix of `s` whose characters all satisfy `p`.
pub open spec fn run_length(s: Seq<char>, p: spec_fn(char) -> bool) -> int
    decreases s.len(),
{
    if s.len() > 0 && p(s[0]) {
        1 + run_length(s.drop_first(), p)
    } else {
        0
    }
}

/// The length of the longest suffix of `s` whose characters all satisfy `p`.
pub open spec fn tail_run_length(s: Seq<char>, p: spec_fn(char) -> bool) -> int
    decreases s.len(),
{
    if s.len() > 0 && p(s.last()) {
        1 + tail_run_length(s.drop_last(), p)
    } else {
        0
    }
}

/// `run_length` is the first position whose character fails `p`.
pub proof fn lemma_run_length(s: Seq<char>, p: spec_fn(char) -> bool)
    ensures
        0 <= run_length(s, p) <= s.len(),
        forall|j: int| 0 <= j < run_length(s, p) ==> p(#[trigger] s[j]),
        run_length(s, p) < s.len() ==> !p(s[run_length(s, p)]),
    decreases s.len(),
{
    if s.len() > 0 && p(s[0]) {
        let t = s.drop_first();
        lemma_run_length(t, p);
        assert forall|j: int| 0 <= j < run_length(s, p) implies p(#[trigger] s[j]) by {
            if j > 0 {
                assert(s[j] == t[j - 1]);
            }
        }
        if run_length(s, p) < s.len() {
            assert(s[run_length(s, p)] == t[run_length(t, p)]);
        }
    }
}

/// The only position that ends a run of `p` at the front of `s` is `run_length`.
pub proof fn lemma_run_length_is(s: Seq<char>, p: spec_fn(char) -> bool, k: int)
    requires
        0 <= k <= s.len(),
        forall|j: int| 0 <= j < k ==> p(#[trigger] s[j]),
        k < s.len() ==> !p(s[k]),
    ensures
        run_length(s, p) == k,
    decreases s.len(),
{
    if k > 0 {
        let t = s.drop_first();
        assert(p(s[0]));
        assert forall|j: int| 0 <= j < k - 1 implies p(#[trigger] t[j]) by {
            assert(t[j] == s[j + 1]);
        }
        lemma_run_length_is(t, p, k - 1);
    }
}

/// `tail_run_length` counts back from the end to the last character that fails `p`.
pub proof fn lemma_tail_run_length(s: Seq<char>, p: spec_fn(char) -> bool)
    ensures
        0 <= tail_run_length(s, p) <= s.len(),
        forall|j: int| s.len() - tail_run_length(s, p) <= j < s.len() ==> p(#[trigger] s[j]),
        tail_run_length(s, p) < s.len() ==> !p(s[s.len() - tail_run_length(s, p) - 1]),
    decreases s.len(),
{
    if s.len() > 0 && p(s.last()) {
        let t = s.drop_last();
        lemma_tail_run_length(t, p);
        assert forall|j: int| s.len() - tail_run_length(s, p) <= j < s.len() implies p(
            #[trigger] s[j],
        ) by {
            if j < s.len() - 1 {
                assert(s[j] == t[j]);
            }
        }
        if tail_run_length(s, p) < s.len() {
            assert(s[s.len() - tail_run_length(s, p) - 1] == t[t.len() - tail_run_length(t, p)
                - 1]);
        }
    }
}

/// The only length that ends a run of `p` at the back of `s` is `tail_run_length`.
pub proof fn lemma_tail_run_length_is(s: Seq<char>, p: spec_fn(char) -> bool, k: int)
    requires
        0 <= k <= s.len(),
        forall|j: int| s.len() - k <= j < s.len() ==> p(#[trigger] s[j]),
        k < s.len() ==> !p(s[s.len() - k - 1]),
    ensures
        tail_run_length(s, p) == k,
    decreases s.len(),
{
    if k > 0 {
        let t = s.drop_last();
        assert(p(s[s.len() - 1]));
        assert forall|j: int| t.len() - (k - 1) <= j < t.len() implies p(#[trigger] t[j]) by {
            assert(t[j] == s[j]);
        }
        lemma_tail_run_length_is(t, p, k - 1);
    }
}

/// The predicate "is not `c`".
pub open spec fn other_than(c: char) -> spec_fn(char) -> bool {
    |x: char| x != c
}

/// The predicate "is `c`".
pub open spec fn only(c: char) -> spec_fn(char) -> bool {
    |x: char| x == c
}

/// The predicate "is whitespace".
pub open spec fn space() -> spec_fn(char) -> bool {
    |x: char| is_space(x)
}

/// The position of the first `c` in `s`, or `s.len()` when there is none.
pub open spec fn first_index_of(s: Seq<char>, c: char) -> int {
    run_length(s, other_than(c))
}

/// The number of whitespace characters at the front of `s`.
pub open spec fn leading_spaces(s: Seq<char>) -> int {
    run_length(s, space())
}

/// The number of whitespace characters at the back of `s`.
pub open spec fn trailing_spaces(s: Seq<char>) -> int {
    tail_run_length(s, space())
}

/// `s` without its leading whitespace.
pub open spec fn trim_start(s: Seq<char>) -> Seq<char> {
    s.skip(leading_spaces(s))
}

/// `s` without its trailing whitespace.
pub open spec fn trim_end(s: Seq<char>) -> Seq<char> {
    s.take(s.len() - trailing_spaces(s))
}

/// `s` without leading and trailing whitespace.
pub open spec fn trimmed(s: Seq<char>) -> Seq<char> {
    trim_end(trim_start(s))
}

/// The number of whitespace characters at the front of `chars`.
pub fn count_leading_whitespace(chars: &Vec<char>) -> (n: usize)
    ensures
        n == leading_spaces(chars@),
        n <= chars.len(),
{
    let mut i: usize = 0;
    while i < chars.len() && is_whitespace(chars[i])
        invariant
            i <= chars.len(),
            forall|j: int| 0 <= j < i ==> is_space(#[trigger] chars@[j]),
        decreases chars.len() - i,
    {
        i += 1;
    }
    proof {
        lemma_run_length_is(chars@, space(), i as int);
    }
    i
}

/// The number of whitespace characters at the back of `chars`.
pub fn count_trailing_whitespace(chars: &Vec<char>) -> (n: usize)
    ensures
        n == trailing_spaces(chars@),
        n <= chars.len(),
{
    let mut k: usize = 0;
    while k < chars.len() && is_whitespace(chars[chars.len() - k - 1])
        invariant
            k <= chars.len(),
            forall|j: int| chars.len() - k <= j < chars.len() ==> is_space(#[trigger] chars@[j]),
        decreases chars.len() - k,
    {
        k += 1;
    }
    proof {
        lemma_tail_run_length_is(chars@, space(), k as int);
    }
    k
}

/// The number of times `c` is repeated at the back of `chars`.
pub fn count_trailing_char(chars: &Vec<char>, c: char) -> (n: usize)
    ensures
        n == tail_run_length(chars@, only(c)),
        n <= chars.len(),
{
    let mut k: usize = 0;
    while k < chars.len() && chars[chars.len() - k - 1] == c
        invariant
            k <= chars.len(),
            forall|j: int| chars.len() - k <= j < chars.len() ==> #[trigger] chars@[j] == c,
        decreases chars.len() - k,
    {
        k += 1;
    }
    proof {
        lemma_tail_run_length_is(chars@, only(c), k as int);
    }
    k
}

/// The position of the first `c` in `chars`, or `chars.len()` when there is none.
pub fn find_char(chars: &Vec<char>, c: char) -> (n: usize)
    ensures
        n == first_index_of(chars@, c),
        n <= chars.len(),
        n < chars.len() ==> chars@[n as int] == c,
{
    let mut i: usize = 0;
    while i < chars.len() && chars[i] != c
        invariant
            i <= chars.len(),
            forall|j: int| 0 <= j < i ==> #[trigger] chars@[j] != c,
        decreases chars.len() - i,
    {
        i += 1;
    }
    proof {
        lemma_run_length_is(chars@, other_than(c), i as int);
    }
    i
}

/// `s` without leading and trailing whitespace.
pub fn trim(s: &str) -> (r: String)
    ensures
        r@ == trimmed(s@),
{
    let chars = chars_of(s);
    let lead = count_leading_whitespace(&chars);
    let rest = text_between(&chars, lead, chars.len());
    let tail = chars_of(rest.as_str());
    let trail = count_trailing_whitespace(&tail);
    text_between(&tail, 0, tail.len() - trail)
}

/// The pieces of `s` between occurrences of `sep`. There is always at least
/// one piece; a separator at either end gives an empty piece there.
pub open spec fn split(s: Seq<char>, sep: char) -> Seq<Seq<char>>
    decreases s.len(),
{
    let n = first_index_of(s, sep);
    if 0 <= n < s.len() {
        seq![s.take(n)] + split(s.skip(n + 1), sep)
    } else {
        seq![s]
    }
}

/// The pieces put together again with `sep` between neighbours.
pub open spec fn join(parts: Seq<Seq<char>>, sep: char) -> Seq<char>
    decreases parts.len(),
{
    if parts.len() == 0 {
        Seq::empty()
    } else if parts.len() == 1 {
        parts[0]
    } else {
        join(parts.drop_last(), sep).push(sep) + parts.last()
    }
}

/// `line` without one carriage return at its end.
pub open spec fn strip_cr(line: Seq<char>) -> Seq<char> {
    if line.len() > 0 && line.last() == '\r' {
        line.drop_last()
    } else {
        line
    }
}

/// The lines of a text. Each line feed ends a line; a carriage return right
/// before it belongs to the line ending. What follows the last line feed is a
/// line of its own unless it is empty.
pub open spec fn lines_of(s: Seq<char>) -> Seq<Seq<char>> {
    let pieces = split(s, '\n');
    let ended = pieces.drop_last().map_values(|piece: Seq<char>| strip_cr(piece));
    if pieces.last().len() == 0 {
        ended
    } else {
        ended.push(pieces.last())
    }
}

/// There is always at least one piece.
pub proof fn lemma_split_nonempty(s: Seq<char>, sep: char)
    ensures
        split(s, sep).len() >= 1,
    decreases s.len(),
{
    let n = first_index_of(s, sep);
    if 0 <= n < s.len() {
        lemma_split_nonempty(s.skip(n + 1), sep);
    }
}

/// Whether `c` occurs nowhere in `s`.
pub open spec fn is_free_of(s: Seq<char>, c: char) -> bool {
    forall|i: int| 0 <= i < s.len() ==> s[i] != c
}

/// A text without the separator is its own single piece.
pub proof fn lemma_split_of_piece(s: Seq<char>, sep: char)
    requires
        is_free_of(s, sep),
    ensures
        split(s, sep) == seq![s],
{
    assert forall|j: int| 0 <= j < s.len() implies other_than(sep)(#[trigger] s[j]) by {}
    lemma_run_length_is(s, other_than(sep), s.len() as int);
}

/// No piece holds the separator, and no piece holds a character that the
/// text does not hold.
pub proof fn lemma_pieces(s: Seq<char>, sep: char, i: int)
    requires
        0 <= i < split(s, sep).len(),
    ensures
        is_free_of(split(s, sep)[i], sep),
        forall|c: char| is_free_of(s, c) ==> is_free_of(split(s, sep)[i], c),
    decreases s.len(),
{
    let n = first_index_of(s, sep);
    lemma_run_length(s, other_than(sep));
    if 0 <= n < s.len() {
        if i == 0 {
            assert forall|j: int| 0 <= j < n implies s.take(n)[j] != sep by {
                assert(other_than(sep)(s[j]));
            }
            assert forall|c: char| is_free_of(s, c) implies is_free_of(s.take(n), c) by {
                assert forall|j: int| 0 <= j < n implies s.take(n)[j] != c by {
                    assert(s.take(n)[j] == s[j]);
                }
            }
        } else {
            let rest = s.skip(n + 1);
            assert(split(s, sep)[i] == split(rest, sep)[i - 1]);
            lemma_pieces(rest, sep, i - 1);
            assert forall|c: char| is_free_of(s, c) implies is_free_of(split(s, sep)[i], c) by {
                assert forall|j: int| 0 <= j < rest.len() implies rest[j] != c by {
                    assert(rest[j] == s[n + 1 + j]);
                }
                assert(is_free_of(rest, c));
                assert(is_free_of(split(rest, sep)[i - 1], c));
            }
        }
    } else {
        assert(split(s, sep)[i] == s);
        assert forall|j: int| 0 <= j < s.len() implies s[j] != sep by {
            assert(other_than(sep)(s[j]));
        }
    }
}

/// Splitting two texts that a separator holds together gives the pieces of
/// the first followed by those of the second.
pub proof fn lemma_split_of_joined_pair(x: Seq<char>, y: Seq<char>, sep: char)
    ensures
        split(x.push(sep) + y, sep) == split(x, sep) + split(y, sep),
    decreases x.len(),
{
    let all = x.push(sep) + y;
    let n = first_index_of(x, sep);
    lemma_run_length(x, other_than(sep));
    assert forall|j: int| 0 <= j < n implies other_than(sep)(#[trigger] all[j]) by {
        assert(all[j] == x[j]);
        assert(other_than(sep)(x[j]));
    }
    if n < x.len() {
        assert(all[n] == x[n]);
        lemma_run_length_is(all, other_than(sep), n);
        assert(all.take(n) == x.take(n));
        assert(all.skip(n + 1) == x.skip(n + 1).push(sep) + y);
        lemma_split_of_joined_pair(x.skip(n + 1), y, sep);
        assert(seq![x.take(n)] + (split(x.skip(n + 1), sep) + split(y, sep)) == (seq![x.take(n)]
            + split(x.skip(n + 1), sep)) + split(y, sep));
    } else {
        assert(all[n] == sep);
        lemma_run_length_is(all, other_than(sep), n);
        assert(all.take(n) == x);
        assert(all.skip(n + 1) == y);
    }
}

/// Joining with a piece in front puts the piece and the separator at the
/// front.
pub proof fn lemma_join_front(first: Seq<char>, parts: Seq<Seq<char>>, sep: char)
    requires
        parts.len() >= 1,
    ensures
        join(seq![first] + parts, sep) == first.push(sep) + join(parts, sep),
    decreases parts.len(),
{
    let all = seq![first] + parts;
    assert(all.last() == parts.last());
    if parts.len() == 1 {
        assert(all.drop_last() == seq![first]);
        assert(first.push(sep) + parts[0] == join(seq![first], sep).push(sep) + parts.last());
    } else {
        assert(all.drop_last() == seq![first] + parts.drop_last());
        lemma_join_front(first, parts.drop_last(), sep);
        assert((first.push(sep) + join(parts.drop_last(), sep)).push(sep) + parts.last()
            == first.push(sep) + (join(parts.drop_last(), sep).push(sep) + parts.last()));
    }
}

/// Joining the pieces of a text gives the text back.
pub proof fn join_undoes_split(s: Seq<char>, sep: char)
    ensures
        join(split(s, sep), sep) == s,
    decreases s.len(),
{
    let n = first_index_of(s, sep);
    lemma_run_length(s, other_than(sep));
    if 0 <= n < s.len() {
        let rest = s.skip(n + 1);
        join_undoes_split(rest, sep);
        lemma_split_nonempty(rest, sep);
        lemma_join_front(s.take(n), split(rest, sep), sep);
        assert(s.take(n).push(sep) + rest == s);
    }
}

/// Splitting what was joined gives the pieces back, as long as there is a
/// piece and none holds the separator.
pub proof fn lemma_split_of_join(parts: Seq<Seq<char>>, sep: char)
    requires
        parts.len() >= 1,
        forall|i: int| 0 <= i < parts.len() ==> is_free_of(#[trigger] parts[i], sep),
    ensures
        split(join(parts, sep), sep) == parts,
    decreases parts.len(),
{
    if parts.len() == 1 {
        lemma_split_of_piece(parts[0], sep);
        assert(parts == seq![parts[0]]);
    } else {
        let front = parts.drop_last();
        assert forall|i: int| 0 <= i < front.len() implies is_free_of(#[trigger] front[i], sep) by {
            assert(front[i] == parts[i]);
        }
        lemma_split_of_join(front, sep);
        lemma_split_of_joined_pair(join(front, sep), parts.last(), sep);
        lemma_split_of_piece(parts.last(), sep);
        assert(front + seq![parts.last()] == parts);
    }
}

/// Lines as they come out of a text and go back into one unchanged: none
/// holds a line feed or ends with a carriage return, and the last is not
/// empty.
pub open spec fn are_stable_lines(lines: Seq<Seq<char>>) -> bool {
    &&& forall|i: int|
        0 <= i < lines.len() ==> is_free_of(#[trigger] lines[i], '\n') && strip_cr(lines[i])
            == lines[i]
    &&& lines.len() > 0 ==> lines.last().len() > 0
}

/// The lines of a text that was joined from stable lines are those lines.
pub proof fn lemma_lines_of_join(lines: Seq<Seq<char>>)
    requires
        are_stable_lines(lines),
    ensures
        lines_of(join(lines, '\n')) == lines,
{
    if lines.len() == 0 {
        lemma_split_of_piece(Seq::<char>::empty(), '\n');
        assert(seq![Seq::<char>::empty()].drop_last().map_values(
            |piece: Seq<char>| strip_cr(piece),
        ) =~= Seq::<Seq<char>>::empty());
    } else {
        lemma_split_of_join(lines, '\n');
        let ended = lines.drop_last().map_values(|piece: Seq<char>| strip_cr(piece));
        assert(ended =~= lines.drop_last());
        assert(lines.drop_last().push(lines.last()) == lines);
    }
}

/// A text that fits on one line: it holds no line feed and no carriage
/// return.
pub open spec fn is_one_line(s: Seq<char>) -> bool {
    is_free_of(s, '\n') && is_free_of(s, '\r')
}

/// A text whose lines come back unchanged when they are joined and cut into
/// lines again: it holds no carriage return and does not end with a blank
/// line.
pub open spec fn is_settled(text: Seq<char>) -> bool {
    is_free_of(text, '\r') && (lines_of(text).len() > 0 ==> lines_of(text).last().len() > 0)
}

/// A stretch of a text holds no character that the text does not hold.
pub proof fn lemma_subrange_is_free_of(s: Seq<char>, from: int, to: int, c: char)
    requires
        0 <= from <= to <= s.len(),
        is_free_of(s, c),
    ensures
        is_free_of(s.subrange(from, to), c),
{
    assert forall|i: int| 0 <= i < to - from implies s.subrange(from, to)[i] != c by {
        assert(s.subrange(from, to)[i] == s[from + i]);
    }
}

/// Two texts put together hold no character that neither holds.
pub proof fn lemma_concat_is_free_of(a: Seq<char>, b: Seq<char>, c: char)
    requires
        is_free_of(a, c),
        is_free_of(b, c),
    ensures
        is_free_of(a + b, c),
{
    assert forall|i: int| 0 <= i < (a + b).len() implies (a + b)[i] != c by {
        if i < a.len() {
            assert((a + b)[i] == a[i]);
        } else {
            assert((a + b)[i] == b[i - a.len()]);
        }
    }
}

/// What was joined holds no character that neither a piece nor the
/// separator is.
pub proof fn lemma_join_is_free_of(parts: Seq<Seq<char>>, sep: char, c: char)
    requires
        forall|i: int| 0 <= i < parts.len() ==> is_free_of(#[trigger] parts[i], c),
        sep != c,
    ensures
        is_free_of(join(parts, sep), c),
    decreases parts.len(),
{
    if parts.len() >= 2 {
        let front = parts.drop_last();
        assert forall|i: int| 0 <= i < front.len() implies is_free_of(#[trigger] front[i], c) by {
            assert(front[i] == parts[i]);
        }
        lemma_join_is_free_of(front, sep, c);
        assert(is_free_of(seq![sep], c));
        lemma_concat_is_free_of(join(front, sep), seq![sep], c);
        assert(join(front, sep) + seq![sep] == join(front, sep).push(sep));
        lemma_concat_is_free_of(join(front, sep).push(sep), parts.last(), c);
    }
}

/// Lines that each fit on one line, the last of them not empty, are stable,
/// and the text joined from them is settled.
pub proof fn lemma_text_of_lines(lines: Seq<Seq<char>>)
    requires
        forall|i: int| 0 <= i < lines.len() ==> is_one_line(#[trigger] lines[i]),
        lines.len() > 0 ==> lines.last().len() > 0,
    ensures
        are_stable_lines(lines),
        lines_of(join(lines, '\n')) == lines,
        is_settled(join(lines, '\n')),
{
    assert forall|i: int| 0 <= i < lines.len() implies is_free_of(#[trigger] lines[i], '\n')
        && strip_cr(lines[i]) == lines[i] by {
        lemma_one_line_is_stable(lines[i]);
    }
    lemma_lines_of_join(lines);
    assert forall|i: int| 0 <= i < lines.len() implies is_free_of(#[trigger] lines[i], '\r') by {
        assert(is_one_line(lines[i]));
    }
    lemma_join_is_free_of(lines, '\n', '\r');
}

/// A text that does not end with the separator has a last piece that is not
/// empty.
pub proof fn lemma_last_piece(s: Seq<char>, sep: char)
    requires
        s.len() > 0,
        s.last() != sep,
    ensures
        split(s, sep).last().len() > 0,
    decreases s.len(),
{
    let n = first_index_of(s, sep);
    lemma_run_length(s, other_than(sep));
    if 0 <= n < s.len() {
        let rest = s.skip(n + 1);
        assert(rest.len() > 0);
        assert(rest.last() == s.last());
        lemma_last_piece(rest, sep);
        lemma_split_nonempty(rest, sep);
    }
}

/// A text without carriage returns that does not end with a line feed is
/// settled.
pub proof fn lemma_open_ended_is_settled(text: Seq<char>)
    requires
        is_free_of(text, '\r'),
        text.len() > 0 ==> text.last() != '\n',
    ensures
        is_settled(text),
{
    lemma_split_nonempty(text, '\n');
    if text.len() > 0 {
        lemma_last_piece(text, '\n');
    } else {
        lemma_split_of_piece(text, '\n');
    }
}

/// What was joined ends as its last piece ends.
pub proof fn lemma_join_ends_with_last(parts: Seq<Seq<char>>, sep: char)
    requires
        parts.len() > 0,
        parts.last().len() > 0,
    ensures
        join(parts, sep).len() > 0,
        join(parts, sep).last() == parts.last().last(),
{
}

/// A text that fits on one line and is not empty is a stable line.
pub proof fn lemma_one_line_is_stable(line: Seq<char>)
    requires
        is_one_line(line),
    ensures
        is_free_of(line, '\n'),
        strip_cr(line) == line,
{
    if line.len() > 0 {
        assert(line.last() != '\r');
    }
}

/// The lines of a settled text are stable, and each fits on one line.
pub proof fn lemma_lines_of_settled(text: Seq<char>)
    requires
        is_settled(text),
    ensures
        are_stable_lines(lines_of(text)),
        forall|i: int| 0 <= i < lines_of(text).len() ==> is_one_line(#[trigger] lines_of(text)[i]),
{
    assert forall|i: int| 0 <= i < lines_of(text).len() implies is_one_line(
        #[trigger] lines_of(text)[i],
    ) && strip_cr(lines_of(text)[i]) == lines_of(text)[i] by {
        lemma_lines_of_text(text, i);
    }
}

/// The lines of a text hold no line feed, and no carriage return if the text
/// holds none.
pub proof fn lemma_lines_of_text(text: Seq<char>, i: int)
    requires
        0 <= i < lines_of(text).len(),
    ensures
        is_free_of(lines_of(text)[i], '\n'),
        is_free_of(text, '\r') ==> is_free_of(lines_of(text)[i], '\r') && strip_cr(
            lines_of(text)[i],
        ) == lines_of(text)[i],
{
    let pieces = split(text, '\n');
    lemma_split_nonempty(text, '\n');
    lemma_pieces(text, '\n', i);
    let piece = pieces[i];
    let line = lines_of(text)[i];
    assert(line == piece || line == strip_cr(piece));
    assert forall|j: int| 0 <= j < strip_cr(piece).len() implies strip_cr(piece)[j] == piece[j] by {}
    if is_free_of(text, '\r') {
        assert(is_free_of(piece, '\r'));
        if piece.len() > 0 {
            assert(piece.last() != '\r');
        }
    }
}

/// The pieces of `s` between occurrences of `sep`.
pub fn split_on(s: &str, sep: char) -> (parts: Vec<String>)
    ensures
        parts.deep_view() == split(s@, sep),
        parts.len() >= 1,
{
    let chars = chars_of(s);
    let n = chars.len();
    let mut parts: Vec<String> = Vec::new();
    let mut start: usize = 0;
    let mut i: usize = 0;
    proof {
        assert(s@.skip(0) == s@);
        assert(parts.deep_view() + split(s@, sep) == split(s@, sep));
    }
    while i < n
        invariant
            chars@ == s@,
            n == chars.len(),
            start <= i <= n,
            forall|j: int| start <= j < i ==> #[trigger] chars@[j] != sep,
            split(s@, sep) == parts.deep_view() + split(s@.skip(start as int), sep),
        decreases n - i,
    {
        if chars[i] == sep {
            let piece = text_between(&chars, start, i);
            proof {
                let rest = s@.skip(start as int);
                assert forall|j: int| 0 <= j < i - start implies other_than(sep)(
                    #[trigger] rest[j],
                ) by {
                    assert(rest[j] == chars@[start + j]);
                }
                lemma_run_length_is(rest, other_than(sep), i - start);
                assert(rest.take(i - start) == s@.subrange(start as int, i as int));
                assert(rest.skip(i - start + 1) == s@.skip(i + 1));
                assert(parts.deep_view().push(piece@) + split(s@.skip(i + 1), sep)
                    == parts.deep_view() + (seq![piece@] + split(s@.skip(i + 1), sep)));
            }
            let ghost before = parts.deep_view();
            parts.push(piece);
            assert(parts.deep_view() == before.push(piece@));
            start = i + 1;
        }
        i += 1;
    }
    let piece = text_between(&chars, start, n);
    proof {
        let rest = s@.skip(start as int);
        assert forall|j: int| 0 <= j < n - start implies other_than(sep)(#[trigger] rest[j]) by {
            assert(rest[j] == chars@[start + j]);
        }
        lemma_run_length_is(rest, other_than(sep), n - start);
        assert(rest == s@.subrange(start as int, n as int));
    }
    let ghost before = parts.deep_view();
    parts.push(piece);
    assert(parts.deep_view() == before.push(piece@));
    assert(before.push(piece@) == before + seq![piece@]);
    parts
}

/// The parts put together again with `sep` between neighbours.
pub fn join_with(parts: &Vec<String>, sep: char) -> (r: String)
    ensures
        r@ == join(parts.deep_view(), sep),
{
    let mut out = String::new();
    let mut i: usize = 0;
    while i < parts.len()
        invariant
            i <= parts.len(),
            out@ == join(parts.deep_view().take(i as int), sep),
        decreases parts.len() - i,
    {
        proof {
            let now = parts.deep_view().take(i + 1);
            assert(now.drop_last() == parts.deep_view().take(i as int));
            assert(now.last() == parts[i as int]@);
        }
        if i > 0 {
            out.push(sep);
        }
        out.append(parts[i].as_str());
        i += 1;
    }
    assert(parts.deep_view().take(parts.len() as int) == parts.deep_view());
    out
}

/// `n` space characters.
pub open spec fn blanks(n: nat) -> Seq<char> {
    Seq::new(n, |i: int| ' ')
}

/// A string of `n` space characters.
pub fn spaces(n: usize) -> (r: String)
    ensures
        r@ == blanks(n as nat),
{
    let mut out = String::new();
    let mut i: usize = 0;
    while i < n
        invariant
            i <= n,
            out@ == blanks(i as nat),
        decreases n - i,
    {
        out.push(' ');
        assert(blanks(i as nat).push(' ') == blanks((i + 1) as nat));
        i += 1;
    }
    out
}

/// The lines of `text`, without their line endings.
pub fn split_lines(text: &str) -> (lines: Vec<String>)
    ensures
        lines.deep_view() == lines_of(text@),
{
    let mut pieces = split_on(text, '\n');
    let last = pieces.pop().unwrap();
    let ghost ended_pieces = pieces.deep_view();
    assert(ended_pieces == split(text@, '\n').drop_last());
    assert(last@ == split(text@, '\n').last());
    let mut lines: Vec<String> = Vec::new();
    let mut i: usize = 0;
    while i < pieces.len()
        invariant
            i <= pieces.len(),
            ended_pieces == pieces.deep_view(),
            lines.deep_view() == ended_pieces.take(i as int).map_values(
                |piece: Seq<char>| strip_cr(piece),
            ),
        decreases pieces.len() - i,
    {
        let chars = chars_of(pieces[i].as_str());
        let n = chars.len();
        let line = if n > 0 && chars[n - 1] == '\r' {
            text_between(&chars, 0, n - 1)
        } else {
            text_between(&chars, 0, n)
        };
        assert(line@ == strip_cr(pieces[i as int]@));
        let ghost before = lines.deep_view();
        lines.push(line);
        assert(lines.deep_view() == before.push(line@));
        assert(ended_pieces.take(i + 1).map_values(|piece: Seq<char>| strip_cr(piece))
            == before.push(line@));
        i += 1;
    }
    assert(ended_pieces.take(pieces.len() as int) == ended_pieces);
    if !last.as_str().is_empty() {
        let ghost before = lines.deep_view();
        lines.push(last);
        assert(lines.deep_view() == before.push(last@));
    }
    lines
}

/// Whether `s` begins with `prefix`.
pub fn starts_with(s: &str, prefix: &str) -> (r: bool)
    ensures
        r == prefix@.is_prefix_of(s@),
{
    let a = chars_of(s);
    let b = chars_of(prefix);
    if b.len() > a.len() {
        return false;
    }
    let mut i: usize = 0;
    while i < b.len()
        invariant
            a@ == s@,
            b@ == prefix@,
            b.len() <= a.len(),
            i <= b.len(),
            forall|j: int| 0 <= j < i ==> a@[j] == b@[j],
        decreases b.len() - i,
    {
        if a[i] != b[i] {
            assert(s@.subrange(0, prefix@.len() as int)[i as int] != prefix@[i as int]);
            return false;
        }
        i += 1;
    }
    assert(s@.subrange(0, prefix@.len() as int) =~= prefix@);
    true
}

/// Whether `s` ends with `suffix`.
pub fn ends_with(s: &str, suffix: &str) -> (r: bool)
    ensures
        r == suffix@.is_suffix_of(s@),
{
    let a = chars_of(s);
    let b = chars_of(suffix);
    if b.len() > a.len() {
        return false;
    }
    let shift = a.len() - b.len();
    let mut i: usize = 0;
    while i < b.len()
        invariant
            a@ == s@,
            b@ == suffix@,
            b.len() <= a.len(),
            shift == a.len() - b.len(),
            i <= b.len(),
            forall|j: int| 0 <= j < i ==> a@[shift + j] == b@[j],
        decreases b.len() - i,
    {
        if a[shift + i] != b[i] {
            assert(s@.subrange(s@.len() - suffix@.len(), s@.len() as int)[i as int]
                != suffix@[i as int]);
            return false;
        }
        i += 1;
    }
    assert(s@.subrange(s@.len() - suffix@.len(), s@.len() as int) =~= suffix@);
    true
}

/// Whether `c` occurs in `s`.
pub fn contains_char(s: &str, c: char) -> (r: bool)
    ensures
        r == s@.contains(c),
{
    let chars = chars_of(s);
    let n = find_char(&chars, c);
    proof {
        lemma_run_length(s@, other_than(c));
        if n == chars.len() {
            assert forall|j: int| 0 <= j < s@.len() implies s@[j] != c by {
                assert(other_than(c)(s@[j]));
            }
        }
    }
    n < chars.len()
}

/// The number of bytes that `s` takes in UTF-8, as `str::len` reports it.
pub open spec fn byte_len(s: Seq<char>) -> usize {
    encode_utf8(s).len() as usize
}

/// The leading whitespace of `line`.
pub open spec fn indentation(line: Seq<char>) -> Seq<char> {
    line.take(leading_spaces(line))
}

/// The number of bytes that the leading whitespace of `line` takes.
pub fn indentation_bytes(line: &str) -> (n: usize)
    ensures
        n == byte_len(indentation(line@)),
{
    let chars = chars_of(line);
    let lead = count_leading_whitespace(&chars);
    let prefix = text_between(&chars, 0, lead);
    prefix.as_str().len()
}

/// A line feed at the end of a text ends its last line where that line is
/// not empty, and else adds a blank line.
pub proof fn lemma_lines_of_extended(text: Seq<char>)
    ensures
        lines_of(text.push('\n')).len() == if text.len() > 0 && text.last() != '\n' {
            lines_of(text).len()
        } else {
            lines_of(text).len() + 1
        },
{
    let more = text.push('\n');
    assert(more == text.push('\n') + Seq::<char>::empty());
    lemma_split_of_joined_pair(text, Seq::empty(), '\n');
    lemma_split_of_piece(Seq::empty(), '\n');
    lemma_split_nonempty(text, '\n');
    let pieces = split(text, '\n');
    assert(split(more, '\n') == pieces.push(Seq::empty()));
    assert(pieces.push(Seq::<char>::empty()).drop_last() == pieces);
    if text.len() > 0 && text.last() != '\n' {
        lemma_last_piece(text, '\n');
    } else {
        lemma_ends_with_empty_piece(text, '\n');
    }
}

/// A text that is empty or ends with the separator has an empty last piece.
pub proof fn lemma_ends_with_empty_piece(s: Seq<char>, sep: char)
    requires
        s.len() == 0 || s.last() == sep,
    ensures
        split(s, sep).last().len() == 0,
    decreases s.len(),
{
    let n = first_index_of(s, sep);
    lemma_run_length(s, other_than(sep));
    if 0 <= n < s.len() {
        let rest = s.skip(n + 1);
        if rest.len() > 0 {
            assert(rest.last() == s.last());
        }
        lemma_ends_with_empty_piece(rest, sep);
        lemma_split_nonempty(rest, sep);
    } else {
        if s.len() > 0 {
            assert(other_than(sep)(s[s.len() - 1]));
        }
    }
}

/// A text has no lines exactly when it is empty.
pub proof fn lemma_no_lines(text: Seq<char>)
    ensures
        lines_of(text).len() == 0 <==> text.len() == 0,
{
    let pieces = split(text, '\n');
    lemma_split_nonempty(text, '\n');
    if text.len() == 0 {
        lemma_split_of_piece(text, '\n');
    } else if pieces.len() == 1 {
        let n = first_index_of(text, '\n');
        lemma_run_length(text, other_than('\n'));
        if 0 <= n < text.len() {
            lemma_split_nonempty(text.skip(n + 1), '\n');
        }
        assert(pieces[0] == text);
    }
}

/// The number of line feeds at the very end of a text.
pub open spec fn tail_feeds(text: Seq<char>) -> int {
    tail_run_length(text, only('\n'))
}

/// The lines of a text without the line feeds at its very end.
pub open spec fn main_lines(text: Seq<char>) -> Seq<Seq<char>> {
    lines_of(text.take(text.len() - tail_feeds(text)))
}

/// The line feeds at the very end of a text.
pub open spec fn tail_of(text: Seq<char>) -> Seq<char> {
    text.skip(text.len() - tail_feeds(text))
}

/// The lines joined with single line feeds, followed by the line feeds that
/// stand at the very end of `text`.
pub open spec fn with_tail(lines: Seq<Seq<char>>, text: Seq<char>) -> Seq<char> {
    join(lines, '\n') + tail_of(text)
}

/// Cuts a text into its lines and the line feeds at its very end.
pub fn cut_text(text: &str) -> (r: (Vec<String>, String))
    ensures
        r.0.deep_view() == main_lines(text@),
        r.1@ == tail_of(text@),
{
    let chars = chars_of(text);
    let n = chars.len();
    let end = n - count_trailing_char(&chars, '\n');
    let main = text_between(&chars, 0, end);
    let tail = text_between(&chars, end, n);
    (split_lines(main.as_str()), tail)
}

/// Joins lines with single line feeds and puts `tail` after them.
pub fn join_text(lines: &Vec<String>, tail: &str) -> (r: String)
    ensures
        r@ == join(lines.deep_view(), '\n') + tail@,
{
    let mut text = join_with(lines, '\n');
    text.append(tail);
    text
}

/// The lines of a text without carriage returns, the line feeds at its end
/// set aside: each fits on one line, and the last is not empty.
pub proof fn lemma_main_lines(text: Seq<char>)
    requires
        is_free_of(text, '\r'),
    ensures
        forall|i: int| 0 <= i < main_lines(text).len() ==> is_one_line(#[trigger] main_lines(text)[i]),
        main_lines(text).len() > 0 ==> main_lines(text).last().len() > 0,
        join(main_lines(text), '\n') == text.take(text.len() - tail_feeds(text)),
        with_tail(main_lines(text), text) == text,
{
    let count = tail_feeds(text);
    lemma_tail_run_length(text, only('\n'));
    let end = text.len() - count;
    let main = text.take(end);
    lemma_subrange_is_free_of(text, 0, end, '\r');
    if main.len() > 0 {
        assert(!only('\n')(text[end - 1]));
        assert(main.last() == text[end - 1]);
    }
    lemma_open_ended_is_settled(main);
    lemma_lines_of_settled(main);
    let pieces = split(main, '\n');
    lemma_split_nonempty(main, '\n');
    if main.len() > 0 {
        lemma_last_piece(main, '\n');
        assert forall|i: int| 0 <= i < pieces.len() - 1 implies strip_cr(#[trigger] pieces[i])
            == pieces[i] by {
            lemma_pieces(main, '\n', i);
            assert(is_free_of(pieces[i], '\r'));
            if pieces[i].len() > 0 {
                assert(pieces[i].last() != '\r');
            }
        }
        assert(pieces.drop_last().map_values(|piece: Seq<char>| strip_cr(piece))
            =~= pieces.drop_last());
        assert(pieces.drop_last().push(pieces.last()) == pieces);
        join_undoes_split(main, '\n');
    } else {
        lemma_no_lines(main);
    }
    assert(main + text.skip(end) == text);
}

/// Lines that each fit on one line, the last of them not empty, come back
/// as they are from the text that they are joined to, and the line feeds at
/// the end of that text are those that were put there.
pub proof fn lemma_rejoined(lines: Seq<Seq<char>>, text: Seq<char>)
    requires
        forall|i: int| 0 <= i < lines.len() ==> is_one_line(#[trigger] lines[i]),
        lines.len() > 0 ==> lines.last().len() > 0,
    ensures
        main_lines(with_tail(lines, text)) == lines,
        tail_feeds(with_tail(lines, text)) == tail_feeds(text),
        tail_of(with_tail(lines, text)) == tail_of(text),
        is_free_of(with_tail(lines, text), '\r'),
{
    let count = tail_feeds(text);
    lemma_tail_run_length(text, only('\n'));
    let end = text.len() - count;
    let tail = text.skip(end);
    lemma_text_of_lines(lines);
    let joined = join(lines, '\n');
    let whole = with_tail(lines, text);
    assert(whole == joined + tail);
    if lines.len() > 0 {
        lemma_join_ends_with_last(lines, '\n');
        assert(is_free_of(lines.last(), '\n'));
        assert(joined.last() != '\n');
        assert(whole[joined.len() - 1] == joined.last());
    }
    assert forall|j: int| whole.len() - count <= j < whole.len() implies only('\n')(
        #[trigger] whole[j],
    ) by {
        assert(whole[j] == tail[j - joined.len()]);
        assert(tail[j - joined.len()] == text[end + (j - joined.len())]);
    }
    lemma_tail_run_length_is(whole, only('\n'), count);
    assert(whole.take(whole.len() - count) == joined);
    assert(whole.skip(whole.len() - count) == tail);
    assert(is_free_of(tail, '\r')) by {
        assert forall|j: int| 0 <= j < tail.len() implies tail[j] != '\r' by {
            assert(only('\n')(text[end + j]));
        }
    }
    lemma_concat_is_free_of(joined, tail, '\r');
}

/// The number of lines of a text, from the lines before the line feeds at
/// its end and the number of those line feeds: each line feed but the first
/// adds a blank line, and the first does when no line comes before it.
pub proof fn lemma_lines_with_tail(text: Seq<char>)
    ensures
        lines_of(text).len() == main_lines(text).len() + ({
            let count = tail_feeds(text);
            if count == 0 {
                0
            } else if main_lines(text).len() == 0 {
                count
            } else {
                count - 1
            }
        }),
    decreases tail_feeds(text),
{
    let count = tail_feeds(text);
    lemma_tail_run_length(text, only('\n'));
    let main = text.take(text.len() - count);
    lemma_no_lines(main);
    if count == 0 {
        assert(main == text);
    } else {
        let shorter = text.drop_last();
        assert(only('\n')(text.last()));
        assert(tail_run_length(shorter, only('\n')) == count - 1);
        assert(shorter.take(shorter.len() - (count - 1)) == main);
        assert(shorter.push('\n') == text);
        lemma_lines_with_tail(shorter);
        lemma_lines_of_extended(shorter);
        if count == 1 {
            assert(shorter == main);
            if main.len() > 0 {
                assert(!only('\n')(text[text.len() - count - 1]));
                assert(main.last() == text[text.len() - count - 1]);
            }
        } else {
            assert(shorter.last() == text[text.len() - 2]);
            assert(only('\n')(text[text.len() - 2]));
        }
    }
}

/// A text joined from as many lines as another has, with the same line
/// feeds at the end, has as many lines as the other.
pub proof fn lemma_line_count_with_tail(lines: Seq<Seq<char>>, text: Seq<char>)
    requires
        forall|i: int| 0 <= i < lines.len() ==> is_one_line(#[trigger] lines[i]),
        lines.len() > 0 ==> lines.last().len() > 0,
        lines.len() == main_lines(text).len(),
    ensures
        lines_of(with_tail(lines, text)).len() == lines_of(text).len(),
{
    lemma_rejoined(lines, text);
    lemma_lines_with_tail(text);
    lemma_lines_with_tail(with_tail(lines, text));
}

/// The lines of any text, the line feeds at its end set aside, hold no
/// line feed, and the last of them is not empty.
pub proof fn lemma_main_lines_of_any_text(text: Seq<char>)
    ensures
        forall|i: int|
            0 <= i < main_lines(text).len() ==> is_free_of(#[trigger] main_lines(text)[i], '\n'),
        main_lines(text).len() > 0 ==> main_lines(text).last().len() > 0,
{
    let count = tail_feeds(text);
    lemma_tail_run_length(text, only('\n'));
    let end = text.len() - count;
    let main = text.take(end);
    assert forall|i: int| 0 <= i < lines_of(main).len() implies is_free_of(
        #[trigger] lines_of(main)[i],
        '\n',
    ) by {
        lemma_lines_of_text(main, i);
    }
    lemma_split_nonempty(main, '\n');
    if main.len() > 0 {
        assert(!only('\n')(text[end - 1]));
        assert(main.last() == text[end - 1]);
        lemma_last_piece(main, '\n');
    } else {
        lemma_no_lines(main);
    }
}

/// Lines without line feeds, the last of them not empty, are as many as the
/// lines of the text they are joined to.
pub proof fn lemma_line_count_of_join(lines: Seq<Seq<char>>)
    requires
        forall|i: int| 0 <= i < lines.len() ==> is_free_of(#[trigger] lines[i], '\n'),
        lines.len() > 0 ==> lines.last().len() > 0,
    ensures
        lines_of(join(lines, '\n')).len() == lines.len(),
{
    if lines.len() == 0 {
        lemma_no_lines(join(lines, '\n'));
    } else {
        lemma_split_of_join(lines, '\n');
    }
}

/// A text joined from as many lines without line feeds as another text has,
/// the last of them not empty, with the line feeds of the other at its end,
/// has as many lines as the other, and ends with as many line feeds.
pub proof fn lemma_line_count_of_any_text(lines: Seq<Seq<char>>, text: Seq<char>)
    requires
        forall|i: int| 0 <= i < lines.len() ==> is_free_of(#[trigger] lines[i], '\n'),
        lines.len() > 0 ==> lines.last().len() > 0,
        lines.len() == main_lines(text).len(),
    ensures
        lines_of(with_tail(lines, text)).len() == lines_of(text).len(),
        tail_feeds(with_tail(lines, text)) == tail_feeds(text),
{
    let count = tail_feeds(text);
    lemma_tail_run_length(text, only('\n'));
    let end = text.len() - count;
    let tail = text.skip(end);
    let joined = join(lines, '\n');
    let whole = with_tail(lines, text);
    assert(whole == joined + tail);
    if lines.len() > 0 {
        lemma_join_ends_with_last(lines, '\n');
        assert(joined.last() != '\n');
        assert(whole[joined.len() - 1] == joined.last());
    }
    assert forall|j: int| whole.len() - count <= j < whole.len() implies only('\n')(
        #[trigger] whole[j],
    ) by {
        assert(whole[j] == tail[j - joined.len()]);
        assert(tail[j - joined.len()] == text[end + (j - joined.len())]);
    }
    lemma_tail_run_length_is(whole, only('\n'), count);
    assert(whole.take(whole.len() - count) == joined);
    lemma_line_count_of_join(lines);
    lemma_lines_with_tail(text);
    lemma_lines_with_tail(whole);
}

} // verus!
