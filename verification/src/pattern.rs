//! Line shapes are recognised with the `regex` crate. This module holds the
//! calls into it, and the names under which the rest of the library speaks
//! of what they return.

use vstd::prelude::*;

verus! {

/// The error of the `regex` compiler.
#[verifier::external_type_specification]
#[verifier::external_body]
pub struct ExPatternError(regex::Error);

/// The capture groups of the leftmost match of `pattern` in `haystack`, as
/// `Regex::captures` reports them: `None` when nothing matches; otherwise one
/// entry per group, group 0 being the whole match, each the matched text or
/// `None` for a group that took no part.
pub uninterp spec fn regex_captures(pattern: Seq<char>, haystack: Seq<char>) -> Option<
    Seq<Option<Seq<char>>>,
>;

/// The capture groups of each match of `pattern` in `haystack`, from left to
/// right, as `Regex::captures_iter` yields them and `Regex::replace_all`
/// hands them to its replacer.
pub uninterp spec fn regex_matches(pattern: Seq<char>, haystack: Seq<char>) -> Seq<
    Seq<Option<Seq<char>>>,
>;

/// What `Regex::replace_all` makes of `haystack` when its replacer gives
/// `fills[i]` for the match at index `i`: the haystack with each match of
/// `pattern` replaced by its fill.
pub uninterp spec fn regex_replaced(
    pattern: Seq<char>,
    haystack: Seq<char>,
    fills: Seq<Seq<char>>,
) -> Seq<char>;

/// Whether `Regex::new` accepts `pattern`: it is well formed and what it
/// compiles to stays under the size limit that the crate sets by default.
pub uninterp spec fn regex_compiles(pattern: Seq<char>) -> bool;

/// The characters that `regex::escape` guards with a backslash.
pub open spec fn is_meta(c: char) -> bool {
    c == '\\' || c == '.' || c == '+' || c == '*' || c == '?' || c == '(' || c == ')' || c == '|'
        || c == '[' || c == ']' || c == '{' || c == '}' || c == '^' || c == '$' || c == '#' || c
        == '&' || c == '-' || c == '~'
}

/// `text` with a backslash put before each meta character.
pub open spec fn escaped(text: Seq<char>) -> Seq<char>
    decreases text.len(),
{
    if text.len() == 0 {
        text
    } else if is_meta(text.last()) {
        escaped(text.drop_last()).push('\\').push(text.last())
    } else {
        escaped(text.drop_last()).push(text.last())
    }
}

/// `regex::escape` copies its argument and puts a backslash before each of
/// the eighteen meta characters.
pub assume_specification[ regex::escape ](pattern: &str) -> (r: String)
    ensures
        r@ == escaped(pattern@),
;

/// Whether `part` is a stretch of `whole`.
pub open spec fn is_part_of(part: Seq<char>, whole: Seq<char>) -> bool {
    exists|i: int, j: int| 0 <= i <= j <= whole.len() && #[trigger] whole.subrange(i, j) == part
}

/// Whether every group that took part is a stretch of `whole`.
pub open spec fn are_parts_of(groups: Seq<Option<Seq<char>>>, whole: Seq<char>) -> bool {
    forall|k: int|
        0 <= k < groups.len() && (#[trigger] groups[k]) is Some ==> is_part_of(groups[k]->0, whole)
}

/// The capture groups of the leftmost match of `pattern` in `haystack`, each
/// a stretch of the haystack.
pub open spec fn captured(pattern: Seq<char>, haystack: Seq<char>) -> Option<
    Seq<Option<Seq<char>>>,
> {
    let found = regex_captures(pattern, haystack);
    if found is Some && are_parts_of(found->0, haystack) {
        found
    } else {
        None
    }
}

/// Compiles `pattern` with `Regex::new` and searches `haystack` with
/// `Regex::captures`. When the pattern compiles, the groups returned are
/// those that the crate reports for this pattern and haystack, and the text
/// of each is the stretch of the haystack that it matched. The search itself
/// never fails: an error is the compiler's, and comes for this pattern on
/// every haystack or on none.
#[verifier::external_body]
fn search(pattern: &str, haystack: &str) -> (r: Result<Option<Vec<Option<String>>>, regex::Error>)
    ensures
        r is Ok <==> regex_compiles(pattern@),
        r matches Ok(found) ==> found.deep_view() == regex_captures(pattern@, haystack@),
        r matches Ok(Some(groups)) ==> are_parts_of(groups.deep_view(), haystack@),
{
    let re = regex::Regex::new(pattern)?;
    Ok(re.captures(haystack).map(|caps| {
        caps.iter().map(|group| group.map(|m| m.as_str().to_string())).collect()
    }))
}

/// The capture groups of the leftmost match of `pattern` in `haystack`. The
/// search fails exactly when the pattern does not compile.
pub fn captures(pattern: &str, haystack: &str) -> (r: Result<
    Option<Vec<Option<String>>>,
    regex::Error,
>)
    ensures
        r is Ok <==> regex_compiles(pattern@),
        r matches Ok(found) ==> found.deep_view() == captured(pattern@, haystack@),
{
    search(pattern, haystack)
}

/// A stretch of a text holds no character that the text does not hold.
pub proof fn lemma_part_is_free_of(part: Seq<char>, whole: Seq<char>, c: char)
    requires
        is_part_of(part, whole),
        forall|i: int| 0 <= i < whole.len() ==> whole[i] != c,
    ensures
        forall|i: int| 0 <= i < part.len() ==> part[i] != c,
{
    let (i, j) = choose|i: int, j: int|
        0 <= i <= j <= whole.len() && #[trigger] whole.subrange(i, j) == part;
    assert forall|k: int| 0 <= k < part.len() implies part[k] != c by {
        assert(part[k] == whole[i + k]);
    }
}

/// The text of a group is a stretch of the haystack.
pub proof fn lemma_group_is_part(pattern: Seq<char>, haystack: Seq<char>, i: int)
    requires
        captured(pattern, haystack) is Some,
    ensures
        is_part_of(group_text(captured(pattern, haystack)->0, i), haystack),
{
    let groups = captured(pattern, haystack)->0;
    if 0 <= i < groups.len() && groups[i] is Some {
    } else {
        assert(haystack.subrange(0, 0) == Seq::<char>::empty());
    }
}

/// The text of group `i`, empty when the group is absent.
pub open spec fn group_text(groups: Seq<Option<Seq<char>>>, i: int) -> Seq<char> {
    if 0 <= i < groups.len() && groups[i] is Some {
        groups[i]->0
    } else {
        Seq::empty()
    }
}

/// The text that group `i` matched, or the empty string when the pattern has
/// no such group or the group took no part in the match.
pub fn group_or_empty(groups: &Vec<Option<String>>, i: usize) -> (r: String)
    ensures
        r@ == group_text(groups.deep_view(), i as int),
{
    if i < groups.len() {
        match &groups[i] {
            Some(text) => text.clone(),
            None => String::new(),
        }
    } else {
        String::new()
    }
}

/// The groups that the first of `patterns` to match `haystack` captures.
pub open spec fn first_capture(patterns: Seq<Seq<char>>, haystack: Seq<char>) -> Option<
    Seq<Option<Seq<char>>>,
>
    decreases patterns.len(),
{
    if patterns.len() == 0 {
        None
    } else if captured(patterns[0], haystack) is Some {
        captured(patterns[0], haystack)
    } else {
        first_capture(patterns.drop_first(), haystack)
    }
}

/// Whether trying `patterns` in order comes to one that does not compile
/// before one matches.
pub open spec fn first_failure(patterns: Seq<Seq<char>>, haystack: Seq<char>) -> bool
    decreases patterns.len(),
{
    if patterns.len() == 0 {
        false
    } else if !regex_compiles(patterns[0]) {
        true
    } else if captured(patterns[0], haystack) is Some {
        false
    } else {
        first_failure(patterns.drop_first(), haystack)
    }
}

/// Tries `patterns` in order and returns the groups of the first that
/// matches. A pattern is compiled only when its turn comes, so the search
/// fails exactly when it comes to a pattern that does not compile before one
/// matches.
pub fn capture_first(patterns: &Vec<&str>, haystack: &str) -> (r: Result<
    Option<Vec<Option<String>>>,
    regex::Error,
>)
    ensures
        r matches Ok(found) ==> found.deep_view() == first_capture(
            patterns.deep_view(),
            haystack@,
        ),
        r is Err <==> first_failure(patterns.deep_view(), haystack@),
{
    let mut i: usize = 0;
    assert(patterns.deep_view().skip(0) == patterns.deep_view());
    while i < patterns.len()
        invariant
            i <= patterns.len(),
            first_failure(patterns.deep_view(), haystack@) == first_failure(
                patterns.deep_view().skip(i as int),
                haystack@,
            ),
            first_capture(patterns.deep_view(), haystack@) == first_capture(
                patterns.deep_view().skip(i as int),
                haystack@,
            ),
        decreases patterns.len() - i,
    {
        let ghost rest = patterns.deep_view().skip(i as int);
        assert(rest[0] == patterns[i as int]@);
        assert(rest.drop_first() == patterns.deep_view().skip(i + 1));
        match captures(patterns[i], haystack) {
            Ok(Some(groups)) => {
                return Ok(Some(groups));
            },
            Ok(None) => {},
            Err(error) => {
                return Err(error);
            },
        }
        i += 1;
    }
    Ok(None)
}

/// The text of a group of the first pattern to match is a stretch of the
/// haystack.
pub proof fn lemma_first_group_is_part(patterns: Seq<Seq<char>>, haystack: Seq<char>, i: int)
    requires
        first_capture(patterns, haystack) is Some,
    ensures
        is_part_of(group_text(first_capture(patterns, haystack)->0, i), haystack),
    decreases patterns.len(),
{
    if patterns.len() > 0 {
        if captured(patterns[0], haystack) is Some {
            lemma_group_is_part(patterns[0], haystack, i);
        } else {
            lemma_first_group_is_part(patterns.drop_first(), haystack, i);
        }
    }
}

} // verus!
