//! Named values in the order in which they were first given.

use crate::text::same_text;
use vstd::prelude::*;

verus! {

/// The position of the first entry under `name`, or the length of the list
/// when there is none.
pub open spec fn position_of(variables: Seq<(Seq<char>, Seq<char>)>, name: Seq<char>) -> int
    decreases variables.len(),
{
    if variables.len() == 0 || variables[0].0 == name {
        0
    } else {
        1 + position_of(variables.drop_first(), name)
    }
}

/// The value of `name`: that of the first entry under that name.
pub open spec fn value_of(variables: Seq<(Seq<char>, Seq<char>)>, name: Seq<char>) -> Option<
    Seq<char>,
> {
    let at = position_of(variables, name);
    if 0 <= at < variables.len() {
        Some(variables[at].1)
    } else {
        None
    }
}

/// The list with `name` set to `value`: in place where the name was there,
/// at the end where it was not.
pub open spec fn with_value(
    variables: Seq<(Seq<char>, Seq<char>)>,
    name: Seq<char>,
    value: Seq<char>,
) -> Seq<(Seq<char>, Seq<char>)> {
    let at = position_of(variables, name);
    if 0 <= at < variables.len() {
        variables.update(at, (name, value))
    } else {
        variables.push((name, value))
    }
}

/// The only position before which no entry has the name, and at which one
/// has it if it is inside the list, is `position_of`.
pub proof fn lemma_position_is(
    variables: Seq<(Seq<char>, Seq<char>)>,
    name: Seq<char>,
    at: int,
)
    requires
        0 <= at <= variables.len(),
        forall|j: int| 0 <= j < at ==> (#[trigger] variables[j]).0 != name,
        at < variables.len() ==> variables[at].0 == name,
    ensures
        position_of(variables, name) == at,
    decreases variables.len(),
{
    if at > 0 {
        let rest = variables.drop_first();
        assert(variables[0].0 != name);
        assert forall|j: int| 0 <= j < at - 1 implies (#[trigger] rest[j]).0 != name by {
            assert(rest[j] == variables[j + 1]);
        }
        lemma_position_is(rest, name, at - 1);
    }
}

/// The position of the first entry under `name`.
pub fn find(variables: &Vec<(String, String)>, name: &str) -> (at: usize)
    ensures
        at == position_of(variables.deep_view(), name@),
        at <= variables.len(),
{
    let mut i: usize = 0;
    while i < variables.len()
        invariant
            i <= variables.len(),
            forall|j: int| 0 <= j < i ==> (#[trigger] variables.deep_view()[j]).0 != name@,
        decreases variables.len() - i,
    {
        if same_text(variables[i].0.as_str(), name) {
            proof {
                assert(variables.deep_view()[i as int].0 == name@);
                lemma_position_is(variables.deep_view(), name@, i as int);
            }
            return i;
        }
        assert(variables.deep_view()[i as int].0 != name@);
        i += 1;
    }
    proof {
        lemma_position_is(variables.deep_view(), name@, i as int);
    }
    i
}

/// The value of `name` among `variables`.
pub fn lookup<'a>(variables: &'a Vec<(String, String)>, name: &str) -> (r: Option<&'a String>)
    ensures
        r.deep_view() == value_of(variables.deep_view(), name@),
{
    let at = find(variables, name);
    if at < variables.len() {
        assert(variables.deep_view()[at as int].1 == variables[at as int].1@);
        Some(&variables[at].1)
    } else {
        None
    }
}

/// Sets `name` to `value`.
pub fn insert(variables: &mut Vec<(String, String)>, name: String, value: String)
    ensures
        final(variables).deep_view() == with_value(old(variables).deep_view(), name@, value@),
{
    let at = find(variables, name.as_str());
    let ghost before = variables.deep_view();
    if at < variables.len() {
        variables[at] = (name, value);
        assert(variables.deep_view() == before.update(at as int, (name@, value@)));
    } else {
        variables.push((name, value));
        assert(variables.deep_view() == before.push((name@, value@)));
    }
}

} // verus!
