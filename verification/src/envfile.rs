//! Environment files: which ones are read for a mode, and what a value in
//! one of them stands for.

use crate::pattern::{
    captured, captures, group_or_empty, group_text, regex_compiles, regex_matches,
    regex_replaced,
};
use crate::text::{
    chars_of, lines_of, same_text, split_lines, starts_with, text_between, trim, trimmed,
};
use crate::variables::{find, insert, lookup, value_of, with_value};
use vstd::prelude::*;
use vstd::string::*;

verus! {

/// The names of the files that are read for `mode`, in the order in which
/// they are read: the two general ones, then the two of the mode if there is
/// one.
pub open spec fn env_file_names(mode: Seq<char>) -> Seq<Seq<char>> {
    if mode.len() == 0 {
        seq![".env"@, ".env.local"@]
    } else {
        seq![".env"@, ".env.local"@, ".env."@ + mode, ".env."@ + mode + ".local"@]
    }
}

/// The names of the environment files for `mode`, in reading order. Which of
/// them exist is for the caller to find out.
pub fn get_env_file_paths(mode: &str) -> (names: Vec<String>)
    ensures
        names.deep_view() == env_file_names(mode@),
{
    let mut names: Vec<String> = Vec::new();
    names.push(".env".to_string());
    names.push(".env.local".to_string());
    if !mode.is_empty() {
        let mut plain = ".env.".to_string();
        plain.append(mode);
        let mut local = ".env.".to_string();
        local.append(mode);
        local.append(".local");
        names.push(plain);
        names.push(local);
    }
    assert(names.deep_view() =~= env_file_names(mode@));
    names
}

/// `value` trimmed, and without the quotes around it when it starts and ends
/// with the same quote character.
pub open spec fn unquoted(value: Seq<char>) -> Seq<char> {
    let t = trimmed(value);
    if t.len() >= 2 && (t.first() == '"' || t.first() == '\'') && t.last() == t.first() {
        t.subrange(1, t.len() - 1)
    } else {
        t
    }
}

/// The value that stands between a pair of quotes, or the trimmed value
/// when there is no such pair.
pub fn unquote_value(value: &str) -> (r: String)
    ensures
        r@ == unquoted(value@),
{
    let t = trim(value);
    let chars = chars_of(t.as_str());
    let n = chars.len();
    if n >= 2 && (chars[0] == '"' || chars[0] == '\'') && chars[n - 1] == chars[0] {
        text_between(&chars, 1, n - 1)
    } else {
        t
    }
}

/// The shape of a definition: a name, `=`, the value, and an optional
/// comment.
pub const DEFINITION: &'static str = r"(?m)^\s*([A-Za-z_][A-Za-z0-9_]*)\s*=\s*(.*?)(\s*#.*)?$";

/// The shape of a reference: `$` and a name, which may stand in braces.
pub const REFERENCE: &'static str = r"\$(?:\{([A-Za-z_][A-Za-z0-9_]*)\}|([A-Za-z_][A-Za-z0-9_]*))";

/// The number of rounds after which references are no longer followed.
pub const MAX_PASSES: usize = 15;

/// Why an environment file was not taken in.
#[derive(Debug)]
pub enum EnvError {
    /// A line that is neither blank, nor a comment, nor a definition.
    InvalidLine(String),
    /// The regular-expression compiler refused a pattern.
    Pattern(regex::Error),
}

impl EnvError {
    /// A sentence for the person who wrote the file.
    pub fn message(&self) -> (text: String)
        ensures
            self matches EnvError::InvalidLine(line) ==> text@ == "Invalid line format: "@ + line@,
    {
        match self {
            EnvError::InvalidLine(line) => {
                let mut text = "Invalid line format: ".to_string();
                text.append(line.as_str());
                text
            },
            EnvError::Pattern(error) => error.to_string(),
        }
    }
}

/// The mode of a run: the first of the two settings that is there, else
/// `development`.
pub open spec fn mode_of(first: Option<Seq<char>>, second: Option<Seq<char>>) -> Seq<char> {
    match first {
        Some(mode) => mode,
        None => match second {
            Some(mode) => mode,
            None => "development"@,
        },
    }
}

/// The mode of a run, from the two settings that may name it.
pub fn get_current_mode(first: Option<&str>, second: Option<&str>) -> (mode: String)
    ensures
        mode@ == mode_of(first.deep_view(), second.deep_view()),
{
    match first {
        Some(mode) => mode.to_string(),
        None => match second {
            Some(mode) => mode.to_string(),
            None => "development".to_string(),
        },
    }
}

/// A trimmed line that is blank or a comment.
pub open spec fn is_skipped(line: Seq<char>) -> bool {
    line.len() == 0 || "#"@.is_prefix_of(line)
}

/// What the lines of a file come to.
pub enum Reading {
    /// The definitions, name and value as written, in order.
    Definitions(Seq<(Seq<char>, Seq<char>)>),
    /// The first line that is no definition.
    Invalid(Seq<char>),
}

/// What the first `upto` lines come to. A definition of a name that the
/// environment already has is passed over.
pub open spec fn read(
    lines: Seq<Seq<char>>,
    environment: Seq<(Seq<char>, Seq<char>)>,
    upto: int,
) -> Reading
    decreases upto,
{
    if upto <= 0 {
        Reading::Definitions(Seq::empty())
    } else {
        match read(lines, environment, upto - 1) {
            Reading::Invalid(line) => Reading::Invalid(line),
            Reading::Definitions(found) => {
                let line = trimmed(lines[upto - 1]);
                if is_skipped(line) {
                    Reading::Definitions(found)
                } else {
                    match captured(DEFINITION@, line) {
                        Some(groups) => {
                            let name = trimmed(group_text(groups, 1));
                            if value_of(environment, name) is Some {
                                Reading::Definitions(found)
                            } else {
                                Reading::Definitions(
                                    found.push((name, trimmed(group_text(groups, 2)))),
                                )
                            }
                        },
                        None => Reading::Invalid(line),
                    }
                }
            },
        }
    }
}

/// The variables after the first `upto` definitions were taken in, each
/// value without the quotes around it.
pub open spec fn defined(
    variables: Seq<(Seq<char>, Seq<char>)>,
    definitions: Seq<(Seq<char>, Seq<char>)>,
    upto: int,
) -> Seq<(Seq<char>, Seq<char>)>
    decreases upto,
{
    if upto <= 0 {
        variables
    } else {
        with_value(
            defined(variables, definitions, upto - 1),
            definitions[upto - 1].0,
            unquoted(definitions[upto - 1].1),
        )
    }
}

/// The name that a reference refers to: that between braces, or the bare one.
pub open spec fn referenced_name(groups: Seq<Option<Seq<char>>>) -> Seq<char> {
    if 1 < groups.len() && groups[1] is Some {
        groups[1]->0
    } else {
        group_text(groups, 2)
    }
}

/// What stands for a reference to `name`: the value among the variables,
/// else that in the environment, else nothing.
pub open spec fn resolved(
    name: Seq<char>,
    variables: Seq<(Seq<char>, Seq<char>)>,
    environment: Seq<(Seq<char>, Seq<char>)>,
) -> Seq<char> {
    match value_of(variables, name) {
        Some(value) => value,
        None => match value_of(environment, name) {
            Some(value) => value,
            None => Seq::empty(),
        },
    }
}

/// What stands for each of the references, in order.
pub open spec fn fills_of(
    references: Seq<Seq<Option<Seq<char>>>>,
    variables: Seq<(Seq<char>, Seq<char>)>,
    environment: Seq<(Seq<char>, Seq<char>)>,
) -> Seq<Seq<char>> {
    Seq::new(
        references.len(),
        |i: int| resolved(referenced_name(references[i]), variables, environment),
    )
}

/// `value` with each reference replaced by what it stands for.
pub open spec fn expanded(
    value: Seq<char>,
    variables: Seq<(Seq<char>, Seq<char>)>,
    environment: Seq<(Seq<char>, Seq<char>)>,
) -> Seq<char> {
    regex_replaced(
        REFERENCE@,
        value,
        fills_of(regex_matches(REFERENCE@, value), variables, environment),
    )
}

/// One round over the first `upto` entries of `snapshot`: each value is
/// expanded against the variables as they stand at that point, and set anew
/// if the expansion differs. The result says whether anything was set.
pub open spec fn pass(
    snapshot: Seq<(Seq<char>, Seq<char>)>,
    variables: Seq<(Seq<char>, Seq<char>)>,
    environment: Seq<(Seq<char>, Seq<char>)>,
    upto: int,
) -> (Seq<(Seq<char>, Seq<char>)>, bool)
    decreases upto,
{
    if upto <= 0 {
        (variables, false)
    } else {
        let (now, changed) = pass(snapshot, variables, environment, upto - 1);
        let (name, value) = snapshot[upto - 1];
        let text = expanded(value, now, environment);
        if text != value {
            (with_value(now, name, text), true)
        } else {
            (now, changed)
        }
    }
}

/// Rounds until one sets nothing, `budget` at most: the variables at the
/// end and the number of rounds made.
pub open spec fn settle(
    variables: Seq<(Seq<char>, Seq<char>)>,
    environment: Seq<(Seq<char>, Seq<char>)>,
    budget: nat,
) -> (Seq<(Seq<char>, Seq<char>)>, nat)
    decreases budget,
{
    if budget == 0 {
        (variables, 0)
    } else {
        let (next, changed) = pass(variables, variables, environment, variables.len() as int);
        if changed {
            let (last, rounds) = settle(next, environment, (budget - 1) as nat);
            (last, rounds + 1)
        } else {
            (next, 1)
        }
    }
}

/// A copy of `variables`.
pub fn copy_of(variables: &Vec<(String, String)>) -> (copy: Vec<(String, String)>)
    ensures
        copy.deep_view() == variables.deep_view(),
{
    let mut copy: Vec<(String, String)> = Vec::new();
    let mut i: usize = 0;
    while i < variables.len()
        invariant
            i <= variables.len(),
            copy.deep_view() == variables.deep_view().take(i as int),
        decreases variables.len() - i,
    {
        let ghost before = copy.deep_view();
        copy.push((variables[i].0.clone(), variables[i].1.clone()));
        assert(copy.deep_view() == before.push(variables.deep_view()[i as int]));
        i += 1;
    }
    assert(variables.deep_view().take(variables.len() as int) == variables.deep_view());
    copy
}

/// Whether one of the first `upto` lines is neither blank nor a comment.
pub open spec fn has_content(lines: Seq<Seq<char>>, upto: int) -> bool
    decreases upto,
{
    upto > 0 && (has_content(lines, upto - 1) || !is_skipped(trimmed(lines[upto - 1])))
}

/// Content among some lines is content among more lines.
pub proof fn lemma_has_content(lines: Seq<Seq<char>>, at: int, upto: int)
    requires
        0 <= at <= upto,
        has_content(lines, at),
    ensures
        has_content(lines, upto),
    decreases upto - at,
{
    if at < upto {
        lemma_has_content(lines, at, upto - 1);
    }
}

/// Reads the definitions off the lines of a file. The reading fails for the
/// pattern exactly when there is a line to read and the pattern of a
/// definition does not compile.
pub fn read_definitions(lines: &Vec<String>, environment: &Vec<(String, String)>) -> (r: Result<
    Vec<(String, String)>,
    EnvError,
>)
    ensures
        match r {
            Ok(found) => read(lines.deep_view(), environment.deep_view(), lines.len() as int)
                == Reading::Definitions(found.deep_view()),
            Err(EnvError::InvalidLine(line)) => read(
                lines.deep_view(),
                environment.deep_view(),
                lines.len() as int,
            ) == Reading::Invalid(line@),
            Err(EnvError::Pattern(_)) => true,
        },
        r matches Err(EnvError::Pattern(_)) <==> has_content(
            lines.deep_view(),
            lines.len() as int,
        ) && !regex_compiles(DEFINITION@),
{
    let mut found: Vec<(String, String)> = Vec::new();
    let mut i: usize = 0;
    assert(found.deep_view() == Seq::<(Seq<char>, Seq<char>)>::empty());
    while i < lines.len()
        invariant
            i <= lines.len(),
            read(lines.deep_view(), environment.deep_view(), i as int) == Reading::Definitions(
                found.deep_view(),
            ),
            has_content(lines.deep_view(), i as int) ==> regex_compiles(DEFINITION@),
        decreases lines.len() - i,
    {
        assert(lines.deep_view()[i as int] == lines[i as int]@);
        let line = trim(lines[i].as_str());
        if !(line.as_str().is_empty() || starts_with(line.as_str(), "#")) {
            match captures(DEFINITION, line.as_str()) {
                Ok(Some(groups)) => {
                    let name = trim(group_or_empty(&groups, 1).as_str());
                    let value = trim(group_or_empty(&groups, 2).as_str());
                    if lookup(environment, name.as_str()).is_none() {
                        let ghost before = found.deep_view();
                        found.push((name, value));
                        assert(found.deep_view() == before.push((name@, value@)));
                    }
                },
                Ok(None) => {
                    proof {
                        lemma_read_settled(
                            lines.deep_view(),
                            environment.deep_view(),
                            i + 1,
                            lines.len() as int,
                        );
                    }
                    return Err(EnvError::InvalidLine(line));
                },
                Err(error) => {
                    proof {
                        lemma_has_content(lines.deep_view(), i + 1, lines.len() as int);
                    }
                    return Err(EnvError::Pattern(error));
                },
            }
        }
        i += 1;
    }
    Ok(found)
}

/// Once a line is found invalid, reading further lines changes nothing.
pub proof fn lemma_read_settled(
    lines: Seq<Seq<char>>,
    environment: Seq<(Seq<char>, Seq<char>)>,
    at: int,
    upto: int,
)
    requires
        0 <= at <= upto,
        read(lines, environment, at) is Invalid,
    ensures
        read(lines, environment, upto) == read(lines, environment, at),
    decreases upto - at,
{
    if at < upto {
        lemma_read_settled(lines, environment, at, upto - 1);
    }
}

/// Takes the definitions in, each value without the quotes around it.
pub fn define(variables: &mut Vec<(String, String)>, definitions: &Vec<(String, String)>)
    ensures
        final(variables).deep_view() == defined(
            old(variables).deep_view(),
            definitions.deep_view(),
            definitions.len() as int,
        ),
{
    let mut i: usize = 0;
    while i < definitions.len()
        invariant
            i <= definitions.len(),
            variables.deep_view() == defined(
                old(variables).deep_view(),
                definitions.deep_view(),
                i as int,
            ),
        decreases definitions.len() - i,
    {
        assert(definitions.deep_view()[i as int] == (
            definitions[i as int].0@,
            definitions[i as int].1@,
        ));
        insert(
            variables,
            definitions[i].0.clone(),
            unquote_value(definitions[i].1.as_str()),
        );
        i += 1;
    }
}

/// What stands for a reference to `name`.
pub fn resolve(
    name: &str,
    variables: &Vec<(String, String)>,
    environment: &Vec<(String, String)>,
) -> (r: String)
    ensures
        r@ == resolved(name@, variables.deep_view(), environment.deep_view()),
{
    match lookup(variables, name) {
        Some(value) => value.clone(),
        None => match lookup(environment, name) {
            Some(value) => value.clone(),
            None => String::new(),
        },
    }
}

/// The name that a reference refers to.
pub fn name_of_reference(groups: &Vec<Option<String>>) -> (name: String)
    ensures
        name@ == referenced_name(groups.deep_view()),
{
    if 1 < groups.len() {
        match &groups[1] {
            Some(name) => {
                return name.clone();
            },
            None => {},
        }
    }
    group_or_empty(groups, 2)
}

/// What stands for the reference whose groups are `groups`.
pub fn reference_value(
    groups: &Vec<Option<String>>,
    variables: &Vec<(String, String)>,
    environment: &Vec<(String, String)>,
) -> (r: String)
    ensures
        r@ == resolved(
            referenced_name(groups.deep_view()),
            variables.deep_view(),
            environment.deep_view(),
        ),
{
    let name = name_of_reference(groups);
    resolve(name.as_str(), variables, environment)
}

/// Compiles `pattern` with `Regex::new` and calls `Regex::replace_all` on
/// `value` with a replacer that gives, for each match, what
/// `reference_value` makes of its groups. The result is what `replace_all`
/// makes of the value with those fills; an error is the compiler's.
#[verifier::external_body]
fn replace_references(
    pattern: &str,
    value: &str,
    variables: &Vec<(String, String)>,
    environment: &Vec<(String, String)>,
) -> (r: Result<String, regex::Error>)
    ensures
        r is Ok <==> regex_compiles(pattern@),
        r matches Ok(text) ==> text@ == regex_replaced(
            pattern@,
            value@,
            fills_of(
                regex_matches(pattern@, value@),
                variables.deep_view(),
                environment.deep_view(),
            ),
        ),
{
    let re = regex::Regex::new(pattern)?;
    let replacer = |caps: &regex::Captures| {
        let groups = caps.iter().map(|group| group.map(|m| m.as_str().to_string())).collect();
        reference_value(&groups, variables, environment)
    };
    Ok(re.replace_all(value, replacer).into_owned())
}

/// `value` with each reference replaced by what it stands for. The expansion
/// fails exactly when the pattern of a reference does not compile.
pub fn expand(
    value: &str,
    variables: &Vec<(String, String)>,
    environment: &Vec<(String, String)>,
) -> (r: Result<String, EnvError>)
    ensures
        r matches Ok(text) ==> text@ == expanded(
            value@,
            variables.deep_view(),
            environment.deep_view(),
        ),
        r matches Err(error) ==> error is Pattern,
        r is Err <==> !regex_compiles(REFERENCE@),
{
    match replace_references(REFERENCE, value, variables, environment) {
        Ok(text) => Ok(text),
        Err(error) => Err(EnvError::Pattern(error)),
    }
}

/// One round of expansion over `snapshot`. The round fails exactly when
/// there is a value to expand and the pattern of a reference does not
/// compile; the variables are then as they were.
pub fn expand_all(
    snapshot: &Vec<(String, String)>,
    variables: &mut Vec<(String, String)>,
    environment: &Vec<(String, String)>,
) -> (r: Result<bool, EnvError>)
    ensures
        r matches Ok(changed) ==> (final(variables).deep_view(), changed) == pass(
            snapshot.deep_view(),
            old(variables).deep_view(),
            environment.deep_view(),
            snapshot.len() as int,
        ),
        r matches Err(error) ==> error is Pattern && final(variables).deep_view() == old(
            variables,
        ).deep_view(),
        r is Err <==> snapshot.len() > 0 && !regex_compiles(REFERENCE@),
{
    let mut changed = false;
    let mut i: usize = 0;
    while i < snapshot.len()
        invariant
            i <= snapshot.len(),
            (variables.deep_view(), changed) == pass(
                snapshot.deep_view(),
                old(variables).deep_view(),
                environment.deep_view(),
                i as int,
            ),
            i > 0 ==> regex_compiles(REFERENCE@),
        decreases snapshot.len() - i,
    {
        assert(snapshot.deep_view()[i as int] == (snapshot[i as int].0@, snapshot[i as int].1@));
        let text = match expand(snapshot[i].1.as_str(), variables, environment) {
            Ok(text) => text,
            Err(error) => {
                return Err(error);
            },
        };
        if !same_text(text.as_str(), snapshot[i].1.as_str()) {
            insert(variables, snapshot[i].0.clone(), text);
            changed = true;
        }
        i += 1;
    }
    Ok(changed)
}

/// What taking a file in comes to: the variables afterwards and whether the
/// rounds ran out, or the line that is no definition.
pub enum Outcome {
    Taken(Seq<(Seq<char>, Seq<char>)>, bool),
    Invalid(Seq<char>),
}

/// What taking a file in comes to.
pub open spec fn outcome_of(
    contents: Seq<char>,
    variables: Seq<(Seq<char>, Seq<char>)>,
    environment: Seq<(Seq<char>, Seq<char>)>,
) -> Outcome {
    let lines = lines_of(contents);
    match read(lines, environment, lines.len() as int) {
        Reading::Definitions(found) => {
            let (last, rounds) = settle(
                defined(variables, found, found.len() as int),
                environment,
                MAX_PASSES as nat,
            );
            Outcome::Taken(last, rounds >= MAX_PASSES)
        },
        Reading::Invalid(line) => Outcome::Invalid(line),
    }
}

/// Whether taking a file in fails for a pattern: there is a line to read and
/// the pattern of a definition does not compile, or there is a value to
/// expand and the pattern of a reference does not compile.
pub open spec fn pattern_fails(
    contents: Seq<char>,
    variables: Seq<(Seq<char>, Seq<char>)>,
    environment: Seq<(Seq<char>, Seq<char>)>,
) -> bool {
    let lines = lines_of(contents);
    ||| has_content(lines, lines.len() as int) && !regex_compiles(DEFINITION@)
    ||| !regex_compiles(REFERENCE@) && (read(
        lines,
        environment,
        lines.len() as int,
    ) matches Reading::Definitions(found) && defined(variables, found, found.len() as int).len()
        > 0)
}

/// Takes the definitions of an environment file into `vars`, then follows
/// the references in all values for up to fifteen rounds. The result says
/// whether the rounds ran out, which points to a circular reference. A line
/// that is no definition is an error, and so is a pattern that does not
/// compile; on any error `vars` stays as it was.
pub fn parse_contents(
    contents: &str,
    vars: &mut Vec<(String, String)>,
    environment: &Vec<(String, String)>,
) -> (r: Result<bool, EnvError>)
    ensures
        match r {
            Ok(ran_out) => outcome_of(contents@, old(vars).deep_view(), environment.deep_view())
                == Outcome::Taken(final(vars).deep_view(), ran_out),
            Err(EnvError::InvalidLine(line)) => outcome_of(
                contents@,
                old(vars).deep_view(),
                environment.deep_view(),
            ) == Outcome::Invalid(line@),
            Err(EnvError::Pattern(_)) => true,
        },
        r is Err ==> final(vars).deep_view() == old(vars).deep_view(),
        r matches Err(EnvError::Pattern(_)) <==> pattern_fails(
            contents@,
            old(vars).deep_view(),
            environment.deep_view(),
        ),
{
    let lines = split_lines(contents);
    let found = match read_definitions(&lines, environment) {
        Ok(found) => found,
        Err(error) => {
            return Err(error);
        },
    };
    let mut work = copy_of(vars);
    define(&mut work, &found);
    let ghost start = work.deep_view();
    let mut rounds: usize = 0;
    let mut changed = true;
    while changed && rounds < MAX_PASSES
        invariant
            rounds <= MAX_PASSES,
            rounds > 0 ==> start.len() == 0 || regex_compiles(REFERENCE@),
            rounds > 0 && !regex_compiles(REFERENCE@) ==> !changed,
            rounds == 0 ==> changed && work.deep_view() == start,
            vars.deep_view() == old(vars).deep_view(),
            lines.deep_view() == lines_of(contents@),
            read(lines.deep_view(), environment.deep_view(), lines.len() as int)
                == Reading::Definitions(found.deep_view()),
            start == defined(old(vars).deep_view(), found.deep_view(), found.len() as int),
            has_content(lines.deep_view(), lines.len() as int) ==> regex_compiles(DEFINITION@),
            changed ==> settle(start, environment.deep_view(), MAX_PASSES as nat).0 == settle(
                work.deep_view(),
                environment.deep_view(),
                (MAX_PASSES - rounds) as nat,
            ).0,
            changed ==> settle(start, environment.deep_view(), MAX_PASSES as nat).1 == settle(
                work.deep_view(),
                environment.deep_view(),
                (MAX_PASSES - rounds) as nat,
            ).1 + rounds,
            !changed ==> settle(start, environment.deep_view(), MAX_PASSES as nat) == (
                work.deep_view(),
                rounds as nat,
            ),
        decreases MAX_PASSES - rounds,
    {
        let snapshot = copy_of(&work);
        changed = match expand_all(&snapshot, &mut work, environment) {
            Ok(changed) => changed,
            Err(error) => {
                return Err(error);
            },
        };
        rounds += 1;
    }
    *vars = work;
    Ok(rounds >= MAX_PASSES)
}

/// Why a set of environment files was not taken in: the index of the file
/// and what was wrong with it.
#[derive(Debug)]
pub struct LoadError {
    pub file: usize,
    pub cause: EnvError,
}

/// What taking a list of files in comes to.
pub enum Loading {
    /// The variables, and the number of files in which the rounds ran out.
    Loaded(Seq<(Seq<char>, Seq<char>)>, nat),
    /// The index of the first file with a line that is no definition, and
    /// that line.
    Failed(int, Seq<char>),
}

/// What taking the first `upto` files in comes to, one after the other into
/// the same variables.
pub open spec fn loading(
    files: Seq<Seq<char>>,
    environment: Seq<(Seq<char>, Seq<char>)>,
    upto: int,
) -> Loading
    decreases upto,
{
    if upto <= 0 {
        Loading::Loaded(Seq::empty(), 0)
    } else {
        match loading(files, environment, upto - 1) {
            Loading::Failed(file, line) => Loading::Failed(file, line),
            Loading::Loaded(variables, ran_out) => match outcome_of(
                files[upto - 1],
                variables,
                environment,
            ) {
                Outcome::Taken(next, out) => Loading::Loaded(
                    next,
                    if out {
                        ran_out + 1
                    } else {
                        ran_out
                    },
                ),
                Outcome::Invalid(line) => Loading::Failed(upto - 1, line),
            },
        }
    }
}

/// The first `upto` variables without those that the environment has.
pub open spec fn missing_from(
    variables: Seq<(Seq<char>, Seq<char>)>,
    environment: Seq<(Seq<char>, Seq<char>)>,
    upto: int,
) -> Seq<(Seq<char>, Seq<char>)>
    decreases upto,
{
    if upto <= 0 {
        Seq::empty()
    } else if value_of(environment, variables[upto - 1].0) is Some {
        missing_from(variables, environment, upto - 1)
    } else {
        missing_from(variables, environment, upto - 1).push(variables[upto - 1])
    }
}

/// Once a file has failed, further files change nothing.
pub proof fn lemma_loading_settled(
    files: Seq<Seq<char>>,
    environment: Seq<(Seq<char>, Seq<char>)>,
    at: int,
    upto: int,
)
    requires
        0 <= at <= upto,
        loading(files, environment, at) is Failed,
    ensures
        loading(files, environment, upto) == loading(files, environment, at),
    decreases upto - at,
{
    if at < upto {
        lemma_loading_settled(files, environment, at, upto - 1);
    }
}

/// Takes the texts of the environment files in, in order, and returns the
/// variables that the environment is to get: those that it does not have.
/// With them comes the number of files in which the rounds ran out. Where
/// the two patterns compile, the only error is a line that is no definition.
pub fn load(files: &Vec<String>, environment: &Vec<(String, String)>) -> (r: Result<
    (Vec<(String, String)>, usize),
    LoadError,
>)
    ensures
        match r {
            Ok((variables, ran_out)) => loading(
                files.deep_view(),
                environment.deep_view(),
                files.len() as int,
            ) matches Loading::Loaded(all, count) && count == ran_out && variables.deep_view()
                == missing_from(all, environment.deep_view(), all.len() as int),
            Err(LoadError { file, cause: EnvError::InvalidLine(line) }) => loading(
                files.deep_view(),
                environment.deep_view(),
                files.len() as int,
            ) == Loading::Failed(file as int, line@),
            Err(LoadError { file, cause: EnvError::Pattern(_) }) => file < files.len() && (
            !regex_compiles(DEFINITION@) || !regex_compiles(REFERENCE@)),
        },
        regex_compiles(DEFINITION@) && regex_compiles(REFERENCE@) ==> (r is Err <==> loading(
            files.deep_view(),
            environment.deep_view(),
            files.len() as int,
        ) is Failed),
{
    let mut all: Vec<(String, String)> = Vec::new();
    let mut ran_out: usize = 0;
    let mut i: usize = 0;
    assert(all.deep_view() == Seq::<(Seq<char>, Seq<char>)>::empty());
    while i < files.len()
        invariant
            i <= files.len(),
            ran_out <= i,
            loading(files.deep_view(), environment.deep_view(), i as int) == Loading::Loaded(
                all.deep_view(),
                ran_out as nat,
            ),
        decreases files.len() - i,
    {
        assert(files.deep_view()[i as int] == files[i as int]@);
        match parse_contents(files[i].as_str(), &mut all, environment) {
            Ok(out) => {
                if out {
                    ran_out += 1;
                }
            },
            Err(cause) => {
                proof {
                    if cause is InvalidLine {
                        lemma_loading_settled(
                            files.deep_view(),
                            environment.deep_view(),
                            i + 1,
                            files.len() as int,
                        );
                    }
                }
                return Err(LoadError { file: i, cause });
            },
        }
        i += 1;
    }
    let mut missing: Vec<(String, String)> = Vec::new();
    let mut k: usize = 0;
    assert(missing.deep_view() == Seq::<(Seq<char>, Seq<char>)>::empty());
    while k < all.len()
        invariant
            k <= all.len(),
            missing.deep_view() == missing_from(
                all.deep_view(),
                environment.deep_view(),
                k as int,
            ),
        decreases all.len() - k,
    {
        assert(all.deep_view()[k as int] == (all[k as int].0@, all[k as int].1@));
        if lookup(environment, all[k].0.as_str()).is_none() {
            let ghost before = missing.deep_view();
            missing.push((all[k].0.clone(), all[k].1.clone()));
            assert(missing.deep_view() == before.push(all.deep_view()[k as int]));
        }
        k += 1;
    }
    Ok((missing, ran_out))
}

} // verus!
