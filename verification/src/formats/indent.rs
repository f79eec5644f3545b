//! What the two indentation scanners share: which lines they pass over, how
//! wide one level of indentation is, and how a match moves them along the
//! path.

use crate::text::{chars_of, count_leading_whitespace, leading_spaces, starts_with, trim, trimmed};
use vstd::prelude::*;

verus! {

/// A line that is blank or starts, after its indentation, with `marker`.
pub open spec fn is_skipped(line: Seq<char>, marker: Seq<char>) -> bool {
    trimmed(line).len() == 0 || marker.is_prefix_of(trimmed(line))
}

/// The width of one level of indentation: the number of whitespace
/// characters before the first content line that has any, or 2 when no
/// content line is indented.
pub open spec fn indent_unit(lines: Seq<Seq<char>>, marker: Seq<char>) -> int
    decreases lines.len(),
{
    if lines.len() == 0 {
        2
    } else if !is_skipped(lines[0], marker) && leading_spaces(lines[0]) > 0 {
        leading_spaces(lines[0])
    } else {
        indent_unit(lines.drop_first(), marker)
    }
}

/// Where the scan stands after a content line, and whether the line is the
/// target: a line that matches the segment looked for is the target if the
/// segment is the last, and moves the scan to the next segment if not.
pub open spec fn advance(segment: int, matched: bool, segments: int) -> (int, bool) {
    if matched && segment < segments {
        if segment == segments - 1 {
            (segment, true)
        } else {
            (segment + 1, false)
        }
    } else {
        (segment, false)
    }
}

/// Whether `line` is blank or starts, after its indentation, with `marker`.
pub fn skips(line: &str, marker: &str) -> (r: bool)
    ensures
        r == is_skipped(line@, marker@),
{
    let t = trim(line);
    t.as_str().is_empty() || starts_with(t.as_str(), marker)
}

/// The width of one level of indentation in `lines`.
pub fn detect_indent(lines: &Vec<String>, marker: &str) -> (unit: usize)
    ensures
        unit == indent_unit(lines.deep_view(), marker@),
        unit > 0,
{
    let mut i: usize = 0;
    assert(lines.deep_view().skip(0) == lines.deep_view());
    while i < lines.len()
        invariant
            i <= lines.len(),
            indent_unit(lines.deep_view(), marker@) == indent_unit(
                lines.deep_view().skip(i as int),
                marker@,
            ),
        decreases lines.len() - i,
    {
        let ghost rest = lines.deep_view().skip(i as int);
        assert(rest[0] == lines[i as int]@);
        assert(rest.drop_first() == lines.deep_view().skip(i + 1));
        let line = lines[i].as_str();
        if !skips(line, marker) {
            let chars = chars_of(line);
            let lead = count_leading_whitespace(&chars);
            if lead > 0 {
                return lead;
            }
        }
        i += 1;
    }
    2
}

/// Moves a scan over one content line.
pub fn step(segment: usize, matched: bool, segments: usize) -> (r: (usize, bool))
    ensures
        (r.0 as int, r.1) == advance(segment as int, matched, segments as int),
        segment <= segments ==> r.0 <= segments,
        r.1 ==> r.0 < segments,
        !r.1 && segment < segments ==> r.0 < segments,
{
    if matched && segment < segments {
        if segment == segments - 1 {
            (segment, true)
        } else {
            (segment + 1, false)
        }
    } else {
        (segment, false)
    }
}

} // verus!
