//! Why an edit was refused.

use vstd::prelude::*;

verus! {

/// The ways in which an adapter can decline to produce a new text.
#[derive(Debug)]
pub enum UpdateError {
    /// The path ends at a self-closing element, which has no text to replace.
    SelfClosing,
    /// The regular-expression compiler refused the pattern for a line shape.
    Pattern(regex::Error),
}

impl UpdateError {
    /// A sentence for the person who asked for the edit.
    pub fn message(&self) -> (text: String)
        ensures
            self is SelfClosing ==> text@ == "Cannot update self-closing tags"@,
    {
        match self {
            UpdateError::SelfClosing => "Cannot update self-closing tags".to_string(),
            UpdateError::Pattern(error) => error.to_string(),
        }
    }
}

} // verus!
