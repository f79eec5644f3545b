//! Edits one value inside a configuration file, leaving every other line of
//! the file as it was.
//!
//! A value is addressed by a dotted path such as
//! `database.credentials.username`. Each of the six adapters under
//! [`formats`] takes the text of a file, a path and the new value, finds the
//! one line that holds the value and rewrites the value on it; a comment on
//! that line stays. A path that names nothing leaves the text alone.
//!
//! The adapters read a file line by line and recognise the shape of a line
//! with regular expressions. What a search returns is known to the proofs
//! only by name (see [`pattern`]); what the adapters do with it is proved:
//! how a scan moves from line to line, which line it ends at, how the new
//! line is put together, and that no other line changes.
//!
//! Around the adapters stand the pieces that a batch run needs: the
//! configuration that lists files, paths and variables ([`config`]), the plan
//! of a run ([`plan`]), how a value is written in each format
//! ([`variable`]), and the reading of environment files ([`envfile`]).

pub mod apply;
pub mod config;
pub mod envfile;
pub mod error;
pub mod formats;
pub mod number;
pub mod pattern;
pub mod plan;
pub mod text;
pub mod tree;
pub mod variable;
pub mod variables;
