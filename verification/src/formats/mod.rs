//! One adapter per file format. Each finds the line that holds the value a
//! path names and rewrites the value on that line.

pub mod hocon;
pub mod indent;
pub mod json;
pub mod properties;
pub mod region;
pub mod toml;
pub mod xml;
pub mod yaml;
