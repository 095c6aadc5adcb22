//! Collects documentation literals from a tokenized source file into blocks
//! of adjacent lines, keyed by file path, and merges such collections across
//! a project.

pub mod span;
pub mod literal;
pub mod literalset;
pub mod token;
pub mod path_map;
pub mod documentation;
pub mod laws;
