//! Extraction of structured documentation comments from source text.
//!
//! A doc comment block is a maximal run of lines whose trimmed form starts
//! with the `///` marker. The library segments an input buffer into such
//! blocks, extracts from each block a free-text description and the tagged
//! `@param` / `@return` fields, and renders the resulting records as
//! Markdown.

pub mod chars;
pub mod segment;
pub mod fields;
pub mod extract;
pub mod render;
pub mod roundtrip;
