//! Extraction of a title, a description, and a source body from the
//! comment-delimited header block at the top of a text document.

pub mod text;
pub mod parser;
