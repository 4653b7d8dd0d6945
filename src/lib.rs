//! Metadata from single lines of unified-diff text: the extension and change
//! description of a `diff --git` file header, and the new-file start line and
//! code context of an `@@` hunk header.

pub mod text;
pub mod parse;
