//! Verified building blocks for a small family of line-oriented text tools:
//! a line/word/byte/character counter, a line numberer, a file-prefix viewer
//! and a substring searcher.

pub mod cat;
pub mod grep;
pub mod head;
pub mod render;
pub mod source;
pub mod text;
pub mod wc;
