//! Text as the content of a tree: split points that respect characters and
//! line breaks, and comparisons of text that is held in chunks.
pub mod byte_metric;
pub mod graphemes;
pub mod rope_chunk;
pub mod utils;
