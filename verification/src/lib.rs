//! Splitting extracted document text into chunks of bounded size.
//!
//! Three ways of cutting are offered: windows of a fixed number of grapheme
//! clusters with a fixed overlap (`chunk_text_with_overlap`), whole units
//! packed up to a number of words (`get_chunks`), and units packed up to a
//! number of words and a number of bytes, cut further where one is too large
//! on its own (`adaptive_split`). Around them stand the extraction of text
//! from HTML and two small helpers.

pub mod adaptive;
pub mod chars;
pub mod html;
pub mod interleave;
pub mod json;
pub mod pack;
pub mod window;
pub mod words;

pub use crate::adaptive::{
    adaptive_split, adaptive_split_with_warnings, oversized_chunks, process_elements, Granularity,
};
pub use crate::html::{extract_code_and_paragraphs, extract_tables_to_csv};
pub use crate::interleave::interleave_vectors;
pub use crate::json::extract_json;
pub use crate::pack::{clean_input, get_chunks};
pub use crate::window::{chunk_text_with_overlap, window_clusters, ChunkError};
pub use crate::words::trim_whitespace;
