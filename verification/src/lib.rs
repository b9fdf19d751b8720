//! Text-segmentation primitives over UTF-8 text: a script-aware word counter,
//! a paragraph counter, a byte-budgeted chunk splitter, a whole-word-bounded
//! N-way splitter, a nested-tag stripper, and small substring helpers.
//!
//! Every function is specified over the character sequence (`Seq<char>`) of
//! its input, and byte-level guarantees are stated through the UTF-8 encoding
//! of that sequence, so no output can ever hold a truncated multi-byte
//! encoding.

pub mod chars;
pub mod chunks;
pub mod classify;
pub mod paragraphs;
pub mod splitter;
pub mod substrings;
pub mod tags;
pub mod words;

pub use chunks::split_into_chunks;
pub use classify::is_cjk;
pub use paragraphs::count_paragraphs;
pub use splitter::split_upto_n_by_word;
pub use substrings::find_value_by_key;
pub use substrings::get_first_occurrance;
pub use substrings::get_first_of_split;
pub use substrings::remove_char;
pub use tags::remove_tagged_regions;
pub use words::word_count;
