//! Read-only queries over a fixed catalog of the most common English words,
//! ranked by frequency: the whole list in rank or alphabetical order, a
//! sub-range of ranks, a single word by rank, and the rank of a given word.

pub mod catalog;
pub mod order;

pub use catalog::get_word;
pub use catalog::get_words;
pub use catalog::get_words_a;
pub use catalog::get_words_range;
pub use catalog::get_words_range_a;
pub use catalog::is_top_word;
pub use catalog::RankBound;
pub use catalog::WordCatalog;
