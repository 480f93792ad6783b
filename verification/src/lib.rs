//! Counting how often each word occurs in a text, and ranking the words by
//! their counts.
//!
//! Lines of text go through the [`tokenizer`], the words it finds are
//! counted in a [`table`], and the [`ranker`] lists the entries of the table
//! from the most to the least frequent. The [`report`] renders such a
//! listing as lines of text.
pub mod pipeline;
pub mod ranker;
pub mod report;
pub mod string_specs;
pub mod table;
pub mod tally;
pub mod tokenizer;

pub use pipeline::{count_lines, read_and_count};
pub use ranker::sort_by_value;
pub use report::{render_counts, render_entry};
pub use table::{increment_word, CountTable};
pub use tally::count_words;
pub use tokenizer::{read_input, tokenize};
