//! Descriptive statistics of a block of text: sentence and word counts,
//! letter and word frequencies, vowel and consonant counts, byte length and
//! average lengths, together with the texts of the statements and the row
//! under which a result is stored.
//!
//! Characters are first paired with the Unicode properties that the
//! statistics read (`glyph`); everything after that is computed from those
//! pairs and is specified exactly.

pub mod std_specs;
pub mod glyph;
pub mod tokens;
pub mod ranking;
pub mod frequency;
pub mod metrics;
pub mod analysis;
pub mod storage;

pub use analysis::{analyze_scanned, analyze_text, AnalysisResult, TOP_LETTERS, TOP_WORDS};
pub use frequency::{
    count_letters, count_words, find_most_frequent_letters, find_most_frequent_words, LetterTable,
    WordTable,
};
pub use glyph::{scan, Glyph};
pub use metrics::{
    average_distinct_word_length, average_sentence_length, average_word_length, count_bytes,
    count_vowels_and_consonants, Mean,
};
pub use storage::{
    create_table_statement, format_most_common_words, insert_statement, stored_row, StoredRow,
};
pub use tokens::{count_sentences, sentences, words};
