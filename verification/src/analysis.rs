//! The whole analysis of a text, assembled into one record.

use vstd::prelude::*;
use vstd::utf8::encode_utf8;
use crate::glyph::{glyphs_of, scan, Glyph};
use crate::tokens::{
    count_sentences, delimiter_count, lemma_sentences_len, lemma_sentences_total_len,
    lemma_words_len, split_words, words_of,
};
use crate::frequency::{
    key_column, lemma_first_seen_distinct, lemma_letter_items_len, lemma_top_entries_bounds,
    letter_items, tally, tally_letters, tally_words, top_entries, total_count, word_items,
    word_pairs,
};
use crate::metrics::{
    average_sentence_length, consonant_count, count_bytes, distinct_word_mean, lemma_encoded_len,
    lemma_letter_table_total, lemma_word_table_total, letter_count, mean_distinct_word_length,
    mean_word_length, sentence_mean, vowel_count, vowels_and_consonants, word_mean, Mean,
};

verus! {

/// How many of the most frequent words a result lists.
pub const TOP_WORDS: usize = 5;

/// How many of the most frequent letters a result lists.
pub const TOP_LETTERS: usize = 5;

/// What the analysis finds in one text.
///
/// The sentence count is the number of delimiters. The sentence fragments,
/// over which `average_sentence_length` is taken, are one more than that:
/// what follows the last delimiter is a fragment too.
#[derive(Debug)]
pub struct AnalysisResult {
    /// The number of sentences: the delimiters in the text.
    pub num_sentences: usize,
    /// The number of words.
    pub num_words: usize,
    /// The most frequent normalized words with their counts, most frequent
    /// first, at most `TOP_WORDS` of them.
    pub most_common_words: Vec<(String, usize)>,
    /// The letters of the words, over the number of words.
    pub average_word_length: Mean,
    /// The lengths of the distinct normalized words, over the number of all
    /// words: the average that is stored with the result.
    pub average_distinct_word_length: Mean,
    /// The lengths of the sentence fragments, over their number.
    pub average_sentence_length: Mean,
    /// The most frequent letters, most frequent first, at most
    /// `TOP_LETTERS` of them.
    pub most_frequent_letters: String,
    /// The length of the text in bytes.
    pub num_bytes: usize,
    /// The number of vowels.
    pub num_vowels: usize,
    /// The number of consonants.
    pub num_consonants: usize,
}

/// What an `AnalysisResult` holds, as mathematical values. An average is the
/// pair of its sum and its count.
pub struct Analysis {
    pub num_sentences: nat,
    pub num_words: nat,
    pub most_common_words: Seq<(Seq<char>, nat)>,
    pub average_word_length: (nat, nat),
    pub average_distinct_word_length: (nat, nat),
    pub average_sentence_length: (nat, nat),
    pub most_frequent_letters: Seq<char>,
    pub num_bytes: nat,
    pub num_vowels: nat,
    pub num_consonants: nat,
}

impl View for AnalysisResult {
    type V = Analysis;

    open spec fn view(&self) -> Analysis {
        Analysis {
            num_sentences: self.num_sentences as nat,
            num_words: self.num_words as nat,
            most_common_words: word_pairs(self.most_common_words@),
            average_word_length: self.average_word_length@,
            average_distinct_word_length: self.average_distinct_word_length@,
            average_sentence_length: self.average_sentence_length@,
            most_frequent_letters: self.most_frequent_letters@,
            num_bytes: self.num_bytes as nat,
            num_vowels: self.num_vowels as nat,
            num_consonants: self.num_consonants as nat,
        }
    }
}

/// The analysis of `text`, where `glyphs` say which of its characters are
/// letters and which are white space. Sentences and bytes are those of the
/// text; words, letters, vowels and consonants are those of the glyphs.
pub open spec fn analysis_of(text: Seq<char>, glyphs: Seq<Glyph>) -> Analysis {
    let words = words_of(glyphs);
    Analysis {
        num_sentences: delimiter_count(text),
        num_words: words.len(),
        most_common_words: top_entries(tally(word_items(words)), TOP_WORDS as int),
        average_word_length: word_mean(glyphs),
        average_distinct_word_length: distinct_word_mean(glyphs),
        average_sentence_length: sentence_mean(text),
        most_frequent_letters: key_column(
            top_entries(tally(letter_items(glyphs)), TOP_LETTERS as int),
        ),
        num_bytes: encode_utf8(text).len(),
        num_vowels: vowel_count(glyphs),
        num_consonants: consonant_count(glyphs),
    }
}

/// What holds of every analysis: the sentence fragments are one more than
/// the sentences and make up the text together with the delimiters; vowels
/// and consonants are the letters, and the letter table counts each of them
/// once; the word table counts each word once; the text has at least one
/// byte and at most four for each character; no more words and letters are
/// listed than `TOP_WORDS` and `TOP_LETTERS`, nor more than there are
/// distinct ones; and the average word lengths of a text without words are
/// zero.
pub proof fn lemma_analysis_laws(text: Seq<char>, glyphs: Seq<Glyph>)
    requires
        glyphs.len() <= usize::MAX,
    ensures
        ({
            let a = analysis_of(text, glyphs);
            &&& a.average_sentence_length.1 == a.num_sentences + 1
            &&& a.average_sentence_length.0 + a.num_sentences == text.len()
            &&& a.num_vowels + a.num_consonants == letter_count(glyphs)
            &&& a.num_vowels + a.num_consonants == total_count(tally(letter_items(glyphs)))
            &&& a.num_words == total_count(tally(word_items(words_of(glyphs))))
            &&& text.len() <= a.num_bytes <= 4 * text.len()
            &&& a.most_common_words.len() <= TOP_WORDS
            &&& a.most_common_words.len() <= tally(word_items(words_of(glyphs))).len()
            &&& a.most_frequent_letters.len() <= TOP_LETTERS
            &&& a.most_frequent_letters.len() <= tally(letter_items(glyphs)).len()
            &&& a.num_words == 0 ==> a.average_word_length.0 == 0
                && a.average_distinct_word_length.0 == 0
        }),
{
    let words = words_of(glyphs);
    lemma_sentences_len(text);
    lemma_sentences_total_len(text);
    lemma_letter_table_total(glyphs);
    lemma_word_table_total(glyphs);
    lemma_encoded_len(text);
    lemma_words_len(glyphs);
    lemma_first_seen_distinct(word_items(words));
    lemma_first_seen_distinct(letter_items(glyphs));
    lemma_letter_items_len(glyphs);
    lemma_top_entries_bounds(tally(word_items(words)), TOP_WORDS as int);
    lemma_top_entries_bounds(tally(letter_items(glyphs)), TOP_LETTERS as int);
}

/// Analyses a text that has been scanned: tokens first, then the letter and
/// the word counts, the averages, vowels and consonants, and the byte count.
/// Sentences and bytes are read from the text, all else from the glyphs.
pub fn analyze_scanned(text: &str, glyphs: &Vec<Glyph>) -> (result: AnalysisResult)
    ensures
        result@ == analysis_of(text@, glyphs@),
        result.most_common_words.len() <= TOP_WORDS,
        result.most_frequent_letters@.len() <= TOP_LETTERS,
        result.average_sentence_length.count == result.num_sentences + 1,
        result.num_words == 0 ==> result.average_word_length.is_zero()
            && result.average_distinct_word_length.is_zero(),
{
    let words = split_words(glyphs);
    let num_sentences = count_sentences(text);
    let num_words = words.len();
    let letters = tally_letters(glyphs);
    let most_frequent_letters = letters.top_letters(TOP_LETTERS);
    let word_table = tally_words(&words);
    let most_common_words = word_table.find_most_frequent(TOP_WORDS);
    let average_word_length = mean_word_length(glyphs);
    let average_distinct_word_length = mean_distinct_word_length(glyphs);
    let average_sentence_length = average_sentence_length(text);
    let (num_vowels, num_consonants) = vowels_and_consonants(glyphs);
    let num_bytes = count_bytes(text);
    AnalysisResult {
        num_sentences,
        num_words,
        most_common_words,
        average_word_length,
        average_distinct_word_length,
        average_sentence_length,
        most_frequent_letters,
        num_bytes,
        num_vowels,
        num_consonants,
    }
}

/// Analyses a text.
pub fn analyze_text(text: &str) -> (result: AnalysisResult)
    ensures
        result@ == analysis_of(text@, glyphs_of(text@)),
        result.most_common_words.len() <= TOP_WORDS,
        result.most_frequent_letters@.len() <= TOP_LETTERS,
        result.average_sentence_length.count == result.num_sentences + 1,
        result.num_words == 0 ==> result.average_word_length.is_zero()
            && result.average_distinct_word_length.is_zero(),
{
    let glyphs = scan(text);
    analyze_scanned(text, &glyphs)
}
} // verus!
