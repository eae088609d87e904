//! Measures of a text: vowels and consonants, bytes, and average lengths.
//!
//! Lengths are counted in characters. Only `count_bytes` measures the
//! encoded text.

use vstd::prelude::*;
use vstd::utf8::encode_utf8;
use crate::glyph::{glyphs_of, is_vowel, scan, Glyph};
use crate::std_specs::ascii_lowercase;
use crate::tokens::{
    delimiter_count, lemma_sentences_len, lemma_sentences_total_len, lemma_total_len_prefix,
    lemma_trim_len, lemma_words_total_len, runs, sentences, sentences_of, split_words, total_len,
    words_of,
};
use crate::frequency::{
    first_seen, key_column, lemma_tally_total, letter_items, tally, tally_words, total_count,
    word_items,
};

verus! {

/// An average kept exact: the sum of what was measured and the number of
/// things measured. The average of nothing is zero.
#[derive(Clone, Copy, Debug, PartialEq, Eq, Structural)]
pub struct Mean {
    /// The measures, added up.
    pub total: usize,
    /// How many things were measured.
    pub count: usize,
}

impl View for Mean {
    type V = (nat, nat);

    /// The sum and the number of what was measured.
    open spec fn view(&self) -> (nat, nat) {
        (self.total as nat, self.count as nat)
    }
}

impl Mean {
    /// The average as a fraction whose denominator is never zero: `0 / 1`
    /// where nothing was measured, `total / count` elsewhere.
    pub open spec fn fraction_of(&self) -> (nat, nat) {
        if self.count == 0 {
            (0nat, 1nat)
        } else {
            (self.total as nat, self.count as nat)
        }
    }

    /// Whether the average is zero.
    pub open spec fn is_zero(&self) -> bool {
        self.fraction_of().0 == 0
    }

    /// The average as a numerator and a denominator that is at least one.
    pub fn fraction(&self) -> (f: (usize, usize))
        ensures
            f.0 == self.fraction_of().0,
            f.1 == self.fraction_of().1,
            f.1 >= 1,
            self.count == 0 ==> f.0 == 0,
    {
        if self.count == 0 {
            (0, 1)
        } else {
            (self.total, self.count)
        }
    }
}

/// The average of nothing is zero, and its fraction is `0 / 1`.
pub proof fn lemma_mean_of_nothing(mean: Mean)
    requires
        mean.count == 0,
    ensures
        mean.is_zero(),
        mean.fraction_of() == (0nat, 1nat),
{
}

/// Whether a glyph counts as a vowel: a letter whose ASCII lower-case form
/// is one of `a`, `e`, `i`, `o`, `u`.
pub open spec fn is_vowel_glyph(g: Glyph) -> bool {
    g.alphabetic && is_vowel(ascii_lowercase(g.ch))
}

/// Whether a glyph counts as a consonant: a letter that is no vowel.
pub open spec fn is_consonant_glyph(g: Glyph) -> bool {
    g.alphabetic && !is_vowel(ascii_lowercase(g.ch))
}

/// The number of vowels among the glyphs.
pub open spec fn vowel_count(g: Seq<Glyph>) -> nat
    decreases g.len(),
{
    if g.len() == 0 {
        0
    } else {
        vowel_count(g.drop_last()) + if is_vowel_glyph(g.last()) {
            1nat
        } else {
            0nat
        }
    }
}

/// The number of consonants among the glyphs.
pub open spec fn consonant_count(g: Seq<Glyph>) -> nat
    decreases g.len(),
{
    if g.len() == 0 {
        0
    } else {
        consonant_count(g.drop_last()) + if is_consonant_glyph(g.last()) {
            1nat
        } else {
            0nat
        }
    }
}

/// The number of letters among the glyphs.
pub open spec fn letter_count(g: Seq<Glyph>) -> nat
    decreases g.len(),
{
    if g.len() == 0 {
        0
    } else {
        letter_count(g.drop_last()) + if g.last().alphabetic {
            1nat
        } else {
            0nat
        }
    }
}

/// Vowels and consonants together are the letters: a glyph that is no letter
/// is counted as neither, and a letter as exactly one of the two.
pub proof fn lemma_vowels_and_consonants(g: Seq<Glyph>)
    ensures
        vowel_count(g) + consonant_count(g) == letter_count(g),
        letter_count(g) <= g.len(),
    decreases g.len(),
{
    if g.len() > 0 {
        lemma_vowels_and_consonants(g.drop_last());
    }
}

/// The letters counted are the letters that the letter table counts.
pub proof fn lemma_letter_count_items(g: Seq<Glyph>)
    ensures
        letter_count(g) == letter_items(g).len(),
    decreases g.len(),
{
    if g.len() > 0 {
        lemma_letter_count_items(g.drop_last());
    }
}

/// The counts of the letter table of a text add up to its letters, which are
/// its vowels and its consonants.
pub proof fn lemma_letter_table_total(g: Seq<Glyph>)
    ensures
        total_count(tally(letter_items(g))) == letter_count(g),
        total_count(tally(letter_items(g))) == vowel_count(g) + consonant_count(g),
{
    lemma_tally_total(letter_items(g));
    lemma_letter_count_items(g);
    lemma_vowels_and_consonants(g);
}

/// The counts of the word table of a text add up to its words.
pub proof fn lemma_word_table_total(g: Seq<Glyph>)
    ensures
        total_count(tally(word_items(words_of(g)))) == words_of(g).len(),
{
    lemma_tally_total(word_items(words_of(g)));
}

/// Whether a glyph is a vowel.
pub fn is_vowel_at(g: &Glyph) -> (yes: bool)
    ensures
        yes == is_vowel_glyph(*g),
{
    if g.alphabetic {
        let c = g.ch.to_ascii_lowercase();
        c == 'a' || c == 'e' || c == 'i' || c == 'o' || c == 'u'
    } else {
        false
    }
}

/// The numbers of vowels and of consonants among the glyphs, in this order.
pub fn vowels_and_consonants(glyphs: &Vec<Glyph>) -> (counts: (usize, usize))
    ensures
        counts.0 == vowel_count(glyphs@),
        counts.1 == consonant_count(glyphs@),
        counts.0 + counts.1 == letter_count(glyphs@),
{
    let mut vowels: usize = 0;
    let mut consonants: usize = 0;
    let mut i: usize = 0;
    while i < glyphs.len()
        invariant
            i <= glyphs.len(),
            vowels == vowel_count(glyphs@.take(i as int)),
            consonants == consonant_count(glyphs@.take(i as int)),
            vowels + consonants <= i,
        decreases glyphs.len() - i,
    {
        assert(glyphs@.take(i + 1).drop_last() =~= glyphs@.take(i as int));
        if glyphs[i].alphabetic {
            if is_vowel_at(&glyphs[i]) {
                vowels = vowels + 1;
            } else {
                consonants = consonants + 1;
            }
        }
        i = i + 1;
    }
    proof {
        assert(glyphs@.take(glyphs@.len() as int) =~= glyphs@);
        lemma_vowels_and_consonants(glyphs@);
    }
    (vowels, consonants)
}

/// The numbers of vowels and of consonants in a text, in this order. A
/// character that is no letter is counted as neither.
pub fn count_vowels_and_consonants(text: &str) -> (counts: (usize, usize))
    ensures
        counts.0 == vowel_count(glyphs_of(text@)),
        counts.1 == consonant_count(glyphs_of(text@)),
        counts.0 + counts.1 == letter_count(glyphs_of(text@)),
{
    let glyphs = scan(text);
    vowels_and_consonants(&glyphs)
}

/// A text takes at least one byte for each character and at most four.
pub proof fn lemma_encoded_len(s: Seq<char>)
    ensures
        s.len() <= encode_utf8(s).len() <= 4 * s.len(),
    decreases s.len(),
{
    if s.len() > 0 {
        lemma_encoded_len(s.drop_first());
    }
}

/// The number of bytes of a text in its UTF-8 encoding.
pub fn count_bytes(text: &str) -> (n: usize)
    ensures
        n == encode_utf8(text@).len(),
        text@.len() <= n <= 4 * text@.len(),
{
    broadcast use vstd::slice::group_slice_axioms;

    proof {
        lemma_encoded_len(text@);
    }
    text.as_bytes().len()
}

/// The lengths of the sentence fragments of a text, added up, and the number
/// of the fragments.
pub open spec fn sentence_mean(text: Seq<char>) -> (nat, nat) {
    (total_len(sentences_of(text)), sentences_of(text).len())
}

/// The average length of the sentence fragments of a text, in characters.
/// Every fragment counts, the last one too where the text ends in a
/// delimiter and the fragment is empty; so there is always at least one.
pub fn average_sentence_length(text: &str) -> (mean: Mean)
    ensures
        mean@ == sentence_mean(text@),
        mean.count == delimiter_count(text@) + 1,
        mean.total + delimiter_count(text@) == text@.len(),
        sentences_of(text@).len() == 0 ==> mean.is_zero(),
{
    let limit = text.unicode_len();
    let parts = sentences(text);
    let ghost all = sentences_of(text@);
    let mut total: usize = 0;
    let mut i: usize = 0;
    proof {
        lemma_sentences_len(text@);
        lemma_sentences_total_len(text@);
    }
    while i < parts.len()
        invariant
            i <= parts.len(),
            all == parts.deep_view(),
            parts.len() == all.len(),
            total_len(all) <= limit,
            total == total_len(all.take(i as int)),
        decreases parts.len() - i,
    {
        let length = parts[i].as_str().unicode_len();
        proof {
            assert(all.take(i + 1).drop_last() =~= all.take(i as int));
            lemma_total_len_prefix(all, i + 1);
        }
        total = total + length;
        i = i + 1;
    }
    assert(all.take(all.len() as int) =~= all);
    Mean { total, count: parts.len() }
}

/// The letters of a sequence of words, added up.
pub open spec fn letters_in(words: Seq<Seq<Glyph>>) -> nat
    decreases words.len(),
{
    if words.len() == 0 {
        0
    } else {
        letters_in(words.drop_last()) + letter_count(words.last())
    }
}

/// Words have no more letters than glyphs.
pub proof fn lemma_letters_in_bound(words: Seq<Seq<Glyph>>)
    ensures
        letters_in(words) <= total_len(words),
    decreases words.len(),
{
    if words.len() > 0 {
        lemma_letters_in_bound(words.drop_last());
        lemma_vowels_and_consonants(words.last());
    }
}

/// The number of letters of one word.
pub fn letters_of_word(word: &Vec<Glyph>) -> (n: usize)
    ensures
        n == letter_count(word@),
{
    let mut n: usize = 0;
    let mut i: usize = 0;
    while i < word.len()
        invariant
            i <= word.len(),
            n == letter_count(word@.take(i as int)),
            n <= i,
        decreases word.len() - i,
    {
        assert(word@.take(i + 1).drop_last() =~= word@.take(i as int));
        if word[i].alphabetic {
            n = n + 1;
        }
        i = i + 1;
    }
    assert(word@.take(word@.len() as int) =~= word@);
    n
}

/// The letters of the words of a classified text, added up, and the number
/// of the words.
pub open spec fn word_mean(g: Seq<Glyph>) -> (nat, nat) {
    (letters_in(words_of(g)), words_of(g).len())
}

/// The lengths of the distinct normalized words of a classified text, added
/// up, and the number of all its words.
pub open spec fn distinct_word_mean(g: Seq<Glyph>) -> (nat, nat) {
    (total_len(first_seen(word_items(words_of(g)))), words_of(g).len())
}

/// The average number of letters of the words of a classified text. The
/// words are taken as the text has them, not normalized; characters in them
/// that are no letters are not counted.
pub fn mean_word_length(glyphs: &Vec<Glyph>) -> (mean: Mean)
    ensures
        mean@ == word_mean(glyphs@),
        words_of(glyphs@).len() == 0 ==> mean.is_zero(),
{
    let words = split_words(glyphs);
    let ghost all = words_of(glyphs@);
    let mut total: usize = 0;
    let mut i: usize = 0;
    proof {
        lemma_words_total_len(glyphs@);
    }
    while i < words.len()
        invariant
            i <= words.len(),
            all == runs(words@),
            total_len(all) <= glyphs.len(),
            total == letters_in(all.take(i as int)),
        decreases words.len() - i,
    {
        let letters = letters_of_word(&words[i]);
        proof {
            assert(all.take(i + 1).drop_last() =~= all.take(i as int));
            lemma_letters_in_bound(all.take(i + 1));
            lemma_total_len_prefix(all, i + 1);
        }
        total = total + letters;
        i = i + 1;
    }
    assert(all.take(all.len() as int) =~= all);
    Mean { total, count: words.len() }
}

/// The average number of letters of the words of a text: for each word as
/// the text has it, the letters in it; zero for a text without words.
pub fn average_word_length(text: &str) -> (mean: Mean)
    ensures
        mean@ == word_mean(glyphs_of(text@)),
        words_of(glyphs_of(text@)).len() == 0 ==> mean.is_zero(),
{
    let glyphs = scan(text);
    mean_word_length(&glyphs)
}

/// The distinct normalized words are together no longer than the words they
/// come from.
pub proof fn lemma_distinct_words_len(words: Seq<Seq<Glyph>>)
    ensures
        total_len(first_seen(word_items(words))) <= total_len(word_items(words)) <= total_len(
            words,
        ),
{
    lemma_first_seen_len(word_items(words));
    lemma_word_items_len(words);
}

/// Distinct items are together no longer than all items.
proof fn lemma_first_seen_len<T>(items: Seq<Seq<T>>)
    ensures
        total_len(first_seen(items)) <= total_len(items),
    decreases items.len(),
{
    if items.len() > 0 {
        let before = first_seen(items.drop_last());
        lemma_first_seen_len(items.drop_last());
        if !before.contains(items.last()) {
            assert(before.push(items.last()).drop_last() =~= before);
        }
    }
}

/// Normalized words are together no longer than the words themselves.
proof fn lemma_word_items_len(words: Seq<Seq<Glyph>>)
    ensures
        total_len(word_items(words)) <= total_len(words),
    decreases words.len(),
{
    if words.len() > 0 {
        lemma_word_items_len(words.drop_last());
        lemma_trim_len(words.last());
        assert(word_items(words).drop_last() =~= word_items(words.drop_last()));
    }
}

/// The lengths of the distinct normalized words of a classified text, added
/// up, over the number of all its words. This is another measure than
/// `mean_word_length`: a word that occurs twice is measured once, and what
/// is measured is the normalized word, not its letters.
pub fn mean_distinct_word_length(glyphs: &Vec<Glyph>) -> (mean: Mean)
    ensures
        mean@ == distinct_word_mean(glyphs@),
        words_of(glyphs@).len() == 0 ==> mean.is_zero(),
{
    let words = split_words(glyphs);
    let table = tally_words(&words);
    let ghost keys = first_seen(word_items(words_of(glyphs@)));
    let mut total: usize = 0;
    let mut i: usize = 0;
    proof {
        lemma_words_total_len(glyphs@);
        lemma_distinct_words_len(words_of(glyphs@));
    }
    while i < table.len()
        invariant
            i <= table@.len(),
            keys == key_column(table@),
            total_len(keys) <= glyphs.len(),
            total == total_len(keys.take(i as int)),
        decreases table@.len() - i,
    {
        let length = table.word_len(i).unwrap();
        proof {
            assert(keys.take(i + 1).drop_last() =~= keys.take(i as int));
            lemma_total_len_prefix(keys, i + 1);
        }
        total = total + length;
        i = i + 1;
    }
    assert(keys.take(keys.len() as int) =~= keys);
    Mean { total, count: words.len() }
}

/// The lengths of the distinct normalized words of a text, added up, over
/// the number of all its words; zero for a text without words.
pub fn average_distinct_word_length(text: &str) -> (mean: Mean)
    ensures
        mean@ == distinct_word_mean(glyphs_of(text@)),
        words_of(glyphs_of(text@)).len() == 0 ==> mean.is_zero(),
{
    let glyphs = scan(text);
    mean_distinct_word_length(&glyphs)
}
} // verus!
