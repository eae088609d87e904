use text_analysis::glyph::Glyph;
use text_analysis::metrics::{
    average_distinct_word_length, average_sentence_length, average_word_length, count_bytes,
    count_vowels_and_consonants, is_vowel_at, letters_of_word, mean_distinct_word_length,
    mean_word_length, vowels_and_consonants, Mean,
};
use text_analysis::scan;

const GREETING: &str = "Hello world. Hello again.";

fn value(mean: Mean) -> f64 {
    let (numerator, denominator) = mean.fraction();
    numerator as f64 / denominator as f64
}

#[test]
fn vowels_and_consonants_of_the_greeting() {
    assert_eq!(count_vowels_and_consonants(GREETING), (8, 12));
}

#[test]
fn vowels_are_the_five_letters_in_either_case() {
    assert_eq!(count_vowels_and_consonants("aeiou"), (5, 0));
    assert_eq!(count_vowels_and_consonants("AEIOU"), (5, 0));
    assert_eq!(count_vowels_and_consonants("AEIOU xyz"), (5, 3));
    assert_eq!(count_vowels_and_consonants("y"), (0, 1));
}

#[test]
fn what_is_no_letter_is_neither_vowel_nor_consonant() {
    assert_eq!(count_vowels_and_consonants(""), (0, 0));
    assert_eq!(count_vowels_and_consonants("123 !? \n"), (0, 0));
    assert_eq!(count_vowels_and_consonants("a1e2-b"), (2, 1));
}

#[test]
fn letters_beyond_ascii_are_consonants() {
    assert_eq!(count_vowels_and_consonants("é"), (0, 1));
    assert_eq!(count_vowels_and_consonants("Àé日本a"), (1, 4));
}

#[test]
fn vowels_and_consonants_are_the_letters() {
    for text in ["", GREETING, "Ünïcödé and ASCII 123", "....", "The Quick Brown Fox"] {
        let (vowels, consonants) = count_vowels_and_consonants(text);
        assert_eq!(vowels + consonants, text.chars().filter(|c| c.is_alphabetic()).count());
    }
}

#[test]
fn vowels_and_consonants_follow_the_flags_of_the_glyphs() {
    let glyphs = vec![
        Glyph { ch: '1', alphabetic: true, whitespace: false },
        Glyph { ch: 'a', alphabetic: false, whitespace: false },
        Glyph { ch: 'E', alphabetic: true, whitespace: true },
        Glyph { ch: 'x', alphabetic: true, whitespace: false },
    ];
    assert_eq!(vowels_and_consonants(&glyphs), (1, 2));
    assert!(is_vowel_at(&glyphs[2]));
    assert!(!is_vowel_at(&glyphs[1]));
    assert!(!is_vowel_at(&glyphs[0]));
    assert_eq!(letters_of_word(&glyphs), 3);
}

#[test]
fn count_bytes_is_the_encoded_length() {
    assert_eq!(count_bytes(""), 0);
    assert_eq!(count_bytes("abc"), 3);
    assert_eq!(count_bytes(GREETING), 25);
    assert_eq!(count_bytes("héllo"), 6);
    assert_eq!(count_bytes("日本"), 6);
    assert_eq!(count_bytes("💝"), 4);
    assert_eq!(count_bytes(" \n\t"), 3);
}

#[test]
fn count_bytes_does_not_depend_on_words_or_sentences() {
    assert_eq!(count_bytes("a.b c"), count_bytes("....."));
    assert_eq!(count_bytes("a.b c"), count_bytes("     "));
    for text in ["", "x", "Ünïcödé", "日本語 テキスト.", GREETING] {
        assert_eq!(count_bytes(text), text.len());
        assert!(text.chars().count() <= count_bytes(text));
        assert!(count_bytes(text) <= 4 * text.chars().count());
    }
}

#[test]
fn average_sentence_length_of_the_greeting() {
    let mean = average_sentence_length(GREETING);
    assert_eq!(mean, Mean { total: 23, count: 3 });
    assert!((value(mean) - 23.0 / 3.0).abs() < 1e-12);
}

#[test]
fn average_sentence_length_of_empty_text_is_zero() {
    let mean = average_sentence_length("");
    assert_eq!(mean, Mean { total: 0, count: 1 });
    assert_eq!(value(mean), 0.0);
}

#[test]
fn average_sentence_length_counts_the_empty_last_fragment() {
    assert_eq!(average_sentence_length("abcd."), Mean { total: 4, count: 2 });
    assert_eq!(average_sentence_length("abcd"), Mean { total: 4, count: 1 });
    assert_eq!(average_sentence_length("..."), Mean { total: 0, count: 4 });
}

#[test]
fn average_sentence_length_counts_characters() {
    assert_eq!(average_sentence_length("é.日本"), Mean { total: 3, count: 2 });
}

#[test]
fn average_word_length_of_the_greeting() {
    let mean = average_word_length(GREETING);
    assert_eq!(mean, Mean { total: 20, count: 4 });
    assert_eq!(value(mean), 5.0);
}

#[test]
fn average_word_length_counts_letters_only() {
    assert_eq!(average_word_length("a1b2 --- c"), Mean { total: 3, count: 3 });
    assert_eq!(average_word_length("don't"), Mean { total: 4, count: 1 });
    assert_eq!(average_word_length("née 日本"), Mean { total: 5, count: 2 });
}

#[test]
fn average_word_length_of_text_without_words_is_zero() {
    for text in ["", " ", "\n\t  \r\n"] {
        let mean = average_word_length(text);
        assert_eq!(mean, Mean { total: 0, count: 0 });
        assert_eq!(mean.fraction(), (0, 1));
        assert_eq!(value(mean), 0.0);
        let distinct = average_distinct_word_length(text);
        assert_eq!(distinct, Mean { total: 0, count: 0 });
        assert_eq!(value(distinct), 0.0);
    }
}

#[test]
fn average_distinct_word_length_of_the_greeting() {
    let mean = average_distinct_word_length(GREETING);
    assert_eq!(mean, Mean { total: 15, count: 4 });
    assert_eq!(value(mean), 3.75);
}

#[test]
fn the_two_average_word_lengths_differ() {
    let text = "aa aa b1 x-y";
    assert_eq!(average_word_length(text), Mean { total: 7, count: 4 });
    assert_eq!(average_distinct_word_length(text), Mean { total: 6, count: 4 });
}

#[test]
fn average_distinct_word_length_measures_each_word_once() {
    assert_eq!(average_distinct_word_length("abc abc abc"), Mean { total: 3, count: 3 });
    assert_eq!(average_distinct_word_length("Abc, abc. ABC!"), Mean { total: 3, count: 3 });
    assert_eq!(average_distinct_word_length("1 2 3"), Mean { total: 0, count: 3 });
}

#[test]
fn means_of_glyphs_agree_with_means_of_text() {
    for text in ["", GREETING, "aa aa b1 x-y", "née 日本"] {
        assert_eq!(mean_word_length(&scan(text)), average_word_length(text));
        assert_eq!(mean_distinct_word_length(&scan(text)), average_distinct_word_length(text));
    }
}

#[test]
fn fraction_of_a_mean_never_has_a_zero_denominator() {
    assert_eq!(Mean { total: 7, count: 2 }.fraction(), (7, 2));
    assert_eq!(Mean { total: 0, count: 3 }.fraction(), (0, 3));
    assert_eq!(Mean { total: 0, count: 0 }.fraction(), (0, 1));
    assert_eq!(Mean { total: 5, count: 0 }.fraction(), (0, 1));
    assert_eq!(
        Mean { total: usize::MAX, count: usize::MAX }.fraction(),
        (usize::MAX, usize::MAX)
    );
}
