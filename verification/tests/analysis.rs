use text_analysis::{analyze_scanned, analyze_text, scan, Glyph, Mean, TOP_LETTERS, TOP_WORDS};

fn pairs(entries: &[(&str, usize)]) -> Vec<(String, usize)> {
    entries.iter().map(|(w, c)| (w.to_string(), *c)).collect()
}

#[test]
fn analysis_of_the_greeting() {
    let result = analyze_text("Hello world. Hello again.");
    assert_eq!(result.num_words, 4);
    assert_eq!(result.most_common_words[0], ("hello".to_string(), 2));
    assert_eq!(result.num_sentences, 2);
    assert_eq!(result.average_sentence_length.count, 3);
    assert_eq!(result.most_common_words, pairs(&[("hello", 2), ("world", 1), ("again", 1)]));
    assert_eq!(result.average_word_length, Mean { total: 20, count: 4 });
    assert_eq!(result.average_distinct_word_length, Mean { total: 15, count: 4 });
    assert_eq!(result.average_sentence_length, Mean { total: 23, count: 3 });
    assert_eq!(result.most_frequent_letters, "lohea");
    assert_eq!(result.num_bytes, 25);
    assert_eq!(result.num_vowels, 8);
    assert_eq!(result.num_consonants, 12);
}

#[test]
fn analysis_of_empty_text() {
    let result = analyze_text("");
    assert_eq!(result.num_sentences, 0);
    assert_eq!(result.num_words, 0);
    assert_eq!(result.num_bytes, 0);
    assert_eq!(result.num_vowels, 0);
    assert_eq!(result.num_consonants, 0);
    assert!(result.most_common_words.is_empty());
    assert_eq!(result.most_frequent_letters, "");
    for mean in [
        result.average_word_length,
        result.average_distinct_word_length,
        result.average_sentence_length,
    ] {
        let (numerator, denominator) = mean.fraction();
        assert_eq!(numerator, 0);
        assert_eq!(numerator as f64 / denominator as f64, 0.0);
    }
}

#[test]
fn analysis_of_a_line_as_it_is_read() {
    let result = analyze_text("The cat sat. The cat ran! A dog, too.\n");
    assert_eq!(result.num_sentences, 2);
    assert_eq!(result.num_words, 9);
    assert_eq!(
        result.most_common_words,
        pairs(&[("the", 2), ("cat", 2), ("sat", 1), ("ran", 1), ("a", 1)])
    );
    assert_eq!(result.average_word_length, Mean { total: 25, count: 9 });
    assert_eq!(result.average_distinct_word_length, Mean { total: 19, count: 9 });
    assert_eq!(result.average_sentence_length, Mean { total: 36, count: 3 });
    assert_eq!(result.most_frequent_letters, "taohe");
    assert_eq!(result.num_bytes, 38);
    assert_eq!(result.num_vowels, 10);
    assert_eq!(result.num_consonants, 15);
}

#[test]
fn analysis_lists_at_most_five_words_and_letters() {
    let result = analyze_text("one two three four five six seven eight nine ten");
    assert_eq!(TOP_WORDS, 5);
    assert_eq!(TOP_LETTERS, 5);
    assert_eq!(
        result.most_common_words,
        pairs(&[("one", 1), ("two", 1), ("three", 1), ("four", 1), ("five", 1)])
    );
    assert_eq!(result.most_frequent_letters.chars().count(), 5);
    assert_eq!(result.most_frequent_letters, "entio");
}

#[test]
fn analysis_of_text_beyond_ascii() {
    let result = analyze_text("Ça va? Ça va. 日本語 ok");
    assert_eq!(result.num_sentences, 1);
    assert_eq!(result.num_words, 6);
    assert_eq!(
        result.most_common_words,
        pairs(&[("Ça", 2), ("va", 2), ("日本語", 1), ("ok", 1)])
    );
    assert_eq!(result.num_bytes, 28);
    assert_eq!(result.num_vowels, 5);
    assert_eq!(result.num_consonants, 8);
    assert_eq!(result.average_sentence_length, Mean { total: 19, count: 2 });
}

#[test]
fn analysis_of_one_text_is_always_the_same() {
    let text = "b a b a c. d e f";
    let first = analyze_text(text);
    let second = analyze_text(text);
    assert_eq!(first.most_common_words, second.most_common_words);
    assert_eq!(first.most_frequent_letters, second.most_frequent_letters);
    assert_eq!(first.most_frequent_letters, "bacde");
}

#[test]
fn analysis_counts_one_fragment_more_than_sentences() {
    for text in ["", "a", "a.", ".a.", "Hello world. Hello again."] {
        let result = analyze_text(text);
        assert_eq!(result.average_sentence_length.count, result.num_sentences + 1);
    }
}

#[test]
fn analysis_of_a_scanned_text_is_the_analysis_of_the_text() {
    for text in ["", "Hello world. Hello again.", "Ça va? Ça va. 日本語 ok", " . "] {
        let direct = analyze_text(text);
        let scanned = analyze_scanned(text, &scan(text));
        assert_eq!(format!("{:?}", direct), format!("{:?}", scanned));
    }
}

#[test]
fn analysis_of_a_scanned_text_follows_the_flags_of_the_glyphs() {
    let glyphs = vec![
        Glyph { ch: 'a', alphabetic: true, whitespace: false },
        Glyph { ch: '.', alphabetic: true, whitespace: false },
        Glyph { ch: 'b', alphabetic: false, whitespace: true },
        Glyph { ch: 'E', alphabetic: true, whitespace: false },
    ];
    let result = analyze_scanned("a.bE", &glyphs);
    assert_eq!(result.num_sentences, 1);
    assert_eq!(result.num_bytes, 4);
    assert_eq!(result.average_sentence_length, Mean { total: 3, count: 2 });
    assert_eq!(result.num_words, 2);
    assert_eq!(result.most_common_words, pairs(&[("a.", 1), ("e", 1)]));
    assert_eq!(result.average_word_length, Mean { total: 3, count: 2 });
    assert_eq!(result.average_distinct_word_length, Mean { total: 3, count: 2 });
    assert_eq!(result.most_frequent_letters, "a.e");
    assert_eq!(result.num_vowels, 2);
    assert_eq!(result.num_consonants, 1);
}
