use text_analysis::frequency::{
    count_letters, count_words, find_most_frequent_letters, find_most_frequent_words,
    tally_letters, tally_words, LetterTable, WordTable,
};
use text_analysis::glyph::{scan, Glyph};
use text_analysis::metrics::count_vowels_and_consonants;
use text_analysis::tokens::split_words;

const GREETING: &str = "Hello world. Hello again.";

fn letter_entries(table: &LetterTable) -> Vec<(char, usize)> {
    (0..table.len()).map(|i| table.entry(i).unwrap()).collect()
}

fn word_entries(table: &WordTable) -> Vec<(String, usize)> {
    (0..table.len()).map(|i| table.entry(i).unwrap()).collect()
}

fn pairs(entries: &[(&str, usize)]) -> Vec<(String, usize)> {
    entries.iter().map(|(w, c)| (w.to_string(), *c)).collect()
}

#[test]
fn count_letters_of_the_greeting() {
    let table = count_letters(GREETING);
    assert_eq!(
        letter_entries(&table),
        vec![
            ('h', 2),
            ('e', 2),
            ('l', 5),
            ('o', 3),
            ('w', 1),
            ('r', 1),
            ('d', 1),
            ('a', 2),
            ('g', 1),
            ('i', 1),
            ('n', 1),
        ]
    );
    assert_eq!(table.len(), 11);
}

#[test]
fn count_of_looks_a_letter_up() {
    let table = count_letters(GREETING);
    assert_eq!(table.count_of('l'), 5);
    assert_eq!(table.count_of('n'), 1);
    assert_eq!(table.count_of('z'), 0);
    assert_eq!(table.count_of('H'), 0);
    assert_eq!(table.count_of('.'), 0);
}

#[test]
fn count_letters_ignores_what_is_no_letter() {
    assert_eq!(letter_entries(&count_letters("a1 b2! a")), vec![('a', 2), ('b', 1)]);
    assert_eq!(count_letters("123 .,; \n").len(), 0);
}

#[test]
fn count_letters_of_empty_text_is_empty() {
    let table = count_letters("");
    assert_eq!(table.len(), 0);
    assert_eq!(table.entry(0), None);
    assert_eq!(table.count_of('a'), 0);
}

#[test]
fn count_letters_joins_ascii_cases_only() {
    assert_eq!(letter_entries(&count_letters("AaA")), vec![('a', 3)]);
    assert_eq!(letter_entries(&count_letters("Éé")), vec![('É', 1), ('é', 1)]);
}

#[test]
fn letter_entry_beyond_the_table_is_none() {
    let table = count_letters("ab");
    assert_eq!(table.entry(1), Some(('b', 1)));
    assert_eq!(table.entry(2), None);
    assert_eq!(table.entry(usize::MAX), None);
}

#[test]
fn letter_counts_add_up_to_the_letters() {
    for text in ["", GREETING, "a1 b2! a", "Ünïcödé and ASCII", "12345"] {
        let table = count_letters(text);
        let total: usize = letter_entries(&table).iter().map(|e| e.1).sum();
        let (vowels, consonants) = count_vowels_and_consonants(text);
        assert_eq!(total, vowels + consonants);
        assert_eq!(total, text.chars().filter(|c| c.is_alphabetic()).count());
    }
}

#[test]
fn letter_keys_are_distinct_and_counted_at_least_once() {
    let entries = letter_entries(&count_letters("the quick brown fox jumps over the lazy dog"));
    for (i, a) in entries.iter().enumerate() {
        assert!(a.1 >= 1);
        for b in &entries[i + 1..] {
            assert_ne!(a.0, b.0);
        }
    }
}

#[test]
fn tally_letters_follows_the_flags_of_the_glyphs() {
    let glyphs = vec![
        Glyph { ch: 'A', alphabetic: true, whitespace: true },
        Glyph { ch: 'a', alphabetic: false, whitespace: false },
        Glyph { ch: '1', alphabetic: true, whitespace: false },
        Glyph { ch: 'a', alphabetic: true, whitespace: false },
    ];
    assert_eq!(letter_entries(&tally_letters(&glyphs)), vec![('a', 2), ('1', 1)]);
}

#[test]
fn count_words_of_the_greeting() {
    let table = count_words(GREETING);
    assert_eq!(word_entries(&table), pairs(&[("hello", 2), ("world", 1), ("again", 1)]));
    assert_eq!(table.count_of("hello"), 2);
    assert_eq!(table.count_of("again"), 1);
    assert_eq!(table.count_of("Hello"), 0);
    assert_eq!(table.count_of(""), 0);
}

#[test]
fn count_words_counts_words_without_letters_as_the_empty_word() {
    let table = count_words("123 abc 456 -- abc");
    assert_eq!(word_entries(&table), pairs(&[("", 3), ("abc", 2)]));
    assert_eq!(table.count_of(""), 3);
}

#[test]
fn count_words_of_blank_text_is_empty() {
    assert_eq!(count_words("").len(), 0);
    assert_eq!(count_words("  \n ").len(), 0);
    assert_eq!(count_words("").entry(0), None);
    assert_eq!(count_words("").word_len(0), None);
}

#[test]
fn word_len_counts_characters() {
    let table = count_words("née née abc");
    assert_eq!(table.word_len(0), Some(3));
    assert_eq!(table.word_len(1), Some(3));
    assert_eq!(table.word_len(2), None);
}

#[test]
fn word_counts_add_up_to_the_words() {
    for text in ["", GREETING, "a a a b b c", "1 2 3", "x"] {
        let table = count_words(text);
        let total: usize = word_entries(&table).iter().map(|e| e.1).sum();
        assert_eq!(total, text.split_whitespace().count());
    }
}

#[test]
fn tally_words_normalizes_each_word() {
    let words = split_words(&scan("The the THE, (the)"));
    assert_eq!(word_entries(&tally_words(&words)), pairs(&[("the", 4)]));
}

#[test]
fn most_frequent_letters_of_the_greeting() {
    assert_eq!(find_most_frequent_letters(GREETING, 5), "lohea");
    assert_eq!(find_most_frequent_letters(GREETING, 1), "l");
    assert_eq!(find_most_frequent_letters(GREETING, 11), "loheawrdgin");
}

#[test]
fn most_frequent_letters_are_never_more_than_asked_for_nor_than_there_are() {
    assert_eq!(find_most_frequent_letters(GREETING, 0), "");
    assert_eq!(find_most_frequent_letters(GREETING, 100), "loheawrdgin");
    assert_eq!(find_most_frequent_letters("", 5), "");
    assert_eq!(find_most_frequent_letters("zz", 5), "z");
    for n in 0..20 {
        let top = find_most_frequent_letters(GREETING, n);
        assert!(top.chars().count() <= n);
        assert!(top.chars().count() <= 11);
    }
}

#[test]
fn most_frequent_entries_are_never_more_than_asked_for_nor_than_there_are() {
    let letters = count_letters("abcabca");
    let words = count_words("one two two three three three");
    for n in 0..6 {
        assert_eq!(letters.find_most_frequent(n).len(), n.min(3));
        assert_eq!(words.find_most_frequent(n).len(), n.min(3));
    }
    assert_eq!(count_letters("").find_most_frequent(5), vec![]);
    assert_eq!(count_words("").find_most_frequent(5), vec![]);
}

#[test]
fn most_frequent_entries_come_with_their_counts() {
    let table = count_letters("abcabca");
    assert_eq!(table.find_most_frequent(2), vec![('a', 3), ('b', 2)]);
    assert_eq!(table.find_most_frequent(3), vec![('a', 3), ('b', 2), ('c', 2)]);
    assert_eq!(table.top_letters(2), "ab");
}

#[test]
fn equal_counts_keep_the_order_of_first_appearance() {
    assert_eq!(find_most_frequent_words("b a b a c", 2), pairs(&[("b", 2), ("a", 2)]));
    assert_eq!(find_most_frequent_words("c b a", 3), pairs(&[("c", 1), ("b", 1), ("a", 1)]));
    assert_eq!(find_most_frequent_letters("zyxzyx", 2), "zy");
    assert_eq!(find_most_frequent_letters("xaybzc", 6), "xaybzc");
}

#[test]
fn most_frequent_words_of_the_greeting() {
    assert_eq!(
        find_most_frequent_words(GREETING, 5),
        pairs(&[("hello", 2), ("world", 1), ("again", 1)])
    );
    assert_eq!(find_most_frequent_words(GREETING, 1), pairs(&[("hello", 2)]));
    assert_eq!(find_most_frequent_words(GREETING, 0), vec![]);
}

#[test]
fn most_frequent_words_rank_a_late_frequent_word_first() {
    assert_eq!(
        find_most_frequent_words("a b c d e f f f e e", 3),
        pairs(&[("e", 3), ("f", 3), ("a", 1)])
    );
    assert_eq!(
        find_most_frequent_words("a b c d e f f f e e f", 3),
        pairs(&[("f", 4), ("e", 3), ("a", 1)])
    );
}

#[test]
fn count_of_is_the_number_of_occurrences() {
    let text = "to be or not to be that is the question to be";
    let table = count_words(text);
    for word in ["to", "be", "or", "not", "that", "is", "the", "question", "never"] {
        let expected = text.split_whitespace().filter(|w| *w == word).count();
        assert_eq!(table.count_of(word), expected);
    }
    let letters = count_letters(text);
    for letter in "abcdefghijklmnopqrstuvwxyz".chars() {
        assert_eq!(letters.count_of(letter), text.chars().filter(|c| *c == letter).count());
    }
}

#[test]
fn most_frequent_entries_never_rise_in_count() {
    let table = count_words("d c c b b b a a a a e e e e e f");
    let top = table.find_most_frequent(6);
    assert_eq!(
        top,
        pairs(&[("e", 5), ("a", 4), ("b", 3), ("c", 2), ("d", 1), ("f", 1)])
    );
    for pair in top.windows(2) {
        assert!(pair[0].1 >= pair[1].1);
    }
    for entry in &top {
        assert_eq!(table.count_of(&entry.0), entry.1);
    }
}
