//! Frequency tables: how often each letter and each word of a text occurs.
//!
//! A table lists its keys in the order in which they were first seen, each
//! with the number of times it occurs. That order also settles ties when the
//! most frequent entries are asked for.

use vstd::prelude::*;
use crate::glyph::{glyphs_of, scan, Glyph};
use crate::std_specs::ascii_lowercase;
use crate::tokens::{normalized, runs, normalize_word, split_words, words_of};
use crate::ranking::{
    as_nats, is_ranking, lemma_ranking_bounds, lemma_ranking_exists, rank, ranking,
};

verus! {

/// How often `key` occurs among `items`.
pub open spec fn occurrences<K>(items: Seq<K>, key: K) -> nat
    decreases items.len(),
{
    if items.len() == 0 {
        0
    } else {
        occurrences(items.drop_last(), key) + if items.last() == key {
            1nat
        } else {
            0nat
        }
    }
}

/// The distinct items, in the order in which each is first seen.
pub open spec fn first_seen<K>(items: Seq<K>) -> Seq<K>
    decreases items.len(),
{
    if items.len() == 0 {
        Seq::<K>::empty()
    } else {
        let before = first_seen(items.drop_last());
        if before.contains(items.last()) {
            before
        } else {
            before.push(items.last())
        }
    }
}

/// The frequency table of `items`: each distinct item, in order of first
/// appearance, with the number of times it occurs.
pub open spec fn tally<K>(items: Seq<K>) -> Seq<(K, nat)> {
    let keys = first_seen(items);
    Seq::new(keys.len(), |i: int| (keys[i], occurrences(items, keys[i])))
}

/// The counts of a table, added up.
pub open spec fn total_count<K>(table: Seq<(K, nat)>) -> nat
    decreases table.len(),
{
    if table.len() == 0 {
        0
    } else {
        total_count(table.drop_last()) + table.last().1
    }
}

/// The counts of a table, in the order of its entries.
pub open spec fn count_column<K>(table: Seq<(K, nat)>) -> Seq<nat> {
    Seq::new(table.len(), |i: int| table[i].1)
}

/// The keys of a table, in the order of its entries.
pub open spec fn key_column<K>(table: Seq<(K, nat)>) -> Seq<K> {
    Seq::new(table.len(), |i: int| table[i].0)
}

/// The count that a table gives for `key`: zero if it does not list the key.
pub open spec fn lookup<K>(table: Seq<(K, nat)>, key: K) -> nat {
    if exists|i: int| 0 <= i < table.len() && (#[trigger] table[i]).0 == key {
        let i = choose|i: int| 0 <= i < table.len() && (#[trigger] table[i]).0 == key;
        table[i].1
    } else {
        0
    }
}

/// The `n` most frequent entries of a table, most frequent first; entries
/// that occur equally often stay in the order of the table. All entries are
/// given if the table has fewer than `n`.
pub open spec fn top_entries<K>(table: Seq<(K, nat)>, n: int) -> Seq<(K, nat)> {
    let order = ranking(count_column(table), n);
    Seq::new(order.len(), |i: int| table[order[i] as int])
}

/// One more item adds one to its own count and leaves the others.
pub proof fn lemma_occurrences_push<K>(items: Seq<K>, item: K, key: K)
    ensures
        occurrences(items.push(item), key) == occurrences(items, key) + if item == key {
            1nat
        } else {
            0nat
        },
{
    assert(items.push(item).drop_last() =~= items);
}

/// One more item joins the distinct items at the end, unless it is there
/// already.
pub proof fn lemma_first_seen_push<K>(items: Seq<K>, item: K)
    ensures
        first_seen(items.push(item)) == if first_seen(items).contains(item) {
            first_seen(items)
        } else {
            first_seen(items).push(item)
        },
{
    assert(items.push(item).drop_last() =~= items);
}

/// No key occurs more often than there are items.
pub proof fn lemma_occurrences_bound<K>(items: Seq<K>, key: K)
    ensures
        occurrences(items, key) <= items.len(),
    decreases items.len(),
{
    if items.len() > 0 {
        lemma_occurrences_bound(items.drop_last(), key);
    }
}

/// A key is among the distinct items exactly if it occurs at least once.
pub proof fn lemma_first_seen_iff<K>(items: Seq<K>, key: K)
    ensures
        first_seen(items).contains(key) <==> occurrences(items, key) > 0,
    decreases items.len(),
{
    if items.len() > 0 {
        let before = first_seen(items.drop_last());
        lemma_first_seen_iff(items.drop_last(), key);
        if !before.contains(items.last()) {
            let after = before.push(items.last());
            assert(after.last() == items.last());
            if before.contains(key) {
                let i = choose|i: int| 0 <= i < before.len() && before[i] == key;
                assert(after[i] == key);
            }
        }
    }
}

/// No key is listed twice, and there are no more keys than items.
pub proof fn lemma_first_seen_distinct<K>(items: Seq<K>)
    ensures
        first_seen(items).no_duplicates(),
        first_seen(items).len() <= items.len(),
    decreases items.len(),
{
    if items.len() > 0 {
        lemma_first_seen_distinct(items.drop_last());
    }
}

/// A key occurs at least once exactly if it is among the items.
pub proof fn lemma_occurrences_contains<K>(items: Seq<K>, key: K)
    ensures
        occurrences(items, key) > 0 <==> items.contains(key),
    decreases items.len(),
{
    if items.len() > 0 {
        let shorter = items.drop_last();
        lemma_occurrences_contains(shorter, key);
        if items.last() != key && items.contains(key) {
            let i = choose|i: int| 0 <= i < items.len() && items[i] == key;
            assert(shorter[i] == key);
        }
    }
}

/// Whether `a` is seen among the items before `b` is: at some place stands
/// `a`, and `b` stands neither there nor before.
pub open spec fn seen_before<K>(items: Seq<K>, a: K, b: K) -> bool {
    exists|p: int|
        0 <= p < items.len() && #[trigger] items[p] == a && forall|q: int|
            0 <= q <= p ==> #[trigger] items[q] != b
}

/// The distinct items stand in the order in which they are first seen: of
/// two of them, the earlier is seen among the items before the later is.
pub proof fn lemma_first_seen_order<K>(items: Seq<K>)
    ensures
        forall|i: int, j: int|
            0 <= i < j < first_seen(items).len() ==> seen_before(
                items,
                #[trigger] first_seen(items)[i],
                #[trigger] first_seen(items)[j],
            ),
    decreases items.len(),
{
    if items.len() > 0 {
        let shorter = items.drop_last();
        let before = first_seen(shorter);
        let keys = first_seen(items);
        lemma_first_seen_order(shorter);
        assert forall|i: int, j: int| 0 <= i < j < keys.len() implies seen_before(
            items,
            #[trigger] keys[i],
            #[trigger] keys[j],
        ) by {
            if j < before.len() {
                let p = choose|p: int|
                    0 <= p < shorter.len() && #[trigger] shorter[p] == before[i] && forall|q: int|
                        0 <= q <= p ==> #[trigger] shorter[q] != before[j];
                assert forall|q: int| 0 <= q <= p implies #[trigger] items[q] != keys[j] by {
                    assert(shorter[q] != before[j]);
                }
            } else {
                // the later key is the last item, seen for the first time
                lemma_first_seen_iff(shorter, before[i]);
                lemma_occurrences_contains(shorter, before[i]);
                lemma_first_seen_iff(shorter, items.last());
                lemma_occurrences_contains(shorter, items.last());
                let p = choose|p: int| 0 <= p < shorter.len() && shorter[p] == before[i];
                assert forall|q: int| 0 <= q <= p implies #[trigger] items[q] != keys[j] by {
                    if shorter[q] == items.last() {
                        assert(shorter.contains(items.last()));
                    }
                }
            }
        }
    }
}

/// Raising one count of a table by one raises the total by one.
proof fn lemma_total_count_bump<K>(table: Seq<(K, nat)>, at: int)
    requires
        0 <= at < table.len(),
    ensures
        total_count(table.update(at, (table[at].0, table[at].1 + 1))) == total_count(table) + 1,
    decreases table.len(),
{
    let bumped = table.update(at, (table[at].0, table[at].1 + 1));
    if at == table.len() - 1 {
        assert(bumped.drop_last() =~= table.drop_last());
    } else {
        lemma_total_count_bump(table.drop_last(), at);
        assert(bumped.drop_last() =~= table.drop_last().update(
            at,
            (table[at].0, table[at].1 + 1),
        ));
    }
}

/// The table of one more item: the count of its key goes up by one, or the
/// key joins the table at the end with a count of one.
pub proof fn lemma_tally_push<K>(items: Seq<K>, item: K)
    ensures
        first_seen(items).contains(item) ==> {
            let at = first_seen(items).index_of(item);
            &&& 0 <= at < tally(items).len()
            &&& tally(items)[at].0 == item
            &&& tally(items.push(item)) == tally(items).update(at, (item, tally(items)[at].1 + 1))
        },
        !first_seen(items).contains(item) ==> tally(items.push(item)) == tally(items).push(
            (item, 1nat),
        ),
{
    let keys = first_seen(items);
    let after = items.push(item);
    lemma_first_seen_push(items, item);
    lemma_first_seen_distinct(items);
    lemma_first_seen_iff(items, item);
    assert forall|key: K| occurrences(after, key) == occurrences(items, key) + if item == key {
        1nat
    } else {
        0nat
    } by {
        lemma_occurrences_push(items, item, key);
    }
    if keys.contains(item) {
        let at = keys.index_of(item);
        assert(tally(after) =~= tally(items).update(at, (item, tally(items)[at].1 + 1)));
    } else {
        assert forall|i: int| 0 <= i < keys.len() implies keys[i] != item by {}
        assert(tally(after) =~= tally(items).push((item, 1nat)));
    }
}

/// The counts of a table add up to the number of items counted.
pub proof fn lemma_tally_total<K>(items: Seq<K>)
    ensures
        total_count(tally(items)) == items.len(),
    decreases items.len(),
{
    if items.len() > 0 {
        let before = items.drop_last();
        let item = items.last();
        assert(before.push(item) =~= items);
        lemma_tally_total(before);
        lemma_tally_push(before, item);
        if first_seen(before).contains(item) {
            let at = first_seen(before).index_of(item);
            lemma_total_count_bump(tally(before), at);
        } else {
            assert(tally(before).push((item, 1nat)).drop_last() =~= tally(before));
        }
    }
}

/// Looking a key up in the table of `items` gives the number of times it
/// occurs among them.
pub proof fn lemma_lookup_tally<K>(items: Seq<K>, key: K)
    ensures
        lookup(tally(items), key) == occurrences(items, key),
{
    let table = tally(items);
    let keys = first_seen(items);
    lemma_first_seen_iff(items, key);
    lemma_first_seen_distinct(items);
    if keys.contains(key) {
        let i = choose|i: int| 0 <= i < keys.len() && keys[i] == key;
        assert(table[i].0 == key);
    }
}

/// The `n` most frequent entries are at most `n`, at most as many as the
/// table has entries, and each of them is an entry of the table.
pub proof fn lemma_top_entries_bounds<K>(table: Seq<(K, nat)>, n: int)
    requires
        0 <= n,
        table.len() <= usize::MAX,
    ensures
        top_entries(table, n).len() <= n,
        top_entries(table, n).len() <= table.len(),
        forall|i: int|
            0 <= i < top_entries(table, n).len() ==> table.contains(
                #[trigger] top_entries(table, n)[i],
            ),
        forall|i: int, j: int|
            0 <= i < j < top_entries(table, n).len() ==> top_entries(table, n)[i].1
                >= top_entries(table, n)[j].1,
{
    let order = ranking(count_column(table), n);
    lemma_ranking_exists(count_column(table), n);
    lemma_ranking_bounds(count_column(table), n, order);
}

/// The letters of a classified text as they are counted: every glyph that is
/// a letter, in ASCII lower case, in order.
pub open spec fn letter_items(g: Seq<Glyph>) -> Seq<char>
    decreases g.len(),
{
    if g.len() == 0 {
        Seq::<char>::empty()
    } else if g.last().alphabetic {
        letter_items(g.drop_last()).push(ascii_lowercase(g.last().ch))
    } else {
        letter_items(g.drop_last())
    }
}

/// The words of a text as they are counted: each word normalized, in order.
pub open spec fn word_items(words: Seq<Seq<Glyph>>) -> Seq<Seq<char>> {
    Seq::new(words.len(), |i: int| normalized(words[i]))
}

/// There are no more letters than glyphs.
pub proof fn lemma_letter_items_len(g: Seq<Glyph>)
    ensures
        letter_items(g).len() <= g.len(),
    decreases g.len(),
{
    if g.len() > 0 {
        lemma_letter_items_len(g.drop_last());
    }
}

/// Letter and count pairs with the counts as natural numbers.
pub open spec fn letter_pairs(pairs: Seq<(char, usize)>) -> Seq<(char, nat)> {
    Seq::new(pairs.len(), |i: int| (pairs[i].0, pairs[i].1 as nat))
}

/// Word and count pairs with the words as character sequences and the counts
/// as natural numbers.
pub open spec fn word_pairs(pairs: Seq<(String, usize)>) -> Seq<(Seq<char>, nat)> {
    Seq::new(pairs.len(), |i: int| (pairs[i].0@, pairs[i].1 as nat))
}

/// How often each letter occurs, in order of first appearance.
#[derive(Debug)]
pub struct LetterTable {
    letters: Vec<char>,
    counts: Vec<usize>,
}

impl View for LetterTable {
    type V = Seq<(char, nat)>;

    closed spec fn view(&self) -> Seq<(char, nat)> {
        Seq::new(self.letters@.len(), |i: int| (self.letters@[i], self.counts@[i] as nat))
    }
}

impl LetterTable {
    #[verifier::type_invariant]
    spec fn inv(self) -> bool {
        &&& self.letters@.len() == self.counts@.len()
        &&& self.letters@.no_duplicates()
    }

    /// The number of distinct letters.
    pub fn len(&self) -> (n: usize)
        ensures
            n == self@.len(),
    {
        self.letters.len()
    }

    /// The entry at position `i`, if the table has one there.
    pub fn entry(&self, i: usize) -> (e: Option<(char, usize)>)
        ensures
            e is Some <==> i < self@.len(),
            e matches Some(pair) ==> pair.0 == self@[i as int].0 && pair.1 == self@[i as int].1,
    {
        proof {
            use_type_invariant(self);
        }
        if i < self.letters.len() {
            Some((self.letters[i], self.counts[i]))
        } else {
            None
        }
    }

    /// How often `letter` was counted: zero if the table does not list it.
    pub fn count_of(&self, letter: char) -> (n: usize)
        ensures
            n == lookup(self@, letter),
    {
        proof {
            use_type_invariant(self);
        }
        match find_letter(&self.letters, letter) {
            Some(at) => {
                assert(self@[at as int].0 == letter);
                let ghost chosen = choose|i: int|
                    0 <= i < self@.len() && (#[trigger] self@[i]).0 == letter;
                assert(self.letters@[chosen] == letter);
                self.counts[at]
            },
            None => {
                assert forall|i: int| 0 <= i < self@.len() implies (#[trigger] self@[i]).0
                    != letter by {
                    assert(self.letters@[i] != letter);
                }
                0
            },
        }
    }

    /// The `n` most frequent letters with their counts, most frequent first.
    /// Letters that occur equally often come in the order in which they were
    /// first seen. Fewer than `n` are returned only if the table has fewer.
    pub fn find_most_frequent(&self, n: usize) -> (out: Vec<(char, usize)>)
        ensures
            letter_pairs(out@) == top_entries(self@, n as int),
            out.len() <= n,
            out.len() <= self@.len(),
    {
        proof {
            use_type_invariant(self);
        }
        let order = rank(&self.counts, n);
        assert(as_nats(self.counts@) =~= count_column(self@));
        let mut out: Vec<(char, usize)> = Vec::new();
        let mut i: usize = 0;
        while i < order.len()
            invariant
                i <= order.len(),
                self.letters@.len() == self.counts@.len(),
                is_ranking(as_nats(self.counts@), n as int, order@),
                out.len() == i,
                forall|k: int|
                    0 <= k < i ==> (#[trigger] out@[k]) == (
                        self.letters@[order@[k] as int],
                        self.counts@[order@[k] as int],
                    ),
            decreases order.len() - i,
        {
            let at = order[i];
            out.push((self.letters[at], self.counts[at]));
            i = i + 1;
        }
        assert(letter_pairs(out@) =~= top_entries(self@, n as int));
        out
    }

    /// The `n` most frequent letters, most frequent first, as one string.
    pub fn top_letters(&self, n: usize) -> (out: String)
        ensures
            out@ == key_column(top_entries(self@, n as int)),
            out@.len() <= n,
            out@.len() <= self@.len(),
    {
        let top = self.find_most_frequent(n);
        let mut out = String::new();
        let mut i: usize = 0;
        while i < top.len()
            invariant
                i <= top.len(),
                out@.len() == i,
                forall|k: int| 0 <= k < i ==> out@[k] == (#[trigger] top@[k]).0,
            decreases top.len() - i,
        {
            out.push(top[i].0);
            i = i + 1;
        }
        assert(out@ =~= key_column(letter_pairs(top@)));
        out
    }
}

/// Where a letter stands among the letters of a table.
fn find_letter(letters: &Vec<char>, letter: char) -> (found: Option<usize>)
    ensures
        match found {
            Some(at) => at < letters.len() && letters@[at as int] == letter,
            None => !letters@.contains(letter),
        },
{
    let mut i: usize = 0;
    while i < letters.len()
        invariant
            i <= letters.len(),
            forall|k: int| 0 <= k < i ==> letters@[k] != letter,
        decreases letters.len() - i,
    {
        if letters[i] == letter {
            return Some(i);
        }
        i = i + 1;
    }
    None
}

/// Counts the letters of a classified text: each glyph that is a letter is
/// counted under its ASCII lower-case form.
pub fn tally_letters(glyphs: &Vec<Glyph>) -> (table: LetterTable)
    ensures
        table@ == tally(letter_items(glyphs@)),
{
    let mut letters: Vec<char> = Vec::new();
    let mut counts: Vec<usize> = Vec::new();
    let mut i: usize = 0;
    while i < glyphs.len()
        invariant
            i <= glyphs.len(),
            letters@ == first_seen(letter_items(glyphs@.take(i as int))),
            counts@.len() == letters@.len(),
            forall|k: int|
                0 <= k < letters@.len() ==> (#[trigger] counts@[k]) == occurrences(
                    letter_items(glyphs@.take(i as int)),
                    letters@[k],
                ),
        decreases glyphs.len() - i,
    {
        let g = glyphs[i];
        let ghost items = letter_items(glyphs@.take(i as int));
        assert(glyphs@.take(i + 1).drop_last() =~= glyphs@.take(i as int));
        if g.alphabetic {
            let letter = g.ch.to_ascii_lowercase();
            proof {
                lemma_letter_items_len(glyphs@.take(i as int));
                lemma_first_seen_push(items, letter);
                lemma_first_seen_distinct(items);
                lemma_first_seen_iff(items, letter);
                lemma_occurrences_bound(items, letter);
                assert forall|key: char| occurrences(items.push(letter), key) == occurrences(
                    items,
                    key,
                ) + if letter == key {
                    1nat
                } else {
                    0nat
                } by {
                    lemma_occurrences_push(items, letter, key);
                }
            }
            match find_letter(&letters, letter) {
                Some(at) => {
                    let bumped = counts[at] + 1;
                    counts.set(at, bumped);
                },
                None => {
                    letters.push(letter);
                    counts.push(1);
                },
            }
        }
        i = i + 1;
    }
    proof {
        assert(glyphs@.take(glyphs@.len() as int) =~= glyphs@);
        lemma_first_seen_distinct(letter_items(glyphs@));
    }
    LetterTable { letters, counts }
}

/// Counts the letters of a text.
pub fn count_letters(text: &str) -> (table: LetterTable)
    ensures
        table@ == tally(letter_items(glyphs_of(text@))),
{
    let glyphs = scan(text);
    tally_letters(&glyphs)
}

/// The `num_letters` most frequent letters of a text, most frequent first,
/// as one string. Letters that occur equally often come in the order in
/// which the text first shows them.
pub fn find_most_frequent_letters(text: &str, num_letters: usize) -> (out: String)
    ensures
        out@ == key_column(
            top_entries(tally(letter_items(glyphs_of(text@))), num_letters as int),
        ),
        out@.len() <= num_letters,
{
    let table = count_letters(text);
    table.top_letters(num_letters)
}

/// How often each normalized word occurs, in order of first appearance.
#[derive(Debug)]
pub struct WordTable {
    words: Vec<String>,
    counts: Vec<usize>,
}

/// The character sequences of a vector of strings.
pub open spec fn texts(strings: Seq<String>) -> Seq<Seq<char>> {
    Seq::new(strings.len(), |i: int| strings[i]@)
}

impl View for WordTable {
    type V = Seq<(Seq<char>, nat)>;

    closed spec fn view(&self) -> Seq<(Seq<char>, nat)> {
        Seq::new(self.words@.len(), |i: int| (self.words@[i]@, self.counts@[i] as nat))
    }
}

impl WordTable {
    #[verifier::type_invariant]
    spec fn inv(self) -> bool {
        &&& self.words@.len() == self.counts@.len()
        &&& texts(self.words@).no_duplicates()
    }

    /// The number of distinct words.
    pub fn len(&self) -> (n: usize)
        ensures
            n == self@.len(),
    {
        self.words.len()
    }

    /// The entry at position `i`, if the table has one there.
    pub fn entry(&self, i: usize) -> (e: Option<(String, usize)>)
        ensures
            e is Some <==> i < self@.len(),
            e matches Some(pair) ==> pair.0@ == self@[i as int].0 && pair.1 == self@[i as int].1,
    {
        proof {
            use_type_invariant(self);
        }
        if i < self.words.len() {
            Some((self.words[i].clone(), self.counts[i]))
        } else {
            None
        }
    }

    /// The length in characters of the word at position `i`, if the table
    /// has one there.
    pub fn word_len(&self, i: usize) -> (n: Option<usize>)
        ensures
            n is Some <==> i < self@.len(),
            n matches Some(length) ==> length == self@[i as int].0.len(),
    {
        proof {
            use_type_invariant(self);
        }
        if i < self.words.len() {
            Some(self.words[i].as_str().unicode_len())
        } else {
            None
        }
    }

    /// How often `word` was counted: zero if the table does not list it.
    pub fn count_of(&self, word: &str) -> (n: usize)
        ensures
            n == lookup(self@, word@),
    {
        proof {
            use_type_invariant(self);
        }
        let wanted = word.to_owned();
        match find_word(&self.words, &wanted) {
            Some(at) => {
                assert(self@[at as int].0 == word@);
                let ghost chosen = choose|i: int|
                    0 <= i < self@.len() && (#[trigger] self@[i]).0 == word@;
                assert(texts(self.words@)[chosen] == word@);
                assert(texts(self.words@)[at as int] == word@);
                self.counts[at]
            },
            None => {
                assert forall|i: int| 0 <= i < self@.len() implies (#[trigger] self@[i]).0
                    != word@ by {
                    assert(texts(self.words@)[i] != word@);
                }
                0
            },
        }
    }

    /// The `n` most frequent words with their counts, most frequent first.
    /// Words that occur equally often come in the order in which they were
    /// first seen. Fewer than `n` are returned only if the table has fewer.
    pub fn find_most_frequent(&self, n: usize) -> (out: Vec<(String, usize)>)
        ensures
            word_pairs(out@) == top_entries(self@, n as int),
            out.len() <= n,
            out.len() <= self@.len(),
    {
        proof {
            use_type_invariant(self);
        }
        let order = rank(&self.counts, n);
        assert(as_nats(self.counts@) =~= count_column(self@));
        let mut out: Vec<(String, usize)> = Vec::new();
        let mut i: usize = 0;
        while i < order.len()
            invariant
                i <= order.len(),
                self.words@.len() == self.counts@.len(),
                is_ranking(as_nats(self.counts@), n as int, order@),
                out.len() == i,
                forall|k: int|
                    0 <= k < i ==> (#[trigger] out@[k]).0@ == self.words@[order@[k] as int]@
                        && out@[k].1 == self.counts@[order@[k] as int],
            decreases order.len() - i,
        {
            let at = order[i];
            out.push((self.words[at].clone(), self.counts[at]));
            i = i + 1;
        }
        out
    }
}

/// Where a word stands among the words of a table.
fn find_word(words: &Vec<String>, word: &String) -> (found: Option<usize>)
    ensures
        match found {
            Some(at) => at < words.len() && words@[at as int]@ == word@,
            None => !texts(words@).contains(word@),
        },
{
    let mut i: usize = 0;
    while i < words.len()
        invariant
            i <= words.len(),
            forall|k: int| 0 <= k < i ==> words@[k]@ != word@,
        decreases words.len() - i,
    {
        if words[i] == *word {
            return Some(i);
        }
        i = i + 1;
    }
    assert forall|k: int| 0 <= k < texts(words@).len() implies texts(words@)[k] != word@ by {}
    None
}

/// Counts the words of a text: each word is counted under its normalized
/// form.
pub fn tally_words(words: &Vec<Vec<Glyph>>) -> (table: WordTable)
    ensures
        table@ == tally(word_items(runs(words@))),
{
    let ghost all = word_items(runs(words@));
    let mut keys: Vec<String> = Vec::new();
    let mut counts: Vec<usize> = Vec::new();
    let mut i: usize = 0;
    while i < words.len()
        invariant
            i <= words.len(),
            all == word_items(runs(words@)),
            texts(keys@) == first_seen(all.take(i as int)),
            counts@.len() == keys@.len(),
            forall|k: int|
                0 <= k < keys@.len() ==> (#[trigger] counts@[k]) == occurrences(
                    all.take(i as int),
                    keys@[k]@,
                ),
        decreases words.len() - i,
    {
        let key = normalize_word(&words[i]);
        let ghost items = all.take(i as int);
        let ghost old_keys = texts(keys@);
        proof {
            assert(all.take(i + 1) =~= items.push(key@));
            lemma_first_seen_push(items, key@);
            lemma_first_seen_distinct(items);
            lemma_first_seen_iff(items, key@);
            lemma_occurrences_bound(items, key@);
            assert forall|other: Seq<char>| occurrences(items.push(key@), other) == occurrences(
                items,
                other,
            ) + if key@ == other {
                1nat
            } else {
                0nat
            } by {
                lemma_occurrences_push(items, key@, other);
            }
            assert forall|k: int| 0 <= k < keys@.len() implies keys@[k]@ == old_keys[k] by {}
        }
        match find_word(&keys, &key) {
            Some(at) => {
                assert(old_keys[at as int] == key@);
                let bumped = counts[at] + 1;
                counts.set(at, bumped);
                assert forall|k: int| 0 <= k < keys@.len() && k != at implies keys@[k]@
                    != key@ by {
                    assert(old_keys[k] != old_keys[at as int]);
                }
            },
            None => {
                keys.push(key);
                counts.push(1);
                assert forall|k: int| 0 <= k < old_keys.len() implies keys@[k]@ != key@ by {
                    assert(old_keys[k] != key@);
                }
            },
        }
        i = i + 1;
    }
    proof {
        assert(all.take(all.len() as int) =~= all);
        lemma_first_seen_distinct(all);
    }
    WordTable { words: keys, counts }
}

/// Counts the words of a text under their normalized forms.
pub fn count_words(text: &str) -> (table: WordTable)
    ensures
        table@ == tally(word_items(words_of(glyphs_of(text@)))),
{
    let glyphs = scan(text);
    let words = split_words(&glyphs);
    tally_words(&words)
}

/// The `num_words` most frequent normalized words of a text with their
/// counts, most frequent first. Words that occur equally often come in the
/// order in which the text first shows them.
pub fn find_most_frequent_words(text: &str, num_words: usize) -> (out: Vec<(String, usize)>)
    ensures
        word_pairs(out@) == top_entries(
            tally(word_items(words_of(glyphs_of(text@)))),
            num_words as int,
        ),
        out.len() <= num_words,
{
    let table = count_words(text);
    table.find_most_frequent(num_words)
}
} // verus!
