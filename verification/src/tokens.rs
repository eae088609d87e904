//! Splitting a text into sentences and words.

use vstd::prelude::*;
use crate::glyph::{chars_of, glyphs_of, scan, text_of, Glyph};
use crate::std_specs::ascii_lowercase;

verus! {

/// The character that ends a sentence.
pub const SENTENCE_DELIMITER: char = '.';

/// The sentence fragments of a text: the text cut at every delimiter. There
/// is always at least one fragment; a text that ends in a delimiter has an
/// empty last fragment.
pub open spec fn sentences_of(s: Seq<char>) -> Seq<Seq<char>>
    decreases s.len(),
{
    if s.len() == 0 {
        seq![Seq::<char>::empty()]
    } else {
        let before = sentences_of(s.drop_last());
        if s.last() == SENTENCE_DELIMITER {
            before.push(Seq::<char>::empty())
        } else {
            before.drop_last().push(before.last().push(s.last()))
        }
    }
}

/// The number of delimiters in a text: its sentence count.
pub open spec fn delimiter_count(s: Seq<char>) -> nat
    decreases s.len(),
{
    if s.len() == 0 {
        0
    } else {
        delimiter_count(s.drop_last()) + if s.last() == SENTENCE_DELIMITER { 1nat } else { 0nat }
    }
}

/// The lengths of a sequence of parts, added up.
pub open spec fn total_len<T>(parts: Seq<Seq<T>>) -> nat
    decreases parts.len(),
{
    if parts.len() == 0 {
        0
    } else {
        total_len(parts.drop_last()) + parts.last().len()
    }
}

/// The parts of a sequence put together again, a delimiter between each two.
pub open spec fn join_sentences(parts: Seq<Seq<char>>) -> Seq<char>
    decreases parts.len(),
{
    if parts.len() == 0 {
        Seq::<char>::empty()
    } else if parts.len() == 1 {
        parts[0]
    } else {
        join_sentences(parts.drop_last()).push(SENTENCE_DELIMITER) + parts.last()
    }
}

/// Whether no part holds a delimiter.
pub open spec fn delimiter_free(parts: Seq<Seq<char>>) -> bool {
    forall|i: int, j: int|
        0 <= i < parts.len() && 0 <= j < parts[i].len() ==> #[trigger] parts[i][j]
            != SENTENCE_DELIMITER
}

/// A text has one sentence fragment more than it has delimiters.
pub proof fn lemma_sentences_len(s: Seq<char>)
    ensures
        sentences_of(s).len() == delimiter_count(s) + 1,
    decreases s.len(),
{
    if s.len() > 0 {
        lemma_sentences_len(s.drop_last());
    }
}

/// No sentence fragment holds a delimiter.
pub proof fn lemma_sentences_delimiter_free(s: Seq<char>)
    ensures
        delimiter_free(sentences_of(s)),
    decreases s.len(),
{
    if s.len() > 0 {
        lemma_sentences_delimiter_free(s.drop_last());
        lemma_sentences_len(s.drop_last());
    }
}

/// Joining the sentence fragments of a text with the delimiter gives the
/// text back.
pub proof fn lemma_sentences_join(s: Seq<char>)
    ensures
        join_sentences(sentences_of(s)) == s,
    decreases s.len(),
{
    if s.len() > 0 {
        let before = sentences_of(s.drop_last());
        lemma_sentences_join(s.drop_last());
        lemma_sentences_len(s.drop_last());
        if s.last() == SENTENCE_DELIMITER {
            assert(before.push(Seq::<char>::empty()).drop_last() =~= before);
        } else {
            let parts = before.drop_last().push(before.last().push(s.last()));
            assert(parts.drop_last() =~= before.drop_last());
            if before.len() > 1 {
                assert(join_sentences(before) == join_sentences(before.drop_last()).push(
                    SENTENCE_DELIMITER,
                ) + before.last());
                assert(join_sentences(parts) =~= join_sentences(before).push(s.last()));
            }
        }
    }
}

/// The sentence fragments are the only way to cut a text at its delimiters:
/// parts that hold no delimiter and join to the text are its fragments.
pub proof fn lemma_sentences_unique(s: Seq<char>, parts: Seq<Seq<char>>)
    requires
        parts.len() >= 1,
        delimiter_free(parts),
        join_sentences(parts) == s,
    ensures
        parts == sentences_of(s),
    decreases s.len(),
{
    let n = parts.len() as int;
    if n == 1 {
        lemma_single_fragment(s);
    } else {
        let head = join_sentences(parts.drop_last()).push(SENTENCE_DELIMITER);
        if parts.last().len() == 0 {
            assert(s.drop_last() =~= join_sentences(parts.drop_last()));
            lemma_sentences_unique(s.drop_last(), parts.drop_last());
            assert(parts.last() =~= Seq::<char>::empty());
        } else {
            let shorter = parts.drop_last().push(parts.last().drop_last());
            assert(shorter.drop_last() =~= parts.drop_last());
            assert(s.drop_last() =~= head + parts.last().drop_last());
            assert forall|i: int, j: int|
                0 <= i < shorter.len() && 0 <= j < shorter[i].len() implies #[trigger] shorter[i][j]
                != SENTENCE_DELIMITER by {}
            lemma_sentences_unique(s.drop_last(), shorter);
            assert(parts.last() =~= shorter.last().push(s.last()));
        }
    }
}

/// A text without a delimiter is its own single fragment.
proof fn lemma_single_fragment(s: Seq<char>)
    requires
        forall|j: int| 0 <= j < s.len() ==> s[j] != SENTENCE_DELIMITER,
    ensures
        sentences_of(s) == seq![s],
    decreases s.len(),
{
    if s.len() == 0 {
        assert(s =~= Seq::<char>::empty());
    } else {
        lemma_single_fragment(s.drop_last());
        assert(s.drop_last().push(s.last()) =~= s);
    }
}

/// The lengths of the sentence fragments and the delimiters make up the
/// length of the text.
pub proof fn lemma_sentences_total_len(s: Seq<char>)
    ensures
        total_len(sentences_of(s)) + delimiter_count(s) == s.len(),
    decreases s.len(),
{
    if s.len() == 0 {
        assert(sentences_of(s).drop_last() =~= Seq::<Seq<char>>::empty());
        assert(total_len(Seq::<Seq<char>>::empty()) == 0);
    } else {
        let before = sentences_of(s.drop_last());
        lemma_sentences_total_len(s.drop_last());
        lemma_sentences_len(s.drop_last());
        if s.last() == SENTENCE_DELIMITER {
            let parts = before.push(Seq::<char>::empty());
            assert(parts.drop_last() =~= before);
        } else {
            let parts = before.drop_last().push(before.last().push(s.last()));
            assert(parts.drop_last() =~= before.drop_last());
        }
    }
}

/// The lengths of the first parts never add up to more than all of them.
pub proof fn lemma_total_len_prefix<T>(parts: Seq<Seq<T>>, k: int)
    requires
        0 <= k <= parts.len(),
    ensures
        total_len(parts.take(k)) <= total_len(parts),
    decreases parts.len(),
{
    if k == parts.len() {
        assert(parts.take(k) =~= parts);
    } else {
        lemma_total_len_prefix(parts.drop_last(), k);
        assert(parts.drop_last().take(k) =~= parts.take(k));
    }
}

/// The sentence fragments of a text, in order.
pub fn sentences(text: &str) -> (out: Vec<String>)
    ensures
        out.deep_view() == sentences_of(text@),
{
    broadcast use vstd::string::group_string_axioms;

    let mut done: Vec<String> = Vec::new();
    let mut current = String::new();
    for c in it: text.chars()
        invariant
            it.seq() == text@,
            done.deep_view().push(current@) == sentences_of(text@.take(it.index())),
    {
        assert(text@.take(it.index() + 1).drop_last() =~= text@.take(it.index()));
        if c == SENTENCE_DELIMITER {
            done.push(current);
            current = String::new();
        } else {
            current.push(c);
        }
    }
    assert(text@.take(text@.len() as int) =~= text@);
    done.push(current);
    done
}

/// The number of sentences of a text: the number of delimiters in it.
pub fn count_sentences(text: &str) -> (n: usize)
    ensures
        n == delimiter_count(text@),
{
    broadcast use vstd::string::group_string_axioms;

    let total = text.unicode_len();
    let mut n: usize = 0;
    for c in it: text.chars()
        invariant
            it.seq() == text@,
            total == text@.len(),
            n == delimiter_count(text@.take(it.index())),
            n <= it.index(),
    {
        assert(text@.take(it.index() + 1).drop_last() =~= text@.take(it.index()));
        if c == SENTENCE_DELIMITER {
            n = n + 1;
        }
    }
    assert(text@.take(text@.len() as int) =~= text@);
    n
}

/// The words of a classified text: its maximal runs of glyphs that are not
/// white space, in order.
pub open spec fn words_of(g: Seq<Glyph>) -> Seq<Seq<Glyph>>
    decreases g.len(),
{
    if g.len() == 0 {
        Seq::<Seq<Glyph>>::empty()
    } else {
        let before = words_of(g.drop_last());
        if g.last().whitespace {
            before
        } else if g.len() >= 2 && !g[g.len() - 2].whitespace {
            before.drop_last().push(before.last().push(g.last()))
        } else {
            before.push(seq![g.last()])
        }
    }
}

/// The number of glyphs that are white space.
pub open spec fn whitespace_count(g: Seq<Glyph>) -> nat
    decreases g.len(),
{
    if g.len() == 0 {
        0
    } else {
        whitespace_count(g.drop_last()) + if g.last().whitespace { 1nat } else { 0nat }
    }
}

/// The glyph sequences that a vector of words holds.
pub open spec fn runs(words: Seq<Vec<Glyph>>) -> Seq<Seq<Glyph>> {
    Seq::new(words.len(), |i: int| words[i]@)
}

/// A text that ends in a glyph that is not white space has a last word, and
/// that glyph ends it.
pub proof fn lemma_words_open(g: Seq<Glyph>)
    requires
        g.len() > 0,
        !g.last().whitespace,
    ensures
        words_of(g).len() > 0,
        words_of(g).last().len() > 0,
        words_of(g).last().last() == g.last(),
    decreases g.len(),
{
    if g.len() >= 2 && !g[g.len() - 2].whitespace {
        lemma_words_open(g.drop_last());
    }
}

/// A text has no more words than glyphs.
pub proof fn lemma_words_len(g: Seq<Glyph>)
    ensures
        words_of(g).len() <= g.len(),
    decreases g.len(),
{
    if g.len() > 0 {
        lemma_words_len(g.drop_last());
        if !g.last().whitespace && g.len() >= 2 && !g[g.len() - 2].whitespace {
            lemma_words_open(g.drop_last());
        }
    }
}

/// Whether a run of glyphs is not empty and holds no white space.
pub open spec fn solid(w: Seq<Glyph>) -> bool {
    w.len() > 0 && forall|j: int| 0 <= j < w.len() ==> !(#[trigger] w[j]).whitespace
}

/// No word is empty and no word holds white space.
pub proof fn lemma_words_solid(g: Seq<Glyph>)
    ensures
        forall|i: int| 0 <= i < words_of(g).len() ==> solid(#[trigger] words_of(g)[i]),
    decreases g.len(),
{
    if g.len() > 0 {
        let before = words_of(g.drop_last());
        lemma_words_solid(g.drop_last());
        if !g.last().whitespace {
            if g.len() >= 2 && !g[g.len() - 2].whitespace {
                lemma_words_open(g.drop_last());
                assert(solid(before.last()));
            }
            assert forall|i: int| 0 <= i < words_of(g).len() implies solid(
                #[trigger] words_of(g)[i],
            ) by {
                if i < words_of(g).len() - 1 {
                    assert(words_of(g)[i] == before[i]);
                }
            }
        }
    }
}

/// A run of glyphs without white space that is not empty is its own and only
/// word.
pub proof fn lemma_words_of_solid(w: Seq<Glyph>)
    requires
        solid(w),
    ensures
        words_of(w) == seq![w],
    decreases w.len(),
{
    if w.len() == 1 {
        assert(words_of(w.drop_last()) =~= Seq::<Seq<Glyph>>::empty());
        assert(seq![w.last()] =~= w);
    } else {
        let shorter = w.drop_last();
        assert(solid(shorter)) by {
            assert forall|j: int| 0 <= j < shorter.len() implies !(
            #[trigger] shorter[j]).whitespace by {}
        }
        lemma_words_of_solid(shorter);
        assert(shorter.push(w.last()) =~= w);
    }
}

/// White space keeps the words on its two sides apart: the words of a text
/// with white space in it are the words before it, then the words after it.
pub proof fn lemma_words_of_parts(a: Seq<Glyph>, gap: Glyph, b: Seq<Glyph>)
    requires
        gap.whitespace,
    ensures
        words_of(a.push(gap) + b) == words_of(a) + words_of(b),
    decreases b.len(),
{
    let whole = a.push(gap) + b;
    if b.len() == 0 {
        assert(whole.drop_last() =~= a);
    } else {
        let shorter = b.drop_last();
        lemma_words_of_parts(a, gap, shorter);
        assert(whole.drop_last() =~= a.push(gap) + shorter);
        if !b.last().whitespace && b.len() >= 2 && !b[b.len() - 2].whitespace {
            // the last glyph extends the last word, which is a word of `b`
            lemma_words_open(shorter);
        }
    }
}

/// The lengths of the words and the white space between them make up the
/// length of the text.
pub proof fn lemma_words_total_len(g: Seq<Glyph>)
    ensures
        total_len(words_of(g)) + whitespace_count(g) == g.len(),
    decreases g.len(),
{
    if g.len() > 0 {
        let before = words_of(g.drop_last());
        lemma_words_total_len(g.drop_last());
        if g.last().whitespace {
        } else if g.len() >= 2 && !g[g.len() - 2].whitespace {
            lemma_words_open(g.drop_last());
            let parts = before.drop_last().push(before.last().push(g.last()));
            assert(parts.drop_last() =~= before.drop_last());
        } else {
            assert(before.push(seq![g.last()]).drop_last() =~= before);
        }
    }
}

/// The words of a classified text, in order.
pub fn split_words(glyphs: &Vec<Glyph>) -> (out: Vec<Vec<Glyph>>)
    ensures
        runs(out@) == words_of(glyphs@),
{
    let mut done: Vec<Vec<Glyph>> = Vec::new();
    let mut current: Vec<Glyph> = Vec::new();
    let mut i: usize = 0;
    while i < glyphs.len()
        invariant
            i <= glyphs.len(),
            current@.len() == 0 <==> (i == 0 || glyphs@[i - 1].whitespace),
            current@.len() == 0 ==> words_of(glyphs@.take(i as int)) == runs(done@),
            current@.len() > 0 ==> words_of(glyphs@.take(i as int)) == runs(done@).push(current@),
        decreases glyphs.len() - i,
    {
        let g = glyphs[i];
        assert(glyphs@.take(i + 1).drop_last() =~= glyphs@.take(i as int));
        if g.whitespace {
            if current.len() > 0 {
                done.push(current);
                current = Vec::new();
            }
        } else {
            current.push(g);
            assert(current@.len() == 1 ==> current@ =~= seq![g]);
        }
        i = i + 1;
    }
    assert(glyphs@.take(glyphs@.len() as int) =~= glyphs@);
    if current.len() > 0 {
        done.push(current);
    }
    done
}

/// The character sequences of a sequence of words.
pub open spec fn word_texts(words: Seq<Seq<Glyph>>) -> Seq<Seq<char>> {
    Seq::new(words.len(), |i: int| chars_of(words[i]))
}

/// The words of a text as the text has them, in order: what stands between
/// runs of white space.
pub fn words(text: &str) -> (out: Vec<String>)
    ensures
        out.deep_view() == word_texts(words_of(glyphs_of(text@))),
{
    let glyphs = scan(text);
    let split = split_words(&glyphs);
    let mut out: Vec<String> = Vec::new();
    let mut i: usize = 0;
    while i < split.len()
        invariant
            i <= split.len(),
            runs(split@) == words_of(glyphs_of(text@)),
            out.len() == i,
            forall|k: int| 0 <= k < i ==> (#[trigger] out@[k])@ == chars_of(split@[k]@),
        decreases split.len() - i,
    {
        out.push(text_of(&split[i]));
        i = i + 1;
    }
    out
}

/// A run of glyphs without the glyphs at its start that are not letters.
pub open spec fn trim_start(w: Seq<Glyph>) -> Seq<Glyph>
    decreases w.len(),
{
    if w.len() > 0 && !w.first().alphabetic {
        trim_start(w.drop_first())
    } else {
        w
    }
}

/// A run of glyphs without the glyphs at its end that are not letters.
pub open spec fn trim_end(w: Seq<Glyph>) -> Seq<Glyph>
    decreases w.len(),
{
    if w.len() > 0 && !w.last().alphabetic {
        trim_end(w.drop_last())
    } else {
        w
    }
}

/// The normalized form of a word: what is left between its first and its
/// last letter, in ASCII lower case. A word without a letter normalizes to
/// the empty word.
pub open spec fn normalized(w: Seq<Glyph>) -> Seq<char> {
    let core = trim_end(trim_start(w));
    Seq::new(core.len(), |i: int| ascii_lowercase(core[i].ch))
}

/// Trimming never lengthens a run.
pub proof fn lemma_trim_len(w: Seq<Glyph>)
    ensures
        trim_start(w).len() <= w.len(),
        trim_end(w).len() <= w.len(),
        normalized(w).len() <= w.len(),
    decreases w.len(),
{
    if w.len() > 0 {
        lemma_trim_len(w.drop_first());
        lemma_trim_len(w.drop_last());
    }
    lemma_trim_end_len(trim_start(w));
}

proof fn lemma_trim_end_len(w: Seq<Glyph>)
    ensures
        trim_end(w).len() <= w.len(),
    decreases w.len(),
{
    if w.len() > 0 {
        lemma_trim_end_len(w.drop_last());
    }
}

/// Where the first letter of a word stands and where its last letter ends:
/// the part of the word that trimming keeps. For a word without a letter
/// both are the length of the word.
pub fn letter_bounds(word: &Vec<Glyph>) -> (bounds: (usize, usize))
    ensures
        bounds.0 <= bounds.1 <= word.len(),
        forall|i: int| 0 <= i < bounds.0 ==> !(#[trigger] word@[i]).alphabetic,
        forall|i: int| bounds.1 <= i < word.len() ==> !(#[trigger] word@[i]).alphabetic,
        bounds.0 < bounds.1 ==> word@[bounds.0 as int].alphabetic && word@[bounds.1
            - 1].alphabetic,
        bounds.0 == bounds.1 ==> bounds.1 == word.len(),
        trim_end(trim_start(word@)) == word@.subrange(bounds.0 as int, bounds.1 as int),
{
    let n = word.len();
    let mut start: usize = 0;
    assert(word@.skip(0) =~= word@);
    while start < n
        invariant
            n == word.len(),
            start <= n,
            forall|i: int| 0 <= i < start ==> !(#[trigger] word@[i]).alphabetic,
            trim_start(word@) == trim_start(word@.skip(start as int)),
        ensures
            start <= n,
            forall|i: int| 0 <= i < start ==> !(#[trigger] word@[i]).alphabetic,
            start < n ==> word@[start as int].alphabetic,
            trim_start(word@) == word@.skip(start as int),
        decreases n - start,
    {
        if word[start].alphabetic {
            break ;
        }
        assert(word@.skip(start as int).drop_first() =~= word@.skip(start + 1));
        start = start + 1;
    }
    let mut end: usize = n;
    while end > start
        invariant
            n == word.len(),
            start <= end <= n,
            start < n ==> word@[start as int].alphabetic,
            forall|i: int| end <= i < n ==> !(#[trigger] word@[i]).alphabetic,
            trim_end(trim_start(word@)) == trim_end(word@.subrange(start as int, end as int)),
        ensures
            start <= end <= n,
            forall|i: int| end <= i < n ==> !(#[trigger] word@[i]).alphabetic,
            start < end ==> word@[end - 1].alphabetic,
            start < n ==> start < end,
            trim_end(trim_start(word@)) == word@.subrange(start as int, end as int),
        decreases end - start,
    {
        if word[end - 1].alphabetic {
            break ;
        }
        assert(word@.subrange(start as int, end as int).drop_last() =~= word@.subrange(
            start as int,
            end - 1,
        ));
        end = end - 1;
    }
    (start, end)
}

/// The normalized form of a word.
pub fn normalize_word(word: &Vec<Glyph>) -> (out: String)
    ensures
        out@ == normalized(word@),
{
    let (start, end) = letter_bounds(word);
    let ghost core = word@.subrange(start as int, end as int);
    let mut out = String::new();
    let mut i: usize = start;
    while i < end
        invariant
            start <= i <= end <= word.len(),
            core == word@.subrange(start as int, end as int),
            out@.len() == i - start,
            forall|k: int| 0 <= k < i - start ==> out@[k] == ascii_lowercase(#[trigger] core[k].ch),
        decreases end - i,
    {
        out.push(word[i].ch.to_ascii_lowercase());
        i = i + 1;
    }
    out
}
} // verus!
