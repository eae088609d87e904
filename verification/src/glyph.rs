//! Characters together with the Unicode properties the statistics read.

use vstd::prelude::*;
use crate::std_specs::{unicode_alphabetic, unicode_white_space};

verus! {

/// Whether a character is one of the five lower-case vowels.
pub open spec fn is_vowel(c: char) -> bool {
    c == 'a' || c == 'e' || c == 'i' || c == 'o' || c == 'u'
}

/// A character with the two properties that decide how it is counted.
#[derive(Clone, Copy, Debug, PartialEq, Eq, Structural)]
pub struct Glyph {
    /// The character itself.
    pub ch: char,
    /// Whether it counts as a letter.
    pub alphabetic: bool,
    /// Whether it separates words.
    pub whitespace: bool,
}

/// The glyph of a character as Unicode classifies it.
pub open spec fn glyph_of(c: char) -> Glyph {
    Glyph { ch: c, alphabetic: unicode_alphabetic(c), whitespace: unicode_white_space(c) }
}

/// The glyphs of a text, character by character.
pub open spec fn glyphs_of(s: Seq<char>) -> Seq<Glyph> {
    Seq::new(s.len(), |i: int| glyph_of(s[i]))
}

/// The characters of a run of glyphs.
pub open spec fn chars_of(g: Seq<Glyph>) -> Seq<char> {
    Seq::new(g.len(), |i: int| g[i].ch)
}

/// Forgetting the properties of a classified text gives the text back.
pub proof fn lemma_chars_of_glyphs(s: Seq<char>)
    ensures
        chars_of(glyphs_of(s)) == s,
{
    assert(chars_of(glyphs_of(s)) =~= s);
}

/// Classifies one character.
pub fn classify(c: char) -> (g: Glyph)
    ensures
        g == glyph_of(c),
{
    Glyph { ch: c, alphabetic: c.is_alphabetic(), whitespace: c.is_whitespace() }
}

/// Classifies every character of a text, in order.
pub fn scan(text: &str) -> (glyphs: Vec<Glyph>)
    ensures
        glyphs@ == glyphs_of(text@),
{
    broadcast use vstd::string::group_string_axioms;

    let mut glyphs: Vec<Glyph> = Vec::new();
    for c in it: text.chars()
        invariant
            it.seq() == text@,
            glyphs@ == glyphs_of(text@.take(it.index())),
    {
        glyphs.push(classify(c));
    }
    glyphs
}

/// The string made of the characters of a run of glyphs.
pub fn text_of(glyphs: &Vec<Glyph>) -> (s: String)
    ensures
        s@ == chars_of(glyphs@),
{
    let mut s = String::new();
    let mut i: usize = 0;
    while i < glyphs.len()
        invariant
            i <= glyphs.len(),
            s@ == chars_of(glyphs@.take(i as int)),
        decreases glyphs.len() - i,
    {
        s.push(glyphs[i].ch);
        i = i + 1;
    }
    s
}
} // verus!
