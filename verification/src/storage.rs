//! What is handed to the row store: the texts of the two statements and the
//! row of one result.

use vstd::prelude::*;
use crate::analysis::{Analysis, AnalysisResult};
use crate::frequency::word_pairs;
use crate::metrics::Mean;

verus! {

/// The decimal digit for a number below ten.
pub open spec fn digit(d: nat) -> char {
    (('0' as u32) + d) as char
}

/// A number written in decimal, without leading zeros.
pub open spec fn decimal(n: nat) -> Seq<char>
    decreases n,
{
    if n < 10 {
        seq![digit(n)]
    } else {
        decimal(n / 10).push(digit(n % 10))
    }
}

/// The number that a decimal digit stands for.
pub open spec fn digit_value(c: char) -> nat {
    ((c as u32) - ('0' as u32)) as nat
}

/// The number that a sequence of decimal digits stands for.
pub open spec fn decimal_value(digits: Seq<char>) -> nat
    decreases digits.len(),
{
    if digits.len() == 0 {
        0
    } else {
        10 * decimal_value(digits.drop_last()) + digit_value(digits.last())
    }
}

/// The decimal form of a number is made of digits, stands for the number,
/// and starts with a zero only where the number is zero.
pub proof fn lemma_decimal(n: nat)
    ensures
        decimal(n).len() >= 1,
        forall|i: int| 0 <= i < decimal(n).len() ==> '0' <= #[trigger] decimal(n)[i] <= '9',
        decimal_value(decimal(n)) == n,
        n > 0 ==> decimal(n)[0] != '0',
    decreases n,
{
    if n < 10 {
        assert(decimal(n).drop_last() =~= Seq::<char>::empty());
        assert(decimal_value(Seq::<char>::empty()) == 0);
    } else {
        lemma_decimal(n / 10);
        assert(decimal(n).drop_last() =~= decimal(n / 10));
    }
}

/// What stands between a word and its count in the list of most common
/// words.
pub const OCCURS: &'static str = " (occurs ";

/// What stands behind the count of a word in the list of most common words.
pub const TIMES: &'static str = " times)";

/// What stands between two entries of the list of most common words.
pub const SEPARATOR: &'static str = ", ";

/// One entry of the list of most common words: the word and how often it
/// occurs.
pub open spec fn occurrence_text(word: Seq<char>, count: nat) -> Seq<char> {
    word + OCCURS@ + decimal(count) + TIMES@
}

/// The list of most common words as one text: the entries in order, with
/// the separator between each two.
pub open spec fn occurrence_list(pairs: Seq<(Seq<char>, nat)>) -> Seq<char>
    decreases pairs.len(),
{
    if pairs.len() == 0 {
        Seq::<char>::empty()
    } else if pairs.len() == 1 {
        occurrence_text(pairs[0].0, pairs[0].1)
    } else {
        occurrence_list(pairs.drop_last()) + SEPARATOR@ + occurrence_text(
            pairs.last().0,
            pairs.last().1,
        )
    }
}

/// What stands before the name of the table in the statement that creates
/// it.
pub const CREATE_TABLE_HEAD: &'static str = "CREATE TABLE IF NOT EXISTS ";

/// The columns of the table, as they follow its name in the statement that
/// creates it.
pub const CREATE_TABLE_COLUMNS: &'static str =
    " (id INTEGER PRIMARY KEY, content TEXT NOT NULL, num_sentences INTEGER, num_words INTEGER, most_common_words TEXT, average_word_length REAL)";

/// What stands before the name of the table in the statement that appends a
/// row.
pub const INSERT_HEAD: &'static str = "INSERT INTO ";

/// The columns and the parameters of a row, as they follow the name of the
/// table in the statement that appends it.
pub const INSERT_VALUES: &'static str =
    " (content, num_sentences, num_words, most_common_words, average_word_length) VALUES (?1, ?2, ?3, ?4, ?5)";

/// The statement that creates the table of results unless it exists.
pub open spec fn create_table_text(table_name: Seq<char>) -> Seq<char> {
    CREATE_TABLE_HEAD@ + table_name + CREATE_TABLE_COLUMNS@
}

/// The statement that appends one row to the table of results. Its five
/// parameters are the columns of a `StoredRow`, in order.
pub open spec fn insert_text(table_name: Seq<char>) -> Seq<char> {
    INSERT_HEAD@ + table_name + INSERT_VALUES@
}

/// Appends the decimal form of `n` to `out`.
pub fn push_decimal(out: &mut String, n: usize)
    ensures
        final(out)@ == old(out)@ + decimal(n as nat),
    decreases n,
{
    if n >= 10 {
        push_decimal(out, n / 10);
    }
    let d = (n % 10) as u8;
    let c = (48u8 + d) as char;
    out.push(c);
}

/// The list of most common words as one text, such as
/// `hello (occurs 2 times), world (occurs 1 times)`.
pub fn format_most_common_words(words: &Vec<(String, usize)>) -> (out: String)
    ensures
        out@ == occurrence_list(word_pairs(words@)),
{
    let ghost pairs = word_pairs(words@);
    let mut out = String::new();
    let mut i: usize = 0;
    while i < words.len()
        invariant
            i <= words.len(),
            pairs == word_pairs(words@),
            out@ == occurrence_list(pairs.take(i as int)),
        decreases words.len() - i,
    {
        if i > 0 {
            out.append(SEPARATOR);
        }
        out.append(words[i].0.as_str());
        out.append(OCCURS);
        push_decimal(&mut out, words[i].1);
        out.append(TIMES);
        assert(pairs.take(i + 1).drop_last() =~= pairs.take(i as int));
        i = i + 1;
    }
    assert(pairs.take(pairs.len() as int) =~= pairs);
    out
}

/// The statement that creates the table `table_name` unless it exists, with
/// the columns `id`, `content`, `num_sentences`, `num_words`,
/// `most_common_words` and `average_word_length`.
pub fn create_table_statement(table_name: &str) -> (sql: String)
    ensures
        sql@ == create_table_text(table_name@),
{
    let mut sql = String::new();
    sql.append(CREATE_TABLE_HEAD);
    sql.append(table_name);
    sql.append(CREATE_TABLE_COLUMNS);
    sql
}

/// The statement that appends one row to the table `table_name`.
pub fn insert_statement(table_name: &str) -> (sql: String)
    ensures
        sql@ == insert_text(table_name@),
{
    let mut sql = String::new();
    sql.append(INSERT_HEAD);
    sql.append(table_name);
    sql.append(INSERT_VALUES);
    sql
}

/// One row of the table of results: the text and what is kept of its
/// analysis.
#[derive(Debug)]
pub struct StoredRow {
    /// The text that was analysed.
    pub content: String,
    /// Its number of sentences.
    pub num_sentences: usize,
    /// Its number of words.
    pub num_words: usize,
    /// Its most common words, as `format_most_common_words` writes them.
    pub most_common_words: String,
    /// The lengths of its distinct normalized words over the number of all
    /// its words.
    pub average_word_length: Mean,
}

impl View for StoredRow {
    type V = (Seq<char>, nat, nat, Seq<char>, (nat, nat));

    /// The columns of the row, in order; the average as its sum and count.
    open spec fn view(&self) -> (Seq<char>, nat, nat, Seq<char>, (nat, nat)) {
        (
            self.content@,
            self.num_sentences as nat,
            self.num_words as nat,
            self.most_common_words@,
            self.average_word_length@,
        )
    }
}

/// The row under which an analysis of `text` is stored: the text, the two
/// counts, the list of most common words as one text, and the average length
/// of the distinct words.
pub open spec fn row_of(text: Seq<char>, analysis: Analysis) -> (
    Seq<char>,
    nat,
    nat,
    Seq<char>,
    (nat, nat),
) {
    (
        text,
        analysis.num_sentences,
        analysis.num_words,
        occurrence_list(analysis.most_common_words),
        analysis.average_distinct_word_length,
    )
}

/// The row under which the analysis of `text` is stored.
pub fn stored_row(text: &str, result: &AnalysisResult) -> (row: StoredRow)
    ensures
        row@ == row_of(text@, result@),
        row.average_word_length == result.average_distinct_word_length,
{
    StoredRow {
        content: text.to_owned(),
        num_sentences: result.num_sentences,
        num_words: result.num_words,
        most_common_words: format_most_common_words(&result.most_common_words),
        average_word_length: result.average_distinct_word_length,
    }
}
} // verus!
