//! The corpus builder: turns tokenized lines into the initial frequency table
//! (one entry per character, plus the end-of-word marker) and the corpus
//! (each distinct word as single-character symbols closed by the marker, with
//! its number of occurrences).

use vstd::prelude::*;

use crate::counts::{
    add_count, count_total, has_key, key_index, keys_distinct, lemma_add_count,
    lemma_count_le_total, lemma_key_index,
};
use crate::strings::{char_string, end_marker, end_marker_string, lower_of, lowercase};

verus! {

/// A vocabulary token with its running frequency.
#[derive(Debug, Clone)]
pub struct Frequency {
    pub token: String,
    pub freq: u32,
}

impl View for Frequency {
    type V = (Seq<char>, nat);

    open spec fn view(&self) -> (Seq<char>, nat) {
        (self.token@, self.freq as nat)
    }
}

/// A corpus word, as its current symbols, with the number of times the word
/// occurred in the input.
#[derive(Debug, Clone)]
pub struct WordCount {
    pub word: Vec<String>,
    pub count: u32,
}

impl View for WordCount {
    type V = (Seq<Seq<char>>, nat);

    open spec fn view(&self) -> (Seq<Seq<char>>, nat) {
        (symbols_of(self.word@), self.count as nat)
    }
}

/// The character sequences of a sequence of strings.
pub open spec fn symbols_of(w: Seq<String>) -> Seq<Seq<char>> {
    w.map_values(|s: String| s@)
}

/// The frequency table as tokens with counts.
pub open spec fn table_view(t: Seq<Frequency>) -> Seq<(Seq<char>, nat)> {
    t.map_values(|f: Frequency| f@)
}

/// The corpus as symbol sequences with counts.
pub open spec fn corpus_view(c: Seq<WordCount>) -> Seq<(Seq<Seq<char>>, nat)> {
    c.map_values(|e: WordCount| e@)
}

/// Every word of the input, line after line.
pub open spec fn input_words(lines: Seq<Vec<String>>) -> Seq<Seq<char>> {
    lines.map_values(|l: Vec<String>| symbols_of(l@)).flatten_alt()
}

/// The words that training works on: the input words, lower-cased.
pub open spec fn training_words(lines: Seq<Vec<String>>) -> Seq<Seq<char>> {
    input_words(lines).map_values(|w: Seq<char>| lower_of(w))
}

/// A word as it enters the corpus: one symbol per character, then the marker.
pub open spec fn initial_symbols(w: Seq<char>) -> Seq<Seq<char>> {
    Seq::new(w.len(), |i: int| seq![w[i]]).push(end_marker())
}

/// The corpus of `words`: each distinct word once, in order of first
/// occurrence, with its number of occurrences.
pub open spec fn corpus_of(words: Seq<Seq<char>>) -> Seq<(Seq<Seq<char>>, nat)>
    decreases words.len(),
{
    if words.len() == 0 {
        seq![]
    } else {
        add_count(corpus_of(words.drop_last()), initial_symbols(words.last()), 1)
    }
}

/// `t` after counting each character of `w` as a one-character token.
pub open spec fn char_counts(t: Seq<(Seq<char>, nat)>, w: Seq<char>) -> Seq<(Seq<char>, nat)>
    decreases w.len(),
{
    if w.len() == 0 {
        t
    } else {
        add_count(char_counts(t, w.drop_last()), seq![w.last()], 1)
    }
}

/// The initial frequency table of `words`: every character, and the marker
/// once per word, in order of first occurrence, with its number of
/// occurrences.
pub open spec fn table_of(words: Seq<Seq<char>>) -> Seq<(Seq<char>, nat)>
    decreases words.len(),
{
    if words.len() == 0 {
        seq![]
    } else {
        add_count(char_counts(table_of(words.drop_last()), words.last()), end_marker(), 1)
    }
}

/// The number of symbols the corpus starts from: the characters of every
/// word, and one marker per word.
pub open spec fn symbol_total(words: Seq<Seq<char>>) -> nat
    decreases words.len(),
{
    if words.len() == 0 {
        0
    } else {
        symbol_total(words.drop_last()) + words.last().len() + 1
    }
}

/// The number of symbols in a corpus, each word counted as often as it
/// occurred.
pub open spec fn corpus_weight(c: Seq<(Seq<Seq<char>>, nat)>) -> nat
    decreases c.len(),
{
    if c.len() == 0 {
        0
    } else {
        corpus_weight(c.drop_last()) + c.last().1 * c.last().0.len()
    }
}

proof fn lemma_symbol_total_prefix(words: Seq<Seq<char>>, k: int)
    requires
        0 <= k <= words.len(),
    ensures
        symbol_total(words.take(k)) <= symbol_total(words),
    decreases words.len(),
{
    if k < words.len() {
        assert(words.drop_last().take(k) =~= words.take(k));
        lemma_symbol_total_prefix(words.drop_last(), k);
    } else {
        assert(words.take(k) =~= words);
    }
}

proof fn lemma_corpus_weight_update(c: Seq<(Seq<Seq<char>>, nat)>, i: int, e: (Seq<Seq<char>>, nat))
    requires
        0 <= i < c.len(),
    ensures
        corpus_weight(c.update(i, e)) == corpus_weight(c) - c[i].1 * c[i].0.len() + e.1 * e.0.len(),
    decreases c.len(),
{
    let u = c.update(i, e);
    if i == c.len() - 1 {
        assert(u.drop_last() =~= c.drop_last());
    } else {
        assert(u.drop_last() =~= c.drop_last().update(i, e));
        lemma_corpus_weight_update(c.drop_last(), i, e);
    }
}

/// One more occurrence of a word adds its length to the corpus weight.
proof fn lemma_corpus_weight_add(c: Seq<(Seq<Seq<char>>, nat)>, w: Seq<Seq<char>>)
    ensures
        corpus_weight(add_count(c, w, 1)) == corpus_weight(c) + w.len(),
{
    if has_key(c, w) {
        let i = key_index(c, w);
        assert(0 <= i < c.len() && c[i].0 == w);
        let n = c[i].1;
        assert(add_count(c, w, 1) == c.update(i, (w, n + 1)));
        lemma_corpus_weight_update(c, i, (w, n + 1));
        let l = w.len();
        assert((n + 1) * l == n * l + l) by (nonlinear_arith);
        assert(c[i].1 * c[i].0.len() == n * l);
        assert(corpus_weight(add_count(c, w, 1)) == corpus_weight(c) + w.len());
    } else {
        let p = add_count(c, w, 1);
        assert(p == c.push((w, 1)));
        assert(p.drop_last() =~= c);
        assert(p.last() == (w, 1nat));
        assert(corpus_weight(p) == corpus_weight(c) + 1 * w.len());
    }
}

/// The corpus built from `words` weighs as many symbols as the words give.
pub proof fn lemma_corpus_of_weight(words: Seq<Seq<char>>)
    ensures
        corpus_weight(corpus_of(words)) == symbol_total(words),
        keys_distinct(corpus_of(words)),
    decreases words.len(),
{
    if words.len() > 0 {
        lemma_corpus_of_weight(words.drop_last());
        lemma_corpus_weight_add(corpus_of(words.drop_last()), initial_symbols(words.last()));
        lemma_add_count(corpus_of(words.drop_last()), initial_symbols(words.last()), 1);
    }
}

/// The lower-cased words of `lines`, line after line.
fn lowered_words(lines: &Vec<Vec<String>>) -> (r: Vec<String>)
    ensures
        symbols_of(r@) == training_words(lines@),
{
    let ghost per_line = lines@.map_values(|l: Vec<String>| symbols_of(l@));
    let mut r: Vec<String> = Vec::new();
    let mut i: usize = 0;
    while i < lines.len()
        invariant
            i <= lines.len(),
            per_line == lines@.map_values(|l: Vec<String>| symbols_of(l@)),
            symbols_of(r@) == per_line.take(i as int).flatten_alt().map_values(
                |w: Seq<char>| lower_of(w),
            ),
        decreases lines.len() - i,
    {
        let line = &lines[i];
        let ghost before = per_line.take(i as int).flatten_alt();
        let mut j: usize = 0;
        while j < line.len()
            invariant
                j <= line.len(),
                line == lines[i as int],
                i < lines.len(),
                per_line == lines@.map_values(|l: Vec<String>| symbols_of(l@)),
                symbols_of(r@) == (before + per_line[i as int].take(j as int)).map_values(
                    |w: Seq<char>| lower_of(w),
                ),
            decreases line.len() - j,
        {
            let w = lowercase(line[j].as_str());
            let ghost old_r = r@;
            r.push(w);
            assert(symbols_of(r@) =~= symbols_of(old_r).push(w@));
            assert((before + per_line[i as int].take(j + 1)) =~= (before + per_line[
                i as int
            ].take(j as int)).push(per_line[i as int][j as int]));
            j += 1;
        }
        assert(per_line.take(i + 1).drop_last() =~= per_line.take(i as int));
        assert(per_line[i as int].take(j as int) =~= per_line[i as int]);
        i += 1;
    }
    assert(per_line.take(i as int) =~= per_line);
    r
}

/// Whether the symbols of `words` can be counted in a `u32`.
fn fits_counts(words: &Vec<String>) -> (r: bool)
    ensures
        r == (symbol_total(symbols_of(words@)) <= u32::MAX),
{
    let ghost ws = symbols_of(words@);
    let mut total: u64 = 0;
    let mut k: usize = 0;
    while k < words.len()
        invariant
            k <= words.len(),
            ws == symbols_of(words@),
            total == symbol_total(ws.take(k as int)),
            total <= u32::MAX,
        decreases words.len() - k,
    {
        let len = words[k].as_str().unicode_len();
        assert(ws.take(k + 1).drop_last() =~= ws.take(k as int));
        if len as u64 >= u32::MAX as u64 - total {
            proof {
                lemma_symbol_total_prefix(ws, k + 1);
            }
            return false;
        }
        total = total + len as u64 + 1;
        k += 1;
    }
    assert(ws.take(k as int) =~= ws);
    true
}

/// Counts `n` more occurrences of `token` in `table`.
fn add_token(table: &mut Vec<Frequency>, token: String, n: u32)
    requires
        keys_distinct(table_view(old(table)@)),
        count_total(table_view(old(table)@)) + n <= u32::MAX,
    ensures
        table_view(final(table)@) == add_count(table_view(old(table)@), token@, n as nat),
        keys_distinct(table_view(final(table)@)),
        count_total(table_view(final(table)@)) == count_total(table_view(old(table)@)) + n,
{
    let ghost t = table_view(table@);
    let mut i: usize = 0;
    while i < table.len()
        invariant
            i <= table.len(),
            t == table_view(table@),
            t == table_view(old(table)@),
            keys_distinct(t),
            count_total(t) + n <= u32::MAX,
            forall|j: int| 0 <= j < i ==> t[j].0 != token@,
        decreases table.len() - i,
    {
        if table[i].token == token {
            proof {
                lemma_key_index(t, token@, i as int);
                lemma_count_le_total(t, i as int);
                lemma_add_count(t, token@, n as nat);
            }
            let entry = Frequency { token, freq: table[i].freq + n };
            table.set(i, entry);
            assert(table_view(table@) =~= add_count(t, token@, n as nat));
            return;
        }
        i += 1;
    }
    proof {
        lemma_add_count(t, token@, n as nat);
    }
    table.push(Frequency { token, freq: n });
    assert(table_view(table@) =~= add_count(t, token@, n as nat));
}

/// Whether two symbol sequences are the same.
fn same_symbols(a: &Vec<String>, b: &Vec<String>) -> (r: bool)
    ensures
        r == (symbols_of(a@) == symbols_of(b@)),
{
    if a.len() != b.len() {
        assert(symbols_of(a@).len() != symbols_of(b@).len());
        return false;
    }
    let mut i: usize = 0;
    while i < a.len()
        invariant
            i <= a.len() == b.len(),
            forall|j: int| 0 <= j < i ==> a@[j]@ == b@[j]@,
        decreases a.len() - i,
    {
        if a[i] != b[i] {
            assert(symbols_of(a@)[i as int] != symbols_of(b@)[i as int]);
            return false;
        }
        i += 1;
    }
    assert(symbols_of(a@) =~= symbols_of(b@));
    true
}

/// Counts one more occurrence of `word` in `corpus`.
fn add_word(corpus: &mut Vec<WordCount>, word: Vec<String>)
    requires
        keys_distinct(corpus_view(old(corpus)@)),
        count_total(corpus_view(old(corpus)@)) + 1 <= u32::MAX,
    ensures
        corpus_view(final(corpus)@) == add_count(corpus_view(old(corpus)@), symbols_of(word@), 1),
        keys_distinct(corpus_view(final(corpus)@)),
        count_total(corpus_view(final(corpus)@)) == count_total(corpus_view(old(corpus)@)) + 1,
{
    let ghost c = corpus_view(corpus@);
    let ghost w = symbols_of(word@);
    let mut i: usize = 0;
    while i < corpus.len()
        invariant
            i <= corpus.len(),
            c == corpus_view(corpus@),
            c == corpus_view(old(corpus)@),
            w == symbols_of(word@),
            keys_distinct(c),
            count_total(c) + 1 <= u32::MAX,
            forall|j: int| 0 <= j < i ==> c[j].0 != w,
        decreases corpus.len() - i,
    {
        if same_symbols(&corpus[i].word, &word) {
            proof {
                lemma_key_index(c, w, i as int);
                lemma_count_le_total(c, i as int);
                lemma_add_count(c, w, 1);
            }
            let entry = WordCount { word, count: corpus[i].count + 1 };
            corpus.set(i, entry);
            assert(corpus_view(corpus@) =~= add_count(c, w, 1));
            return;
        }
        i += 1;
    }
    proof {
        lemma_add_count(c, w, 1);
    }
    corpus.push(WordCount { word, count: 1 });
    assert(corpus_view(corpus@) =~= add_count(c, w, 1));
}

/// Counts the characters of `w` and the marker into `table`, and returns the
/// symbols `w` enters the corpus with.
fn count_word(table: &mut Vec<Frequency>, w: &String) -> (r: Vec<String>)
    requires
        keys_distinct(table_view(old(table)@)),
        count_total(table_view(old(table)@)) + w@.len() + 1 <= u32::MAX,
    ensures
        table_view(final(table)@) == add_count(
            char_counts(table_view(old(table)@), w@),
            end_marker(),
            1,
        ),
        keys_distinct(table_view(final(table)@)),
        count_total(table_view(final(table)@)) == count_total(table_view(old(table)@)) + w@.len()
            + 1,
        symbols_of(r@) == initial_symbols(w@),
{
    let ghost t0 = table_view(table@);
    let s = w.as_str();
    let n = s.unicode_len();
    let mut r: Vec<String> = Vec::new();
    let mut k: usize = 0;
    while k < n
        invariant
            k <= n == w@.len(),
            s@ == w@,
            keys_distinct(table_view(table@)),
            table_view(table@) == char_counts(t0, w@.take(k as int)),
            count_total(table_view(table@)) == count_total(t0) + k,
            count_total(t0) + w@.len() + 1 <= u32::MAX,
            symbols_of(r@) == Seq::new(k as nat, |i: int| seq![w@[i]]),
        decreases n - k,
    {
        let c = char_string(s, k);
        let c2 = char_string(s, k);
        assert(w@.take(k + 1).drop_last() =~= w@.take(k as int));
        add_token(table, c, 1);
        let ghost old_r = r@;
        r.push(c2);
        assert(symbols_of(r@) =~= symbols_of(old_r).push(c2@));
        assert(symbols_of(r@) =~= Seq::new((k + 1) as nat, |i: int| seq![w@[i]]));
        k += 1;
    }
    assert(w@.take(n as int) =~= w@);
    add_token(table, end_marker_string(), 1);
    r.push(end_marker_string());
    assert(symbols_of(r@) =~= initial_symbols(w@));
    r
}

/// Builds the initial frequency table and the corpus of already lower-cased
/// `words`: each character and the end-of-word marker, with their counts in
/// order of first occurrence, and each distinct word as one-character
/// symbols closed by the marker, with its number of occurrences. `None` where
/// the symbols are too many to count in a `u32`.
pub fn build_vocab_corpus(words: Vec<String>) -> (r: Option<(Vec<Frequency>, Vec<WordCount>)>)
    ensures
        r is Some <==> symbol_total(symbols_of(words@)) <= u32::MAX,
        r matches Some((t, c)) ==> {
            &&& table_view(t@) == table_of(symbols_of(words@))
            &&& corpus_view(c@) == corpus_of(symbols_of(words@))
        },
{
    let ghost ws = symbols_of(words@);
    if !fits_counts(&words) {
        return None;
    }
    let mut table: Vec<Frequency> = Vec::new();
    let mut corpus: Vec<WordCount> = Vec::new();
    let mut k: usize = 0;
    while k < words.len()
        invariant
            k <= words.len(),
            ws == symbols_of(words@),
            symbol_total(ws) <= u32::MAX,
            keys_distinct(table_view(table@)),
            keys_distinct(corpus_view(corpus@)),
            table_view(table@) == table_of(ws.take(k as int)),
            corpus_view(corpus@) == corpus_of(ws.take(k as int)),
            count_total(table_view(table@)) == symbol_total(ws.take(k as int)),
            count_total(corpus_view(corpus@)) == k,
            k <= symbol_total(ws.take(k as int)),
        decreases words.len() - k,
    {
        assert(ws.take(k + 1).drop_last() =~= ws.take(k as int));
        proof {
            lemma_symbol_total_prefix(ws, k + 1);
        }
        let symbols = count_word(&mut table, &words[k]);
        add_word(&mut corpus, symbols);
        k += 1;
    }
    assert(ws.take(k as int) =~= ws);
    Some((table, corpus))
}

/// Builds the initial frequency table and the corpus of `token_lines`, after
/// lower-casing every word, or `None` where their symbols are too many to
/// count in a `u32`.
pub fn init_vocab_corpus(token_lines: Vec<Vec<String>>) -> (r: Option<(Vec<Frequency>, Vec<WordCount>)>)
    ensures
        r is Some <==> symbol_total(training_words(token_lines@)) <= u32::MAX,
        r matches Some((t, c)) ==> {
            &&& table_view(t@) == table_of(training_words(token_lines@))
            &&& corpus_view(c@) == corpus_of(training_words(token_lines@))
        },
{
    let words = lowered_words(&token_lines);
    build_vocab_corpus(words)
}

} // verus!
