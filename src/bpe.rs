//! The training loop: merges the most frequent pair again and again until the
//! frequency table reaches the target size or no pair is left, and emits the
//! table's tokens as the vocabulary.

use vstd::prelude::*;

use crate::corpus::{
    corpus_of, corpus_view, init_vocab_corpus, input_words, lemma_corpus_of_weight,
    symbol_total, symbols_of, table_of, table_view, training_words, Frequency, WordCount,
};
use crate::merge::{
    decrease, lemma_merge_word_len, lemma_merge_word_shorter, merge_bigrams, merge_corpus,
    merge_word, stays, update_frequency_table, update_table,
};
use crate::pairs::{
    best_pair, get_max_freq_bigram, is_best_position, is_position, lemma_pair_weight_le_corpus_weight,
    pair_at, pair_slots, pair_weight,
};

verus! {

/// The smallest vocabulary size training aims for.
pub const MIN_VOCAB_SIZE: u8 = 52;

/// The size training aims for: the requested one, raised to the minimum.
pub open spec fn target_size(n: u8) -> nat {
    if n < MIN_VOCAB_SIZE {
        MIN_VOCAB_SIZE as nat
    } else {
        n as nat
    }
}

/// The tokens of a frequency table, in order.
pub open spec fn tokens_of(t: Seq<(Seq<char>, nat)>) -> Seq<Seq<char>> {
    t.map_values(|e: (Seq<char>, nat)| e.0)
}

/// The number of symbols in the corpus, each distinct word counted once.
pub open spec fn corpus_len(c: Seq<(Seq<Seq<char>>, nat)>) -> nat
    decreases c.len(),
{
    if c.len() == 0 {
        0
    } else {
        corpus_len(c.drop_last()) + c.last().0.len()
    }
}

/// The table and corpus after merging the best pair, as long as the table
/// is smaller than `n` and a pair is left, for at most `steps` merges.
pub open spec fn train_from(
    t: Seq<(Seq<char>, nat)>,
    c: Seq<(Seq<Seq<char>>, nat)>,
    n: nat,
    steps: nat,
) -> (Seq<(Seq<char>, nat)>, Seq<(Seq<Seq<char>>, nat)>)
    decreases steps,
{
    if steps == 0 || t.len() >= n {
        (t, c)
    } else {
        match best_pair(c) {
            None => (t, c),
            Some((a, b, k)) => train_from(update_table(t, a, b, k), merge_corpus(c, a, b), n, (steps - 1) as nat),
        }
    }
}

/// The table and corpus that training on `words` with target `n` ends with.
/// Every merge shortens the corpus, so it never takes more merges than the
/// corpus has symbols.
pub open spec fn trained(words: Seq<Seq<char>>, n: u8) -> (Seq<(Seq<char>, nat)>, Seq<(Seq<Seq<char>>, nat)>) {
    train_from(table_of(words), corpus_of(words), target_size(n), corpus_len(corpus_of(words)))
}

/// The vocabulary trained from `lines` with target size `n`.
pub open spec fn bpe_vocabulary(lines: Seq<Vec<String>>, n: u8) -> Seq<Seq<char>> {
    tokens_of(trained(training_words(lines), n).0)
}

/// Merging never adds symbols or pair positions to the corpus.
proof fn lemma_merge_corpus_bounds(c: Seq<(Seq<Seq<char>>, nat)>, a: Seq<char>, b: Seq<char>)
    ensures
        corpus_len(merge_corpus(c, a, b)) <= corpus_len(c),
        pair_weight(merge_corpus(c, a, b)) <= pair_weight(c),
    decreases c.len(),
{
    if c.len() > 0 {
        let m = merge_corpus(c, a, b);
        assert(m.drop_last() =~= merge_corpus(c.drop_last(), a, b));
        lemma_merge_corpus_bounds(c.drop_last(), a, b);
        lemma_merge_word_len(c.last().0, a, b);
        let k = c.last().1;
        let l1 = pair_slots(merge_word(c.last().0, a, b).len());
        let l2 = pair_slots(c.last().0.len());
        assert(k * l1 <= k * l2) by (nonlinear_arith)
            requires
                l1 <= l2,
        ;
    }
}

/// Merging a pair that occurs in the corpus removes at least one symbol.
proof fn lemma_merge_corpus_shorter(c: Seq<(Seq<Seq<char>>, nat)>, a: Seq<char>, b: Seq<char>, i: int, j: int)
    requires
        is_position(c, i, j),
        pair_at(c[i].0, j) == (a, b),
    ensures
        corpus_len(merge_corpus(c, a, b)) < corpus_len(c),
    decreases c.len(),
{
    let m = merge_corpus(c, a, b);
    assert(m.drop_last() =~= merge_corpus(c.drop_last(), a, b));
    if i == c.len() - 1 {
        lemma_merge_word_shorter(c[i].0, a, b, j);
        lemma_merge_corpus_bounds(c.drop_last(), a, b);
    } else {
        lemma_merge_corpus_shorter(c.drop_last(), a, b, i, j);
        lemma_merge_word_len(c.last().0, a, b);
    }
}

/// The best pair, when there is one, occurs in the corpus.
proof fn lemma_best_pair_occurs(c: Seq<(Seq<Seq<char>>, nat)>)
    ensures
        best_pair(c) matches Some((a, b, k)) ==> exists|i: int, j: int|
            is_position(c, i, j) && #[trigger] pair_at(c[i].0, j) == (a, b),
{
    if exists|i: int, j: int| is_best_position(c, i, j) {
        let (i, j) = choose|i: int, j: int| is_best_position(c, i, j);
        assert(pair_at(c[i].0, j) == (c[i].0[j], c[i].0[j + 1]));
    }
}

/// The tokens of `table`, in order.
fn table_tokens(table: &Vec<Frequency>) -> (r: Vec<String>)
    ensures
        symbols_of(r@) == tokens_of(table_view(table@)),
{
    let mut r: Vec<String> = Vec::new();
    let mut i: usize = 0;
    while i < table.len()
        invariant
            i <= table.len(),
            symbols_of(r@) == tokens_of(table_view(table@)).take(i as int),
        decreases table.len() - i,
    {
        let ghost old_r = symbols_of(r@);
        r.push(table[i].token.clone());
        assert(symbols_of(r@) =~= old_r.push(table[i as int].token@));
        assert(symbols_of(r@) =~= tokens_of(table_view(table@)).take(i + 1));
        i += 1;
    }
    assert(tokens_of(table_view(table@)).take(i as int) =~= tokens_of(table_view(table@)));
    r
}

/// Runs the merge loop from a frequency table and a corpus until the table
/// holds `target_size(n)` tokens or no pair is left, and returns the tokens
/// of the final table.
pub fn train_vocabulary(frequency_table: Vec<Frequency>, corpus: Vec<WordCount>, n: u8) -> (r: Vec<String>)
    requires
        pair_weight(corpus_view(corpus@)) <= u32::MAX,
    ensures
        symbols_of(r@) == tokens_of(
            train_from(
                table_view(frequency_table@),
                corpus_view(corpus@),
                target_size(n),
                corpus_len(corpus_view(corpus@)),
            ).0,
        ),
{
    let ghost goal = train_from(
        table_view(frequency_table@),
        corpus_view(corpus@),
        target_size(n),
        corpus_len(corpus_view(corpus@)),
    );
    let target: usize = if n < MIN_VOCAB_SIZE {
        MIN_VOCAB_SIZE as usize
    } else {
        n as usize
    };
    let mut table = frequency_table;
    let mut corpus = corpus;
    let ghost mut steps: nat = corpus_len(corpus_view(corpus@));
    let mut done = false;
    while !done && table.len() < target
        invariant
            target == target_size(n),
            pair_weight(corpus_view(corpus@)) <= u32::MAX,
            corpus_len(corpus_view(corpus@)) <= steps,
            train_from(table_view(table@), corpus_view(corpus@), target_size(n), steps) == goal,
            done ==> best_pair(corpus_view(corpus@)) is None,
        decreases corpus_len(corpus_view(corpus@)) + if done {
            0int
        } else {
            1int
        },
    {
        match get_max_freq_bigram(&corpus) {
            None => {
                done = true;
            },
            Some((a, b, k)) => {
                let ghost c = corpus_view(corpus@);
                proof {
                    lemma_best_pair_occurs(c);
                    let (i, j) = choose|i: int, j: int|
                        is_position(c, i, j) && #[trigger] pair_at(c[i].0, j) == (a@, b@);
                    lemma_merge_corpus_shorter(c, a@, b@, i, j);
                    lemma_merge_corpus_bounds(c, a@, b@);
                }
                table = update_frequency_table(table, &a, &b, k);
                corpus = merge_bigrams(corpus, &a, &b);
                proof {
                    steps = (steps - 1) as nat;
                }
            },
        }
    }
    table_tokens(&table)
}

/// Builds a vocabulary of `target_size(n)` tokens from tokenized lines by byte
/// pair encoding: lower-cased words are split into characters closed by the
/// end-of-word marker, and the most frequent pair of adjacent symbols is
/// merged until the target is reached or no pair is left. `None` when the
/// input holds too many symbols to count in a `u32`.
pub fn bpe_training(token_lines: Vec<Vec<String>>, n: u8) -> (r: Option<Vec<String>>)
    ensures
        r is Some <==> symbol_total(training_words(token_lines@)) <= u32::MAX,
        r matches Some(v) ==> symbols_of(v@) == bpe_vocabulary(token_lines@, n),
{
    let ghost words = training_words(token_lines@);
    match init_vocab_corpus(token_lines) {
        None => None,
        Some((table, corpus)) => {
            proof {
                lemma_corpus_of_weight(words);
                lemma_pair_weight_le_corpus_weight(corpus_of(words));
            }
            Some(train_vocabulary(table, corpus, n))
        },
    }
}

proof fn lemma_update_table_len(t: Seq<(Seq<char>, nat)>, a: Seq<char>, b: Seq<char>, n: nat)
    ensures
        update_table(t, a, b, n).len() <= t.len() + 1,
{
    let d = t.map_values(|e: (Seq<char>, nat)| decrease(e, a, b, n));
    d.lemma_filter_len(stays(a, b));
}

proof fn lemma_word_len_le_corpus_len(c: Seq<(Seq<Seq<char>>, nat)>, i: int)
    requires
        0 <= i < c.len(),
    ensures
        c[i].0.len() <= corpus_len(c),
    decreases c.len(),
{
    if i < c.len() - 1 {
        lemma_word_len_le_corpus_len(c.drop_last(), i);
    }
}

/// An empty corpus has no pair to merge.
proof fn lemma_no_pair_in_empty(c: Seq<(Seq<Seq<char>>, nat)>)
    requires
        corpus_len(c) == 0,
    ensures
        best_pair(c) is None,
{
    assert forall|i: int, j: int| !is_best_position(c, i, j) by {
        if 0 <= i < c.len() {
            lemma_word_len_le_corpus_len(c, i);
        }
    }
}

proof fn lemma_train_from_size(t: Seq<(Seq<char>, nat)>, c: Seq<(Seq<Seq<char>>, nat)>, n: nat, steps: nat)
    requires
        t.len() <= n,
    ensures
        train_from(t, c, n, steps).0.len() <= n,
    decreases steps,
{
    if steps > 0 && t.len() < n {
        if let Some((a, b, k)) = best_pair(c) {
            lemma_update_table_len(t, a, b, k);
            lemma_train_from_size(update_table(t, a, b, k), merge_corpus(c, a, b), n, (steps - 1) as nat);
        }
    }
}

proof fn lemma_train_from_ends(t: Seq<(Seq<char>, nat)>, c: Seq<(Seq<Seq<char>>, nat)>, n: nat, steps: nat)
    requires
        corpus_len(c) <= steps,
    ensures
        train_from(t, c, n, steps).0.len() >= n || best_pair(train_from(t, c, n, steps).1) is None,
    decreases steps,
{
    if steps == 0 {
        lemma_no_pair_in_empty(c);
    } else if t.len() < n {
        if let Some((a, b, k)) = best_pair(c) {
            lemma_best_pair_occurs(c);
            let (i, j) = choose|i: int, j: int| is_position(c, i, j) && #[trigger] pair_at(c[i].0, j) == (a, b);
            lemma_merge_corpus_shorter(c, a, b, i, j);
            lemma_train_from_ends(update_table(t, a, b, k), merge_corpus(c, a, b), n, (steps - 1) as nat);
        }
    }
}

/// Vocabulary size bound: training yields at most `max(n, 52)` tokens
/// whenever the initial character set (with the end-of-word marker) is no
/// larger than that; otherwise no merge happens and the character set is the
/// vocabulary.
pub proof fn lemma_vocabulary_size_bound(lines: Seq<Vec<String>>, n: u8)
    requires
        table_of(training_words(lines)).len() <= target_size(n),
    ensures
        bpe_vocabulary(lines, n).len() <= target_size(n),
{
    let words = training_words(lines);
    lemma_train_from_size(table_of(words), corpus_of(words), target_size(n), corpus_len(corpus_of(words)));
}

/// Training ends with fewer tokens than the initial character set (with the
/// end-of-word marker) only when it has run out of pairs to merge.
pub proof fn lemma_vocabulary_shrinks_only_when_exhausted(lines: Seq<Vec<String>>, n: u8)
    ensures
        bpe_vocabulary(lines, n).len() >= table_of(training_words(lines)).len() || best_pair(
            trained(training_words(lines), n).1,
        ) is None,
{
    let words = training_words(lines);
    let t = table_of(words);
    let c = corpus_of(words);
    if t.len() < target_size(n) {
        lemma_train_from_ends(t, c, target_size(n), corpus_len(c));
    }
}

/// Idempotence: when the initial character set already reaches the target
/// size, training merges nothing and the vocabulary is that character set.
pub proof fn lemma_training_idempotent(lines: Seq<Vec<String>>, n: u8)
    requires
        table_of(training_words(lines)).len() >= target_size(n),
    ensures
        bpe_vocabulary(lines, n) == tokens_of(table_of(training_words(lines))),
        trained(training_words(lines), n).1 == corpus_of(training_words(lines)),
{
}

/// Determinism: inputs holding the same words, trained to the same target,
/// give the same vocabulary in the same order.
pub proof fn lemma_training_deterministic(lines1: Seq<Vec<String>>, lines2: Seq<Vec<String>>, n: u8)
    requires
        input_words(lines1) == input_words(lines2),
    ensures
        bpe_vocabulary(lines1, n) == bpe_vocabulary(lines2, n),
{
}

} // verus!
