//! The merge applier: rewrites the winning pair into one symbol throughout the
//! corpus, and updates the frequency table for the merge.
//!
//! Within a word the scan goes left to right once; after a merge it resumes
//! one symbol past the new one, so the symbol right after a merged pair never
//! starts a pair in the same pass: `a b a b` with the pair `(a, b)` becomes
//! `ab a b`.

use vstd::prelude::*;

use crate::corpus::{corpus_view, symbols_of, table_view, Frequency, WordCount};
use crate::counts::{count_total, has_key, keys_distinct, lemma_count_total_push};
use crate::strings::concat;

verus! {

broadcast use vstd::seq_lib::group_filter_ensures;

/// `w` after one left-to-right pass merging the pair `(a, b)`: after a merge
/// the next symbol is passed over unchanged.
pub open spec fn merge_word(w: Seq<Seq<char>>, a: Seq<char>, b: Seq<char>) -> Seq<Seq<char>>
    decreases w.len(),
{
    if w.len() < 2 {
        w
    } else if w[0] == a && w[1] == b {
        if w.len() >= 3 {
            seq![a + b, w[2]] + merge_word(w.skip(3), a, b)
        } else {
            seq![a + b]
        }
    } else {
        seq![w[0]] + merge_word(w.skip(1), a, b)
    }
}

/// The corpus after merging `(a, b)` in every word; counts are unchanged.
pub open spec fn merge_corpus(c: Seq<(Seq<Seq<char>>, nat)>, a: Seq<char>, b: Seq<char>) -> Seq<
    (Seq<Seq<char>>, nat),
> {
    c.map_values(|e: (Seq<Seq<char>>, nat)| (merge_word(e.0, a, b), e.1))
}

/// A table entry after the merge of `(a, b)` with count `n`: a constituent
/// token loses `n`, down to zero at least.
pub open spec fn decrease(e: (Seq<char>, nat), a: Seq<char>, b: Seq<char>, n: nat) -> (Seq<char>, nat) {
    if e.0 == a || e.0 == b {
        (e.0, if e.1 > n { (e.1 - n) as nat } else { 0 })
    } else {
        e
    }
}

/// Which entries stay in the table after the merge of `(a, b)`: all but a
/// constituent the merge brought to zero, and an earlier entry for the merged
/// token itself, which the new one replaces.
pub open spec fn stays(a: Seq<char>, b: Seq<char>) -> spec_fn((Seq<char>, nat)) -> bool {
    |e: (Seq<char>, nat)| e.0 != a + b && (e.1 > 0 || (e.0 != a && e.0 != b))
}

/// The frequency table after merging `(a, b)` with count `n`: the
/// constituents lose `n`, a constituent at zero is removed, and the merged
/// token ends the table with count `n`; every other entry keeps its place.
pub open spec fn update_table(t: Seq<(Seq<char>, nat)>, a: Seq<char>, b: Seq<char>, n: nat) -> Seq<
    (Seq<char>, nat),
> {
    t.map_values(|e: (Seq<char>, nat)| decrease(e, a, b, n)).filter(stays(a, b)).push((a + b, n))
}

/// Merging never lengthens a word.
pub proof fn lemma_merge_word_len(w: Seq<Seq<char>>, a: Seq<char>, b: Seq<char>)
    ensures
        merge_word(w, a, b).len() <= w.len(),
    decreases w.len(),
{
    if w.len() >= 2 {
        if w[0] == a && w[1] == b {
            if w.len() >= 3 {
                lemma_merge_word_len(w.skip(3), a, b);
            }
        } else {
            lemma_merge_word_len(w.skip(1), a, b);
        }
    }
}

/// Merging shortens a word that holds the pair.
pub proof fn lemma_merge_word_shorter(w: Seq<Seq<char>>, a: Seq<char>, b: Seq<char>, j: int)
    requires
        0 <= j,
        j + 1 < w.len(),
        w[j] == a,
        w[j + 1] == b,
    ensures
        merge_word(w, a, b).len() < w.len(),
    decreases w.len(),
{
    if w[0] == a && w[1] == b {
        if w.len() >= 3 {
            lemma_merge_word_len(w.skip(3), a, b);
        }
    } else {
        assert(j > 0);
        lemma_merge_word_shorter(w.skip(1), a, b, j - 1);
    }
}

/// The symbols of `word` after merging `(a, b)` into `m`.
fn merge_symbols(word: &Vec<String>, a: &String, b: &String, m: &String) -> (r: Vec<String>)
    requires
        m@ == a@ + b@,
    ensures
        symbols_of(r@) == merge_word(symbols_of(word@), a@, b@),
{
    let ghost w = symbols_of(word@);
    let mut r: Vec<String> = Vec::new();
    let mut k: usize = 0;
    assert(w.skip(0) =~= w);
    assert(symbols_of(r@) =~= Seq::<Seq<char>>::empty());
    while k < word.len()
        invariant
            k <= word.len(),
            w == symbols_of(word@),
            m@ == a@ + b@,
            symbols_of(r@) + merge_word(w.skip(k as int), a@, b@) == merge_word(w, a@, b@),
        decreases word.len() - k,
    {
        let ghost rest = w.skip(k as int);
        let ghost old_r = symbols_of(r@);
        if k + 1 < word.len() && word[k] == *a && word[k + 1] == *b {
            assert(rest[0] == a@ && rest[1] == b@);
            r.push(m.clone());
            if k + 2 < word.len() {
                r.push(word[k + 2].clone());
                assert(rest.skip(3) =~= w.skip(k + 3));
                assert(symbols_of(r@) =~= old_r + seq![a@ + b@, rest[2]]);
                k += 3;
            } else {
                assert(symbols_of(r@) =~= old_r + seq![a@ + b@]);
                assert(w.skip(k + 2).len() == 0);
                k += 2;
            }
        } else {
            r.push(word[k].clone());
            assert(symbols_of(r@) =~= old_r + seq![rest[0]]);
            proof {
                if rest.len() >= 2 {
                    assert(rest.skip(1) =~= w.skip(k + 1));
                } else {
                    assert(w.skip(k + 1).len() == 0);
                }
            }
            k += 1;
        }
    }
    assert(w.skip(k as int).len() == 0);
    assert(symbols_of(r@) =~= merge_word(w, a@, b@));
    r
}

/// Merges every occurrence of the pair `(a, b)` in the corpus into one symbol.
pub fn merge_bigrams(corpus: Vec<WordCount>, a: &String, b: &String) -> (r: Vec<WordCount>)
    ensures
        corpus_view(r@) == merge_corpus(corpus_view(corpus@), a@, b@),
{
    let m = concat(a, b);
    let mut r: Vec<WordCount> = Vec::new();
    let mut i: usize = 0;
    while i < corpus.len()
        invariant
            i <= corpus.len(),
            m@ == a@ + b@,
            corpus_view(r@) == merge_corpus(corpus_view(corpus@), a@, b@).take(i as int),
        decreases corpus.len() - i,
    {
        let word = merge_symbols(&corpus[i].word, a, b, &m);
        let ghost old_r = corpus_view(r@);
        r.push(WordCount { word, count: corpus[i].count });
        assert(corpus_view(r@) =~= old_r.push((symbols_of(word@), corpus[i as int].count as nat)));
        assert(corpus_view(r@) =~= merge_corpus(corpus_view(corpus@), a@, b@).take(i + 1));
        i += 1;
    }
    assert(merge_corpus(corpus_view(corpus@), a@, b@).take(i as int) =~= merge_corpus(
        corpus_view(corpus@),
        a@,
        b@,
    ));
    r
}

/// Updates the frequency table for the merge of `(a, b)` with aggregate
/// count `count`: each constituent token loses `count` and goes when it
/// reaches zero, and the merged token is added last with frequency `count`.
pub fn update_frequency_table(frequency_table: Vec<Frequency>, a: &String, b: &String, count: u32) -> (r: Vec<Frequency>)
    ensures
        table_view(r@) == update_table(table_view(frequency_table@), a@, b@, count as nat),
{
    let ghost t = table_view(frequency_table@);
    let ghost dec = t.map_values(|e: (Seq<char>, nat)| decrease(e, a@, b@, count as nat));
    let m = concat(a, b);
    let mut r: Vec<Frequency> = Vec::new();
    let mut k: usize = 0;
    while k < frequency_table.len()
        invariant
            k <= frequency_table.len(),
            t == table_view(frequency_table@),
            dec == t.map_values(|e: (Seq<char>, nat)| decrease(e, a@, b@, count as nat)),
            m@ == a@ + b@,
            table_view(r@) == dec.take(k as int).filter(stays(a@, b@)),
        decreases frequency_table.len() - k,
    {
        let entry = &frequency_table[k];
        let constituent = entry.token == *a || entry.token == *b;
        let freq = if constituent {
            if entry.freq > count {
                entry.freq - count
            } else {
                0
            }
        } else {
            entry.freq
        };
        assert(dec[k as int] == (entry.token@, freq as nat));
        assert(dec.take(k + 1) =~= dec.take(k as int).push(dec[k as int]));
        proof {
            dec.take(k as int).lemma_filter_push(dec[k as int], stays(a@, b@));
        }
        if entry.token != m && (freq > 0 || !constituent) {
            r.push(Frequency { token: entry.token.clone(), freq });
            assert(table_view(r@) =~= dec.take(k as int).filter(stays(a@, b@)).push(dec[k as int]));
        }
        k += 1;
    }
    assert(dec.take(k as int) =~= dec);
    let ghost kept = table_view(r@);
    r.push(Frequency { token: m, freq: count });
    assert(table_view(r@) =~= kept.push((a@ + b@, count as nat)));
    r
}

/// What a merge of `(a, b)` with count `n` takes from table `t`, entry by
/// entry: `n` from every entry whose token is a constituent of the pair.
spec fn entry_removed(t: Seq<(Seq<char>, nat)>, a: Seq<char>, b: Seq<char>, n: nat) -> nat
    decreases t.len(),
{
    if t.len() == 0 {
        0
    } else {
        entry_removed(t.drop_last(), a, b, n) + if t.last().0 == a || t.last().0 == b {
            n
        } else {
            0
        }
    }
}

/// How many distinct constituents of the pair `(a, b)` are tokens of `t`.
pub open spec fn constituents_present(t: Seq<(Seq<char>, nat)>, a: Seq<char>, b: Seq<char>) -> nat {
    (if has_key(t, a) {
        1nat
    } else {
        0
    }) + if a != b && has_key(t, b) {
        1nat
    } else {
        0
    }
}

proof fn lemma_has_key_last(t: Seq<(Seq<char>, nat)>, x: Seq<char>)
    requires
        t.len() > 0,
    ensures
        has_key(t, x) == (has_key(t.drop_last(), x) || t.last().0 == x),
{
    let s = t.drop_last();
    assert(t[t.len() - 1] == t.last());
    if has_key(s, x) {
        let i = choose|i: int| #![trigger s[i]] 0 <= i < s.len() && s[i].0 == x;
        assert(t[i] == s[i]);
    }
    if has_key(t, x) && t.last().0 != x {
        let i = choose|i: int| #![trigger t[i]] 0 <= i < t.len() && t[i].0 == x;
        assert(s[i] == t[i]);
    }
}

proof fn lemma_entry_removed(t: Seq<(Seq<char>, nat)>, a: Seq<char>, b: Seq<char>, n: nat)
    requires
        keys_distinct(t),
    ensures
        entry_removed(t, a, b, n) == n * constituents_present(t, a, b),
    decreases t.len(),
{
    if t.len() > 0 {
        let s = t.drop_last();
        let e = t.last();
        assert(t[t.len() - 1] == e);
        assert(keys_distinct(s)) by {
            assert forall|i: int, j: int| #![trigger s[i], s[j]] 0 <= i < j < s.len() implies s[i].0 != s[j].0 by {
                assert(t[i] == s[i] && t[j] == s[j]);
            }
        }
        lemma_entry_removed(s, a, b, n);
        lemma_has_key_last(t, a);
        lemma_has_key_last(t, b);
        if has_key(s, e.0) {
            let i = choose|i: int| #![trigger s[i]] 0 <= i < s.len() && s[i].0 == e.0;
            assert(t[i] == s[i]);
            assert(t[i].0 != t[t.len() - 1].0);
        }
        let k = constituents_present(s, a, b);
        if e.0 == a || e.0 == b {
            assert(entry_removed(t, a, b, n) == entry_removed(s, a, b, n) + n);
            assert(constituents_present(t, a, b) == k + 1);
            assert(n * (k + 1) == n * k + n) by (nonlinear_arith);
        } else {
            assert(entry_removed(t, a, b, n) == entry_removed(s, a, b, n));
            assert(constituents_present(t, a, b) == k);
        }
    } else {
        assert(!has_key(t, a) && !has_key(t, b));
        assert(n * 0 == 0) by (nonlinear_arith);
    }
}

proof fn lemma_kept_total(t: Seq<(Seq<char>, nat)>, a: Seq<char>, b: Seq<char>, n: nat)
    requires
        !has_key(t, a + b),
        forall|i: int| 0 <= i < t.len() && (t[i].0 == a || t[i].0 == b) ==> #[trigger] t[i].1 >= n,
    ensures
        count_total(t.map_values(|e: (Seq<char>, nat)| decrease(e, a, b, n)).filter(stays(a, b)))
            + entry_removed(t, a, b, n) == count_total(t),
    decreases t.len(),
{
    if t.len() > 0 {
        let s = t.drop_last();
        let e = t.last();
        assert(t[t.len() - 1] == e);
        assert(!has_key(s, a + b)) by {
            if has_key(s, a + b) {
                let i = choose|i: int| #![trigger s[i]] 0 <= i < s.len() && s[i].0 == a + b;
                assert(t[i] == s[i]);
            }
        }
        assert forall|i: int| 0 <= i < s.len() && (s[i].0 == a || s[i].0 == b) implies #[trigger] s[i].1 >= n by {
            assert(t[i] == s[i]);
        }
        lemma_kept_total(s, a, b, n);
        let f = |e: (Seq<char>, nat)| decrease(e, a, b, n);
        let d = decrease(e, a, b, n);
        assert(t.map_values(f) =~= s.map_values(f).push(d));
        s.map_values(f).lemma_filter_push(d, stays(a, b));
        assert(e.0 != a + b) by {
            if e.0 == a + b {
                assert(t[t.len() - 1].0 == a + b);
            }
        }
        lemma_count_total_push(s.map_values(f).filter(stays(a, b)), d);
    }
}

/// Merge conservation. In a table of distinct tokens where the merged token
/// is new and every constituent holds at least the pair's count `n`, the
/// tokens other than the merged one end with the table's former total less
/// `n` for each distinct constituent present, and the merged token holds
/// `n`: where the pair has one constituent in the table (`a == b`, or only
/// one of them is there), the merged token holds exactly what was removed.
pub proof fn lemma_merge_conserves_frequency(t: Seq<(Seq<char>, nat)>, a: Seq<char>, b: Seq<char>, n: nat)
    requires
        keys_distinct(t),
        !has_key(t, a + b),
        forall|i: int| 0 <= i < t.len() && (t[i].0 == a || t[i].0 == b) ==> #[trigger] t[i].1 >= n,
    ensures
        count_total(update_table(t, a, b, n).drop_last()) + n * constituents_present(t, a, b)
            == count_total(t),
        update_table(t, a, b, n).last() == (a + b, n),
        constituents_present(t, a, b) == 1 ==> count_total(update_table(t, a, b, n).drop_last())
            + update_table(t, a, b, n).last().1 == count_total(t),
{
    lemma_kept_total(t, a, b, n);
    lemma_entry_removed(t, a, b, n);
    let kept = t.map_values(|e: (Seq<char>, nat)| decrease(e, a, b, n)).filter(stays(a, b));
    assert(update_table(t, a, b, n).drop_last() =~= kept);
}

} // verus!
