//! The pair statistics engine: counts every pair of adjacent symbols over the
//! whole corpus, each occurrence weighted by its word's count, and picks the
//! most frequent pair. Among equally frequent pairs the one that occurs first
//! in corpus order (word after word, left to right within a word) wins.

use vstd::prelude::*;

use crate::corpus::{corpus_view, corpus_weight, WordCount};
use crate::counts::{has_key, keys_distinct};

verus! {

/// The pair of symbols at positions `j` and `j + 1` of `w`.
pub open spec fn pair_at(w: Seq<Seq<char>>, j: int) -> (Seq<char>, Seq<char>) {
    (w[j], w[j + 1])
}

/// Whether a pair starts at position `j` of word `i` of `c`.
pub open spec fn is_position(c: Seq<(Seq<Seq<char>>, nat)>, i: int, j: int) -> bool {
    0 <= i < c.len() && 0 <= j && j + 1 < c[i].0.len()
}

/// Whether position `(i1, j1)` comes before `(i2, j2)` in corpus order.
pub open spec fn before(i1: int, j1: int, i2: int, j2: int) -> bool {
    i1 < i2 || (i1 == i2 && j1 < j2)
}

/// The count of `p` among the pairs starting before position `k` of a word
/// `w` that occurred `n` times.
pub open spec fn word_pair_count(
    w: Seq<Seq<char>>,
    n: nat,
    p: (Seq<char>, Seq<char>),
    k: int,
) -> nat
    decreases k,
{
    if k <= 0 {
        0
    } else {
        word_pair_count(w, n, p, k - 1) + if pair_at(w, k - 1) == p {
            n
        } else {
            0
        }
    }
}

/// The count of `p` over the first `i` words of `c`.
pub open spec fn pair_count_upto(c: Seq<(Seq<Seq<char>>, nat)>, p: (Seq<char>, Seq<char>), i: int) -> nat
    decreases i,
{
    if i <= 0 {
        0
    } else {
        pair_count_upto(c, p, i - 1) + word_pair_count(c[i - 1].0, c[i - 1].1, p, c[i - 1].0.len() - 1)
    }
}

/// The aggregate count of `p` over the whole corpus.
pub open spec fn pair_count(c: Seq<(Seq<Seq<char>>, nat)>, p: (Seq<char>, Seq<char>)) -> nat {
    pair_count_upto(c, p, c.len() as int)
}

/// The count of the pair at position `(i, j)`.
pub open spec fn count_at(c: Seq<(Seq<Seq<char>>, nat)>, i: int, j: int) -> nat {
    pair_count(c, pair_at(c[i].0, j))
}

/// Whether the pair at `(i, j)` wins: it has a positive count, no pair has a
/// greater one, and every pair occurring earlier has a smaller one.
pub open spec fn is_best_position(c: Seq<(Seq<Seq<char>>, nat)>, i: int, j: int) -> bool {
    &&& is_position(c, i, j)
    &&& count_at(c, i, j) > 0
    &&& forall|i2: int, j2: int| #[trigger]
        is_position(c, i2, j2) ==> count_at(c, i2, j2) <= count_at(c, i, j)
    &&& forall|i2: int, j2: int|
        is_position(c, i2, j2) && #[trigger] before(i2, j2, i, j) ==> count_at(c, i2, j2)
            < count_at(c, i, j)
}

/// The pair to merge next, with its aggregate count; `None` when no pair has
/// a positive count.
pub open spec fn best_pair(c: Seq<(Seq<Seq<char>>, nat)>) -> Option<(Seq<char>, Seq<char>, nat)> {
    if exists|i: int, j: int| is_best_position(c, i, j) {
        let (i, j) = choose|i: int, j: int| is_best_position(c, i, j);
        Some((c[i].0[j], c[i].0[j + 1], count_at(c, i, j)))
    } else {
        None
    }
}

/// There is at most one winning position.
proof fn lemma_best_position_unique(c: Seq<(Seq<Seq<char>>, nat)>, i: int, j: int, i2: int, j2: int)
    requires
        is_best_position(c, i, j),
        is_best_position(c, i2, j2),
    ensures
        i == i2 && j == j2,
{
    if before(i, j, i2, j2) {
        assert(count_at(c, i, j) < count_at(c, i2, j2));
        assert(is_position(c, i2, j2));
    } else if before(i2, j2, i, j) {
        assert(count_at(c, i2, j2) < count_at(c, i, j));
        assert(is_position(c, i, j));
    }
}

/// The number of positions where a pair starts in a word of `len` symbols.
pub open spec fn pair_slots(len: nat) -> nat {
    if len > 0 {
        (len - 1) as nat
    } else {
        0
    }
}

/// The number of pair positions in a corpus, each word counted as often as
/// it occurred: no pair count can exceed it.
pub open spec fn pair_weight(c: Seq<(Seq<Seq<char>>, nat)>) -> nat
    decreases c.len(),
{
    if c.len() == 0 {
        0
    } else {
        pair_weight(c.drop_last()) + c.last().1 * pair_slots(c.last().0.len())
    }
}

/// A corpus has fewer pair positions than symbols.
pub proof fn lemma_pair_weight_le_corpus_weight(c: Seq<(Seq<Seq<char>>, nat)>)
    ensures
        pair_weight(c) <= corpus_weight(c),
    decreases c.len(),
{
    if c.len() > 0 {
        lemma_pair_weight_le_corpus_weight(c.drop_last());
        let k = c.last().1;
        let s = pair_slots(c.last().0.len());
        let l = c.last().0.len();
        assert(k * s <= k * l) by (nonlinear_arith)
            requires
                s <= l,
        ;
    }
}

/// A count within a word is at most the word's count per position.
proof fn lemma_word_pair_count_bound(w: Seq<Seq<char>>, n: nat, p: (Seq<char>, Seq<char>), k: int)
    requires
        k >= 0,
    ensures
        word_pair_count(w, n, p, k) <= n * k,
    decreases k,
{
    if k > 0 {
        lemma_word_pair_count_bound(w, n, p, k - 1);
        assert(n * (k - 1) + n == n * k) by (nonlinear_arith);
    }
}

/// A count over the first `i` words is at most their pair positions.
proof fn lemma_pair_count_upto_bound(c: Seq<(Seq<Seq<char>>, nat)>, p: (Seq<char>, Seq<char>), i: int)
    requires
        0 <= i <= c.len(),
    ensures
        pair_count_upto(c, p, i) <= pair_weight(c.take(i)),
    decreases i,
{
    if i > 0 {
        lemma_pair_count_upto_bound(c, p, i - 1);
        assert(c.take(i).drop_last() =~= c.take(i - 1));
        let w = c[i - 1].0;
        let n = c[i - 1].1;
        if w.len() >= 1 {
            lemma_word_pair_count_bound(w, n, p, w.len() - 1);
        }
    }
}

/// A prefix of the corpus has at most the pair positions of the whole.
proof fn lemma_pair_weight_prefix(c: Seq<(Seq<Seq<char>>, nat)>, i: int)
    requires
        0 <= i <= c.len(),
    ensures
        pair_weight(c.take(i)) <= pair_weight(c),
    decreases c.len(),
{
    if i < c.len() {
        assert(c.drop_last().take(i) =~= c.take(i));
        lemma_pair_weight_prefix(c.drop_last(), i);
    } else {
        assert(c.take(i) =~= c);
    }
}

/// A pair with a positive count over the first `i` words occurs in one of them.
proof fn lemma_positive_count_occurs(c: Seq<(Seq<Seq<char>>, nat)>, p: (Seq<char>, Seq<char>), i: int)
    requires
        0 <= i <= c.len(),
        pair_count_upto(c, p, i) > 0,
    ensures
        exists|i2: int, j2: int| #[trigger] is_position(c, i2, j2) && i2 < i && pair_at(c[i2].0, j2) == p,
    decreases i,
{
    if pair_count_upto(c, p, i - 1) > 0 {
        lemma_positive_count_occurs(c, p, i - 1);
    } else {
        let w = c[i - 1].0;
        let n = c[i - 1].1;
        let j = lemma_word_count_occurs(w, n, p, w.len() - 1);
        assert(is_position(c, i - 1, j));
    }
}

proof fn lemma_word_count_occurs(w: Seq<Seq<char>>, n: nat, p: (Seq<char>, Seq<char>), k: int) -> (j: int)
    requires
        word_pair_count(w, n, p, k) > 0,
        k <= w.len() - 1,
    ensures
        0 <= j < k,
        pair_at(w, j) == p,
    decreases k,
{
    if pair_at(w, k - 1) == p {
        k - 1
    } else {
        lemma_word_count_occurs(w, n, p, k - 1)
    }
}

/// Running tally of one pair.
struct PairTally {
    first: String,
    second: String,
    count: u32,
}

spec fn tally_view(t: Seq<PairTally>) -> Seq<((Seq<char>, Seq<char>), nat)> {
    t.map_values(|e: PairTally| ((e.first@, e.second@), e.count as nat))
}

/// The position of the tally of pair `(a, b)`, if it has one.
fn find_pair(stats: &Vec<PairTally>, a: &String, b: &String) -> (r: Option<usize>)
    requires
        keys_distinct(tally_view(stats@)),
    ensures
        r matches Some(k) ==> k < stats.len() && tally_view(stats@)[k as int].0 == (a@, b@),
        r is None ==> !has_key(tally_view(stats@), (a@, b@)),
{
    let mut k: usize = 0;
    while k < stats.len()
        invariant
            k <= stats.len(),
            forall|m: int| 0 <= m < k ==> tally_view(stats@)[m].0 != (a@, b@),
        decreases stats.len() - k,
    {
        if stats[k].first == *a && stats[k].second == *b {
            return Some(k);
        }
        k += 1;
    }
    None
}

/// The tally of every pair of the corpus.
fn tally_pairs(corpus: &Vec<WordCount>) -> (stats: Vec<PairTally>)
    requires
        pair_weight(corpus_view(corpus@)) <= u32::MAX,
    ensures
        keys_distinct(tally_view(stats@)),
        forall|k: int|
            0 <= k < stats.len() ==> #[trigger] tally_view(stats@)[k].1 == pair_count(
                corpus_view(corpus@),
                tally_view(stats@)[k].0,
            ),
        forall|p: (Seq<char>, Seq<char>)|
            !has_key(tally_view(stats@), p) ==> #[trigger] pair_count(corpus_view(corpus@), p) == 0,
{
    let ghost c = corpus_view(corpus@);
    let mut stats: Vec<PairTally> = Vec::new();
    let mut i: usize = 0;
    while i < corpus.len()
        invariant
            i <= corpus.len(),
            c == corpus_view(corpus@),
            pair_weight(c) <= u32::MAX,
            keys_distinct(tally_view(stats@)),
            forall|k: int|
                0 <= k < stats.len() ==> #[trigger] tally_view(stats@)[k].1 == pair_count_upto(
                    c,
                    tally_view(stats@)[k].0,
                    i as int,
                ),
            forall|p: (Seq<char>, Seq<char>)| #![trigger has_key(tally_view(stats@), p)]
                !has_key(tally_view(stats@), p) ==> pair_count_upto(c, p, i as int) == 0,
        decreases corpus.len() - i,
    {
        let n = corpus[i].count;
        let word = &corpus[i].word;
        let ghost w = c[i as int].0;
        assert(w == c[i as int].0);
        proof {
            lemma_pair_weight_prefix(c, i + 1);
            assert(c.take(i + 1).drop_last() =~= c.take(i as int));
        }
        let mut j: usize = 0;
        while j + 1 < word.len()
            invariant
                i < corpus.len(),
                c == corpus_view(corpus@),
                word == corpus@[i as int].word,
                w == c[i as int].0,
                n == c[i as int].1,
                w.len() == word.len(),
                j == 0 || j < word.len(),
                pair_weight(c.take(i as int)) + n * pair_slots(w.len()) <= u32::MAX,
                keys_distinct(tally_view(stats@)),
                forall|k: int|
                    0 <= k < stats.len() ==> #[trigger] tally_view(stats@)[k].1 == pair_count_upto(
                        c,
                        tally_view(stats@)[k].0,
                        i as int,
                    ) + word_pair_count(w, n as nat, tally_view(stats@)[k].0, j as int),
                forall|p: (Seq<char>, Seq<char>)| #![trigger has_key(tally_view(stats@), p)]
                    !has_key(tally_view(stats@), p) ==> pair_count_upto(c, p, i as int)
                        + word_pair_count(w, n as nat, p, j as int) == 0,
            decreases word.len() - j,
        {
            let ghost pj = pair_at(w, j as int);
            let ghost old_stats = tally_view(stats@);
            assert(pj == (word@[j as int]@, word@[j + 1]@));
            proof {
                lemma_pair_count_upto_bound(c, pj, i as int);
                lemma_word_pair_count_bound(w, n as nat, pj, j + 1);
                let slots = pair_slots(w.len());
                assert(j + 1 <= slots);
                assert(n * (j + 1) <= n * slots) by (nonlinear_arith)
                    requires
                        j + 1 <= slots,
                ;
            }
            match find_pair(&stats, &word[j], &word[j + 1]) {
                Some(k) => {
                    assert(old_stats[k as int].1 + n == pair_count_upto(c, pj, i as int)
                        + word_pair_count(w, n as nat, pj, j + 1));
                    let entry = PairTally {
                        first: stats[k].first.clone(),
                        second: stats[k].second.clone(),
                        count: stats[k].count + n,
                    };
                    stats.set(k, entry);
                    assert(tally_view(stats@) =~= old_stats.update(k as int, (pj, old_stats[k as int].1 + n as nat)));
                    assert(keys_distinct(tally_view(stats@))) by {
                        assert forall|a: int, b: int| 0 <= a < b < tally_view(stats@).len() implies
                            tally_view(stats@)[a].0 != tally_view(stats@)[b].0 by {
                            assert(old_stats[a].0 != old_stats[b].0);
                        }
                    }
                    assert forall|p: (Seq<char>, Seq<char>)| #![trigger has_key(tally_view(stats@), p)]
                        !has_key(tally_view(stats@), p) implies
                        pair_count_upto(c, p, i as int) + word_pair_count(w, n as nat, p, j + 1) == 0 by {
                        if has_key(old_stats, p) {
                            let m = choose|m: int| #![trigger old_stats[m]] 0 <= m < old_stats.len() && old_stats[m].0 == p;
                            assert(tally_view(stats@)[m].0 == p);
                        }
                        assert(p != pj);
                    }
                },
                None => {
                    assert(pair_count_upto(c, pj, i as int) + word_pair_count(w, n as nat, pj, j as int) == 0);
                    let entry = PairTally { first: word[j].clone(), second: word[j + 1].clone(), count: n };
                    stats.push(entry);
                    assert(tally_view(stats@) =~= old_stats.push((pj, n as nat)));
                    assert(keys_distinct(tally_view(stats@))) by {
                        assert forall|a: int, b: int| 0 <= a < b < tally_view(stats@).len() implies
                            tally_view(stats@)[a].0 != tally_view(stats@)[b].0 by {
                            if b < old_stats.len() {
                                assert(old_stats[a].0 != old_stats[b].0);
                            } else {
                                assert(old_stats[a].0 != pj);
                            }
                        }
                    }
                    assert forall|p: (Seq<char>, Seq<char>)| #![trigger has_key(tally_view(stats@), p)]
                        !has_key(tally_view(stats@), p) implies
                        pair_count_upto(c, p, i as int) + word_pair_count(w, n as nat, p, j + 1) == 0 by {
                        if has_key(old_stats, p) {
                            let m = choose|m: int| #![trigger old_stats[m]] 0 <= m < old_stats.len() && old_stats[m].0 == p;
                            assert(tally_view(stats@)[m].0 == p);
                        }
                        let last = old_stats.len() as int;
                        assert(tally_view(stats@)[last].0 == pj);
                        assert(p != pj);
                    }
                },
            }
            j += 1;
        }
        proof {
            let cv = tally_view(stats@);
            assert forall|p: (Seq<char>, Seq<char>)| #![trigger has_key(cv, p)]
                !has_key(cv, p) implies pair_count_upto(c, p, i + 1) == 0 by {
                assert(word_pair_count(w, n as nat, p, w.len() - 1) == word_pair_count(w, n as nat, p, j as int));
            }
            assert forall|k: int| 0 <= k < cv.len() implies #[trigger] cv[k].1 == pair_count_upto(c, cv[k].0, i + 1) by {
                assert(word_pair_count(w, n as nat, cv[k].0, w.len() - 1) == word_pair_count(w, n as nat, cv[k].0, j as int));
            }
        }
        i += 1;
    }
    proof {
        let cv = tally_view(stats@);
        assert forall|p: (Seq<char>, Seq<char>)| !has_key(cv, p) implies #[trigger] pair_count(c, p) == 0 by {
        }
    }
    stats
}

/// The greatest count among the tallies, or 0 when there is none.
fn max_count(stats: &Vec<PairTally>) -> (m: u32)
    ensures
        forall|k: int| 0 <= k < stats.len() ==> #[trigger] tally_view(stats@)[k].1 <= m,
        m == 0 || exists|k: int| 0 <= k < stats.len() && #[trigger] tally_view(stats@)[k].1 == m,
{
    let mut m: u32 = 0;
    let mut k: usize = 0;
    while k < stats.len()
        invariant
            k <= stats.len(),
            forall|q: int| 0 <= q < k ==> #[trigger] tally_view(stats@)[q].1 <= m,
            m == 0 || exists|q: int| 0 <= q < k && #[trigger] tally_view(stats@)[q].1 == m,
        decreases stats.len() - k,
    {
        if stats[k].count > m {
            m = stats[k].count;
            assert(tally_view(stats@)[k as int].1 == m);
        }
        k += 1;
    }
    m
}

/// Locates the pair of adjacent symbols with the highest aggregate count in
/// the corpus, with that count; `None` when no pair has a positive count.
/// Ties go to the pair that occurs first in corpus order.
pub fn get_max_freq_bigram(corpus: &Vec<WordCount>) -> (r: Option<(String, String, u32)>)
    requires
        pair_weight(corpus_view(corpus@)) <= u32::MAX,
    ensures
        match r {
            None => best_pair(corpus_view(corpus@)) is None,
            Some((a, b, n)) => best_pair(corpus_view(corpus@)) == Some((a@, b@, n as nat)),
        },
{
    let ghost c = corpus_view(corpus@);
    let stats = tally_pairs(corpus);
    let ghost sv = tally_view(stats@);
    let m = max_count(&stats);
    assert forall|i2: int, j2: int| #[trigger] is_position(c, i2, j2) implies count_at(c, i2, j2) <= m by {
        let p = pair_at(c[i2].0, j2);
        if has_key(sv, p) {
            let k = choose|k: int| #![trigger sv[k]] 0 <= k < sv.len() && sv[k].0 == p;
            assert(sv[k].1 <= m);
        }
    }
    if m == 0 {
        assert forall|i: int, j: int| !is_best_position(c, i, j) by {
            if is_position(c, i, j) {
                assert(count_at(c, i, j) <= m);
            }
        }
        return None;
    }
    let mut i: usize = 0;
    while i < corpus.len()
        invariant
            i <= corpus.len(),
            c == corpus_view(corpus@),
            sv == tally_view(stats@),
            keys_distinct(sv),
            m > 0,
            forall|k: int| 0 <= k < sv.len() ==> #[trigger] sv[k].1 == pair_count(c, sv[k].0),
            forall|p: (Seq<char>, Seq<char>)| !has_key(sv, p) ==> #[trigger] pair_count(c, p) == 0,
            forall|i2: int, j2: int| #[trigger] is_position(c, i2, j2) ==> count_at(c, i2, j2) <= m,
            forall|i2: int, j2: int|
                #[trigger] is_position(c, i2, j2) && i2 < i ==> count_at(c, i2, j2) < m,
        decreases corpus.len() - i,
    {
        let word = &corpus[i].word;
        let mut j: usize = 0;
        while j + 1 < word.len()
            invariant
                i < corpus.len(),
                j == 0 || j < word.len(),
                word == corpus@[i as int].word,
                c == corpus_view(corpus@),
                sv == tally_view(stats@),
                keys_distinct(sv),
                m > 0,
                forall|k: int| 0 <= k < sv.len() ==> #[trigger] sv[k].1 == pair_count(c, sv[k].0),
                forall|p: (Seq<char>, Seq<char>)| !has_key(sv, p) ==> #[trigger] pair_count(c, p) == 0,
                forall|i2: int, j2: int| #[trigger] is_position(c, i2, j2) ==> count_at(c, i2, j2) <= m,
                forall|i2: int, j2: int|
                    #[trigger] is_position(c, i2, j2) && before(i2, j2, i as int, j as int) ==> count_at(
                        c,
                        i2,
                        j2,
                    ) < m,
            decreases word.len() - j,
        {
            let ghost p = pair_at(c[i as int].0, j as int);
            assert(p == (word@[j as int]@, word@[j + 1]@));
            assert(is_position(c, i as int, j as int));
            match find_pair(&stats, &word[j], &word[j + 1]) {
                Some(k) => {
                    assert(sv[k as int].1 == count_at(c, i as int, j as int));
                    if stats[k].count == m {
                        proof {
                            assert(is_best_position(c, i as int, j as int));
                            let (i2, j2) = choose|i2: int, j2: int| is_best_position(c, i2, j2);
                            lemma_best_position_unique(c, i as int, j as int, i2, j2);
                        }
                        return Some((word[j].clone(), word[j + 1].clone(), m));
                    }
                },
                None => {
                    assert(count_at(c, i as int, j as int) == 0);
                },
            }
            j += 1;
        }
        i += 1;
    }
    proof {
        let k = choose|k: int| 0 <= k < sv.len() && #[trigger] sv[k].1 == m;
        let q = sv[k].0;
        lemma_positive_count_occurs(c, q, c.len() as int);
        let (i2, j2) = choose|i2: int, j2: int| #[trigger] is_position(c, i2, j2) && i2 < c.len() && pair_at(c[i2].0, j2) == q;
        assert(count_at(c, i2, j2) == m);
    }
    None
}

} // verus!
