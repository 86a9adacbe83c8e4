//! The encoder: segments each word, closed by the end-of-word marker, into
//! vocabulary tokens by greedy longest match from left to right. A stretch of
//! characters where no vocabulary token starts becomes one unknown
//! placeholder token.

use vstd::prelude::*;

use crate::corpus::symbols_of;
use crate::strings::{chars_of, concat, end_marker, end_marker_string};

verus! {

broadcast use vstd::seq_lib::group_to_multiset_ensures;

/// The placeholder that stands for a stretch of characters no vocabulary
/// token covers.
pub open spec fn unknown_token() -> Seq<char> {
    seq!['<', '/', 'u', 'n', 'k', 'n', 'o', 'w', 'n', '>']
}

/// The length of the longest prefix of `w`, no longer than `k`, that is a
/// vocabulary token; 0 when there is none.
pub open spec fn longest_match(vocab: Set<Seq<char>>, w: Seq<char>, k: int) -> nat
    decreases k,
{
    if k <= 0 {
        0
    } else if k <= w.len() && vocab.contains(w.take(k)) {
        k as nat
    } else {
        longest_match(vocab, w, k - 1)
    }
}

/// The length of the longest prefix of `w` that is a vocabulary token.
pub open spec fn match_len(vocab: Set<Seq<char>>, w: Seq<char>) -> nat {
    longest_match(vocab, w, w.len() as int)
}

/// The number of leading characters of `w` at which no vocabulary token
/// starts.
pub open spec fn unmatched_run(vocab: Set<Seq<char>>, w: Seq<char>) -> nat
    decreases w.len(),
{
    if w.len() == 0 || match_len(vocab, w) > 0 {
        0
    } else {
        1 + unmatched_run(vocab, w.drop_first())
    }
}

/// The tokens of `w`: the longest vocabulary token at each point, or one
/// unknown placeholder for each stretch where none starts.
pub open spec fn segment(vocab: Set<Seq<char>>, w: Seq<char>) -> Seq<Seq<char>>
    decreases w.len(),
    via segment_decreases
{
    if w.len() == 0 {
        seq![]
    } else if match_len(vocab, w) > 0 {
        seq![w.take(match_len(vocab, w) as int)] + segment(vocab, w.skip(match_len(vocab, w) as int))
    } else {
        seq![unknown_token()] + segment(vocab, w.skip(unmatched_run(vocab, w) as int))
    }
}

#[via_fn]
proof fn segment_decreases(vocab: Set<Seq<char>>, w: Seq<char>) {
    if w.len() > 0 {
        lemma_longest_match(vocab, w, w.len() as int);
        if match_len(vocab, w) == 0 {
            lemma_unmatched_run_bounds(vocab, w);
        }
    }
}

/// The tokens of one word: the word closed by the end-of-word marker,
/// segmented.
pub open spec fn encode_word(vocab: Set<Seq<char>>, word: Seq<char>) -> Seq<Seq<char>> {
    segment(vocab, word + end_marker())
}

/// The tokens of a line: those of its words, one after the other.
pub open spec fn encode_line(vocab: Set<Seq<char>>, words: Seq<Seq<char>>) -> Seq<Seq<char>>
    decreases words.len(),
{
    if words.len() == 0 {
        seq![]
    } else {
        encode_line(vocab, words.drop_last()) + encode_word(vocab, words.last())
    }
}

/// The token a vocabulary record stands for: a record of two fields is a
/// whole word and gets the end-of-word marker, otherwise the first field is
/// the token as it is.
pub open spec fn record_token(e: Seq<Seq<char>>) -> Seq<char> {
    if e.len() == 2 {
        e[0] + end_marker()
    } else {
        e[0]
    }
}

/// The tokens of the non-empty vocabulary records, in order.
pub open spec fn record_tokens(records: Seq<Vec<String>>) -> Seq<Seq<char>>
    decreases records.len(),
{
    if records.len() == 0 {
        seq![]
    } else if records.last()@.len() > 0 {
        record_tokens(records.drop_last()).push(record_token(symbols_of(records.last()@)))
    } else {
        record_tokens(records.drop_last())
    }
}

/// The vocabulary the records give.
pub open spec fn vocab_of(records: Seq<Vec<String>>) -> Set<Seq<char>> {
    record_tokens(records).to_set()
}

/// What `longest_match` is: the greatest length up to `k` whose prefix is a
/// token, or 0.
proof fn lemma_longest_match(vocab: Set<Seq<char>>, w: Seq<char>, k: int)
    ensures
        longest_match(vocab, w, k) <= w.len(),
        longest_match(vocab, w, k) <= k || k <= 0,
        longest_match(vocab, w, k) > 0 ==> vocab.contains(w.take(longest_match(vocab, w, k) as int)),
        forall|j: int| 0 < j <= k && j <= w.len() && vocab.contains(#[trigger] w.take(j)) ==> j <= longest_match(vocab, w, k),
    decreases k,
{
    if k > 0 {
        lemma_longest_match(vocab, w, k - 1);
    }
}

proof fn lemma_unmatched_run_bounds(vocab: Set<Seq<char>>, w: Seq<char>)
    ensures
        unmatched_run(vocab, w) <= w.len(),
        w.len() > 0 && match_len(vocab, w) == 0 ==> unmatched_run(vocab, w) >= 1,
    decreases w.len(),
{
    if w.len() > 0 && match_len(vocab, w) == 0 {
        lemma_unmatched_run_bounds(vocab, w.drop_first());
    }
}

/// The number of characters of `t`.
pub(crate) fn char_count(t: &String) -> (r: usize)
    ensures
        r == t@.len(),
{
    t.as_str().unicode_len()
}

/// The strings of `s` with `k` characters, in order.
pub open spec fn with_length(s: Seq<String>, k: nat) -> Seq<String> {
    s.filter(|t: String| t@.len() == k)
}

/// Relies on `radsort::sort_by_key`, a stable sort: orders `tokens` by their
/// number of characters, shortest first, keeping the order of tokens of
/// equal length.
#[verifier::external_body]
fn sort_by_length(tokens: &mut Vec<String>)
    ensures
        final(tokens)@.to_multiset() == old(tokens)@.to_multiset(),
        forall|i: int, j: int|
            0 <= i <= j < final(tokens)@.len() ==> #[trigger] final(tokens)@[i]@.len()
                <= #[trigger] final(tokens)@[j]@.len(),
        forall|k: nat| #[trigger] with_length(final(tokens)@, k) == with_length(old(tokens)@, k),
{
    radsort::sort_by_key(tokens.as_mut_slice(), |t: &String| char_count(t))
}

/// The character sequences of a list of character vectors.
spec fn chars_view(v: Seq<Vec<char>>) -> Seq<Seq<char>> {
    v.map_values(|t: Vec<char>| t@)
}

/// The token strings of the non-empty vocabulary records.
fn record_token_strings(records: &Vec<Vec<String>>) -> (r: Vec<String>)
    ensures
        symbols_of(r@) == record_tokens(records@),
{
    let mut r: Vec<String> = Vec::new();
    let mut i: usize = 0;
    while i < records.len()
        invariant
            i <= records.len(),
            symbols_of(r@) == record_tokens(records@.take(i as int)),
        decreases records.len() - i,
    {
        let record = &records[i];
        assert(records@.take(i + 1).drop_last() =~= records@.take(i as int));
        assert(records@.take(i + 1).last() == record);
        if record.len() > 0 {
            let token = if record.len() == 2 {
                concat(&record[0], &end_marker_string())
            } else {
                record[0].clone()
            };
            let ghost old_r = symbols_of(r@);
            r.push(token);
            assert(symbols_of(r@) =~= old_r.push(record_token(symbols_of(record@))));
        }
        i += 1;
    }
    assert(records@.take(i as int) =~= records@);
    r
}

/// Whether vocabulary token `t` starts at position `p` of `w`.
fn matches_at(t: &Vec<char>, w: &Vec<char>, p: usize) -> (r: bool)
    requires
        p <= w.len(),
    ensures
        r == (0 < t@.len() <= w@.len() - p && w@.skip(p as int).take(t@.len() as int) == t@),
{
    if t.len() == 0 || t.len() > w.len() - p {
        return false;
    }
    let mut i: usize = 0;
    while i < t.len()
        invariant
            i <= t.len() <= w.len() - p,
            p <= w.len(),
            forall|x: int| 0 <= x < i ==> w@[p + x] == t@[x],
        decreases t.len() - i,
    {
        if w[p + i] != t[i] {
            assert(w@.skip(p as int).take(t@.len() as int)[i as int] != t@[i as int]);
            return false;
        }
        i += 1;
    }
    assert(w@.skip(p as int).take(t@.len() as int) =~= t@);
    true
}

/// The vocabulary token, among `tokens` (shortest first), that is the
/// longest match at position `p` of `w`; `None` when no token starts there.
fn longest_at(tokens: &Vec<Vec<char>>, w: &Vec<char>, p: usize, Ghost(vocab): Ghost<Set<Seq<char>>>) -> (r: Option<usize>)
    requires
        p <= w.len(),
        vocab == chars_view(tokens@).to_set(),
        forall|i: int, j: int| 0 <= i <= j < tokens.len() ==> #[trigger] tokens@[i]@.len() <= #[trigger] tokens@[j]@.len(),
    ensures
        match r {
            Some(q) => {
                &&& q < tokens.len()
                &&& match_len(vocab, w@.skip(p as int)) == tokens@[q as int]@.len() > 0
                &&& w@.skip(p as int).take(tokens@[q as int]@.len() as int) == tokens@[q as int]@
            },
            None => match_len(vocab, w@.skip(p as int)) == 0,
        },
{
    let ghost rest = w@.skip(p as int);
    proof {
        lemma_longest_match(vocab, rest, rest.len() as int);
    }
    let mut q = tokens.len();
    while q > 0
        invariant
            q <= tokens.len(),
            p <= w.len(),
            rest == w@.skip(p as int),
            vocab == chars_view(tokens@).to_set(),
            forall|i: int, j: int| 0 <= i <= j < tokens.len() ==> #[trigger] tokens@[i]@.len() <= #[trigger] tokens@[j]@.len(),
            forall|x: int|
                q <= x < tokens.len() ==> !(0 < tokens@[x]@.len() <= rest.len() && rest.take(
                    tokens@[x]@.len() as int,
                ) == #[trigger] tokens@[x]@),
        decreases q,
    {
        q -= 1;
        if matches_at(&tokens[q], w, p) {
            proof {
                lemma_longest_match(vocab, rest, rest.len() as int);
                let len = tokens@[q as int]@.len();
                assert(chars_view(tokens@)[q as int] == tokens@[q as int]@);
                assert(vocab.contains(rest.take(len as int)));
                let m = match_len(vocab, rest);
                if m > len {
                    assert(vocab.contains(rest.take(m as int)));
                    let x = choose|x: int| 0 <= x < tokens.len() && chars_view(tokens@)[x] == rest.take(m as int);
                    assert(tokens@[x]@ == rest.take(m as int));
                    if x <= q {
                        assert(tokens@[x]@.len() <= tokens@[q as int]@.len());
                    }
                }
            }
            return Some(q);
        }
    }
    proof {
        lemma_longest_match(vocab, rest, rest.len() as int);
        let m = match_len(vocab, rest);
        if m > 0 {
            assert(vocab.contains(rest.take(m as int)));
            let x = choose|x: int| 0 <= x < tokens.len() && chars_view(tokens@)[x] == rest.take(m as int);
            assert(tokens@[x]@ == rest.take(m as int));
        }
    }
    None
}

/// The tokens of `w`: `tokens` and `strs` hold the vocabulary, shortest
/// first, as characters and as strings.
fn segment_word(
    tokens: &Vec<Vec<char>>,
    strs: &Vec<String>,
    w: &Vec<char>,
    unknown: &String,
    Ghost(vocab): Ghost<Set<Seq<char>>>,
) -> (r: Vec<String>)
    requires
        tokens.len() == strs.len(),
        forall|q: int| 0 <= q < tokens.len() ==> #[trigger] tokens@[q]@ == strs@[q]@,
        vocab == chars_view(tokens@).to_set(),
        forall|i: int, j: int| 0 <= i <= j < tokens.len() ==> #[trigger] tokens@[i]@.len() <= #[trigger] tokens@[j]@.len(),
        unknown@ == unknown_token(),
    ensures
        symbols_of(r@) == segment(vocab, w@),
{
    let mut r: Vec<String> = Vec::new();
    let mut p: usize = 0;
    assert(w@.skip(0) =~= w@);
    assert(symbols_of(r@) =~= Seq::<Seq<char>>::empty());
    while p < w.len()
        invariant
            p <= w.len(),
            tokens.len() == strs.len(),
            forall|q: int| 0 <= q < tokens.len() ==> #[trigger] tokens@[q]@ == strs@[q]@,
            vocab == chars_view(tokens@).to_set(),
            forall|i: int, j: int| 0 <= i <= j < tokens.len() ==> #[trigger] tokens@[i]@.len() <= #[trigger] tokens@[j]@.len(),
            unknown@ == unknown_token(),
            symbols_of(r@) + segment(vocab, w@.skip(p as int)) == segment(vocab, w@),
        decreases w.len() - p,
    {
        let ghost rest = w@.skip(p as int);
        let ghost old_r = symbols_of(r@);
        proof {
            lemma_longest_match(vocab, rest, rest.len() as int);
        }
        match longest_at(tokens, w, p, Ghost(vocab)) {
            Some(q) => {
                let len = tokens[q].len();
                r.push(strs[q].clone());
                assert(rest.skip(len as int) =~= w@.skip(p + len));
                assert(symbols_of(r@) =~= old_r + seq![rest.take(len as int)]);
                p += len;
            },
            None => {
                r.push(unknown.clone());
                assert(symbols_of(r@) =~= old_r + seq![unknown_token()]);
                let run_start = p;
                assert(rest.drop_first() =~= w@.skip(p + 1));
                p += 1;
                let mut stop = false;
                while !stop && p < w.len()
                    invariant
                        run_start < p <= w.len(),
                        vocab == chars_view(tokens@).to_set(),
                        forall|i: int, j: int| 0 <= i <= j < tokens.len() ==> #[trigger] tokens@[i]@.len() <= #[trigger] tokens@[j]@.len(),
                        unmatched_run(vocab, w@.skip(run_start as int)) == (p - run_start) + unmatched_run(vocab, w@.skip(p as int)),
                        stop ==> match_len(vocab, w@.skip(p as int)) > 0,
                    decreases w.len() - p + if stop { 0int } else { 1int },
                {
                    match longest_at(tokens, w, p, Ghost(vocab)) {
                        Some(_) => {
                            stop = true;
                        },
                        None => {
                            assert(w@.skip(p as int).drop_first() =~= w@.skip(p + 1));
                            p += 1;
                        },
                    }
                }
                assert(unmatched_run(vocab, w@.skip(p as int)) == 0);
                assert(rest.skip((p - run_start) as int) =~= w@.skip(p as int));
            },
        }
    }
    assert(w@.skip(p as int).len() == 0);
    assert(symbols_of(r@) =~= segment(vocab, w@));
    r
}

/// Tokenizes each line of words with a vocabulary: each word, closed by the
/// end-of-word marker, is split left to right into the longest vocabulary
/// tokens, and each stretch no token covers becomes the unknown
/// placeholder `</unknown>`. A vocabulary record is a token, or a word and a
/// second field for a whole-word token; empty records are passed over.
pub fn bpe_encoding(text_lines: Vec<Vec<String>>, vocab_lines: Vec<Vec<String>>) -> (r: Vec<Vec<String>>)
    ensures
        r.len() == text_lines.len(),
        forall|i: int|
            0 <= i < r.len() ==> #[trigger] symbols_of(r@[i]@) == encode_line(
                vocab_of(vocab_lines@),
                symbols_of(text_lines@[i]@),
            ),
{
    let ghost vocab = vocab_of(vocab_lines@);
    let mut strs = record_token_strings(&vocab_lines);
    let ghost unsorted = strs@;
    sort_by_length(&mut strs);
    let mut tokens: Vec<Vec<char>> = Vec::new();
    let mut q: usize = 0;
    while q < strs.len()
        invariant
            q <= strs.len(),
            tokens.len() == q,
            forall|x: int| 0 <= x < q ==> #[trigger] tokens@[x]@ == strs@[x]@,
        decreases strs.len() - q,
    {
        tokens.push(chars_of(strs[q].as_str()));
        q += 1;
    }
    assert forall|i: int, j: int| 0 <= i <= j < tokens.len() implies #[trigger] tokens@[i]@.len() <= #[trigger] tokens@[j]@.len() by {
        assert(strs@[i]@.len() <= strs@[j]@.len());
    }
    assert(vocab =~= chars_view(tokens@).to_set()) by {
        assert forall|t: Seq<char>| vocab.contains(t) implies chars_view(tokens@).contains(t) by {
            let x = choose|x: int| 0 <= x < unsorted.len() && symbols_of(unsorted)[x] == t;
            assert(unsorted.contains(unsorted[x]));
            assert(strs@.to_multiset().count(unsorted[x]) > 0);
            assert(strs@.contains(unsorted[x]));
            let y = choose|y: int| 0 <= y < strs@.len() && strs@[y] == unsorted[x];
            assert(chars_view(tokens@)[y] == t);
        }
        assert forall|t: Seq<char>| chars_view(tokens@).contains(t) implies vocab.contains(t) by {
            let y = choose|y: int| 0 <= y < tokens.len() && chars_view(tokens@)[y] == t;
            assert(strs@.contains(strs@[y]));
            assert(unsorted.to_multiset().count(strs@[y]) > 0);
            assert(unsorted.contains(strs@[y]));
            let x = choose|x: int| 0 <= x < unsorted.len() && unsorted[x] == strs@[y];
            assert(symbols_of(unsorted)[x] == t);
        }
    }
    let unknown = String::from_str("</unknown>");
    proof {
        reveal_strlit("</unknown>");
    }
    assert(unknown@ =~= unknown_token());
    let marker = end_marker_string();
    let mut r: Vec<Vec<String>> = Vec::new();
    let mut i: usize = 0;
    while i < text_lines.len()
        invariant
            i <= text_lines.len(),
            r.len() == i,
            marker@ == end_marker(),
            unknown@ == unknown_token(),
            tokens.len() == strs.len(),
            forall|x: int| 0 <= x < tokens.len() ==> #[trigger] tokens@[x]@ == strs@[x]@,
            vocab == chars_view(tokens@).to_set(),
            forall|a: int, b: int| 0 <= a <= b < tokens.len() ==> #[trigger] tokens@[a]@.len() <= #[trigger] tokens@[b]@.len(),
            forall|x: int|
                0 <= x < i ==> #[trigger] symbols_of(r@[x]@) == encode_line(vocab, symbols_of(text_lines@[x]@)),
        decreases text_lines.len() - i,
    {
        let line = &text_lines[i];
        let ghost words = symbols_of(line@);
        let mut out: Vec<String> = Vec::new();
        let mut j: usize = 0;
        while j < line.len()
            invariant
                j <= line.len(),
                words == symbols_of(line@),
                marker@ == end_marker(),
                unknown@ == unknown_token(),
                tokens.len() == strs.len(),
                forall|x: int| 0 <= x < tokens.len() ==> #[trigger] tokens@[x]@ == strs@[x]@,
                vocab == chars_view(tokens@).to_set(),
                forall|a: int, b: int| 0 <= a <= b < tokens.len() ==> #[trigger] tokens@[a]@.len() <= #[trigger] tokens@[b]@.len(),
                symbols_of(out@) == encode_line(vocab, words.take(j as int)),
            decreases line.len() - j,
        {
            let closed = concat(&line[j], &marker);
            let w = chars_of(closed.as_str());
            let mut seg = segment_word(&tokens, &strs, &w, &unknown, Ghost(vocab));
            let ghost old_out = symbols_of(out@);
            let ghost seg_view = symbols_of(seg@);
            out.append(&mut seg);
            assert(symbols_of(out@) =~= old_out + seg_view);
            assert(words.take(j + 1).drop_last() =~= words.take(j as int));
            j += 1;
        }
        assert(words.take(j as int) =~= words);
        r.push(out);
        assert(r@[i as int] == out);
        i += 1;
    }
    r
}

proof fn lemma_segment_unknown(vocab: Set<Seq<char>>, w: Seq<char>, i: int)
    requires
        0 <= i < w.len(),
        forall|t: Seq<char>| vocab.contains(t) ==> !t.contains(w[i]),
    ensures
        segment(vocab, w).contains(unknown_token()),
    decreases w.len(),
{
    lemma_longest_match(vocab, w, w.len() as int);
    let m = match_len(vocab, w) as int;
    if m > 0 {
        let t = w.take(m);
        assert(vocab.contains(t));
        if i < m {
            assert(t[i] == w[i]);
            assert(t.contains(w[i]));
        }
        let rest = w.skip(m);
        assert(rest[i - m] == w[i]);
        lemma_segment_unknown(vocab, rest, i - m);
        let k = choose|k: int| 0 <= k < segment(vocab, rest).len() && segment(vocab, rest)[k] == unknown_token();
        assert((seq![t] + segment(vocab, rest))[k + 1] == unknown_token());
    } else {
        assert(segment(vocab, w)[0] == unknown_token());
    }
}

/// Unknown spans: no token can cover a character that no vocabulary token
/// holds, so encoding a word that holds such a character yields the unknown
/// placeholder; the character is never dropped silently.
pub proof fn lemma_unknown_character_marked(vocab: Set<Seq<char>>, word: Seq<char>, i: int)
    requires
        0 <= i < word.len(),
        forall|t: Seq<char>| vocab.contains(t) ==> !t.contains(word[i]),
    ensures
        encode_word(vocab, word).contains(unknown_token()),
{
    let w = word + end_marker();
    assert(w[i] == word[i]);
    lemma_segment_unknown(vocab, w, i);
}

} // verus!
