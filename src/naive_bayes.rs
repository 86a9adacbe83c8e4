//! Token counting for a two-class text classifier: how often each token
//! occurs in lines of the target class and in the other lines, and how many
//! tokens each class has in all.

use vstd::prelude::*;

verus! {

/// A line of tokens with the class label it belongs to.
#[derive(Debug)]
pub struct LineTarget {
    pub tokens: Vec<String>,
    pub target: String,
}

/// How often a token occurs in each class: `class_a` is the target class.
#[derive(Debug, Clone, Copy, PartialEq, Eq)]
pub struct TokenOccurence {
    pub class_a: u32,
    pub class_b: u32,
}

/// How many tokens each class holds: `class_a` is the target class.
#[derive(Debug, Clone, Copy, PartialEq, Eq)]
pub struct NumberWords {
    pub class_a: u32,
    pub class_b: u32,
}

/// The occurrences of every token, each token once, in order of first
/// occurrence.
#[derive(Debug)]
pub struct OccurrenceTable {
    entries: Vec<(String, TokenOccurence)>,
}

impl View for OccurrenceTable {
    type V = Seq<(Seq<char>, nat, nat)>;

    closed spec fn view(&self) -> Seq<(Seq<char>, nat, nat)> {
        entries_view(self.entries@)
    }
}

/// Every token of the input, in order, with whether its line belongs to the
/// target class.
pub open spec fn occurrences(input: Seq<LineTarget>, target: Seq<char>) -> Seq<(Seq<char>, bool)> {
    input.map_values(
        |l: LineTarget| l.tokens@.map_values(|t: String| (t@, l.target@ == target)),
    ).flatten_alt()
}

/// How often `tok` occurs in the target class (`in_class`) or outside it.
pub open spec fn count_in(occ: Seq<(Seq<char>, bool)>, tok: Seq<char>, in_class: bool) -> nat
    decreases occ.len(),
{
    if occ.len() == 0 {
        0
    } else {
        count_in(occ.drop_last(), tok, in_class) + if occ.last() == (tok, in_class) {
            1nat
        } else {
            0
        }
    }
}

/// How many tokens occur in the target class (`in_class`) or outside it.
pub open spec fn class_total(occ: Seq<(Seq<char>, bool)>, in_class: bool) -> nat
    decreases occ.len(),
{
    if occ.len() == 0 {
        0
    } else {
        class_total(occ.drop_last(), in_class) + if occ.last().1 == in_class {
            1nat
        } else {
            0
        }
    }
}

/// The distinct tokens, in order of first occurrence.
pub open spec fn first_seen(occ: Seq<(Seq<char>, bool)>) -> Seq<Seq<char>>
    decreases occ.len(),
{
    if occ.len() == 0 {
        seq![]
    } else if first_seen(occ.drop_last()).contains(occ.last().0) {
        first_seen(occ.drop_last())
    } else {
        first_seen(occ.drop_last()).push(occ.last().0)
    }
}

/// The table of `occ`: each distinct token with its counts in and out of
/// the target class.
pub open spec fn occurrence_table(occ: Seq<(Seq<char>, bool)>) -> Seq<(Seq<char>, nat, nat)> {
    first_seen(occ).map_values(|t: Seq<char>| (t, count_in(occ, t, true), count_in(occ, t, false)))
}

proof fn lemma_unseen_count(occ: Seq<(Seq<char>, bool)>, tok: Seq<char>, in_class: bool)
    requires
        !first_seen(occ).contains(tok),
    ensures
        count_in(occ, tok, in_class) == 0,
    decreases occ.len(),
{
    if occ.len() > 0 {
        let s = first_seen(occ.drop_last());
        if s.contains(tok) {
            let i = choose|i: int| 0 <= i < s.len() && s[i] == tok;
            assert(first_seen(occ)[i] == tok);
        }
        if !s.contains(occ.last().0) {
            assert(first_seen(occ)[s.len() as int] == occ.last().0);
        }
        lemma_unseen_count(occ.drop_last(), tok, in_class);
    }
}

proof fn lemma_first_seen_distinct(occ: Seq<(Seq<char>, bool)>)
    ensures
        forall|a: int, b: int| 0 <= a < b < first_seen(occ).len() ==> first_seen(occ)[a] != first_seen(occ)[b],
    decreases occ.len(),
{
    if occ.len() > 0 {
        lemma_first_seen_distinct(occ.drop_last());
        let s = first_seen(occ.drop_last());
        if !s.contains(occ.last().0) {
            assert forall|a: int, b: int| 0 <= a < b < first_seen(occ).len() implies first_seen(occ)[a]
                != first_seen(occ)[b] by {
                if b == s.len() {
                    assert(s[a] != occ.last().0);
                }
            }
        }
    }
}

proof fn lemma_counts_bounded(occ: Seq<(Seq<char>, bool)>, tok: Seq<char>, in_class: bool)
    ensures
        count_in(occ, tok, in_class) <= occ.len(),
        class_total(occ, in_class) <= occ.len(),
    decreases occ.len(),
{
    if occ.len() > 0 {
        lemma_counts_bounded(occ.drop_last(), tok, in_class);
    }
}

impl OccurrenceTable {
    /// The number of distinct tokens.
    pub fn len(&self) -> (r: usize)
        ensures
            r == self@.len(),
    {
        self.entries.len()
    }

    /// The occurrences of `token`, if it occurred at all.
    pub fn get(&self, token: &str) -> (r: Option<TokenOccurence>)
        ensures
            r is None <==> forall|k: int| 0 <= k < self@.len() ==> #[trigger] self@[k].0 != token@,
            r matches Some(o) ==> exists|k: int|
                0 <= k < self@.len() && #[trigger] self@[k] == (token@, o.class_a as nat, o.class_b as nat),
    {
        let wanted = String::from_str(token);
        let mut k: usize = 0;
        while k < self.entries.len()
            invariant
                k <= self.entries.len(),
                wanted@ == token@,
                forall|q: int| 0 <= q < k ==> #[trigger] self@[q].0 != token@,
            decreases self.entries.len() - k,
        {
            if self.entries[k].0 == wanted {
                assert(self@[k as int] == (token@, self.entries@[k as int].1.class_a as nat, self.entries@[k as int].1.class_b as nat));
                assert(self@[k as int].0 == token@);
                assert(!(forall|q: int| 0 <= q < self@.len() ==> #[trigger] self@[q].0 != token@));
                return Some(self.entries[k].1);
            }
            k += 1;
        }
        None
    }

    /// The token at position `k`, in order of first occurrence, with its
    /// occurrences.
    pub fn entry(&self, k: usize) -> (r: (String, TokenOccurence))
        requires
            k < self@.len(),
        ensures
            (r.0@, r.1.class_a as nat, r.1.class_b as nat) == self@[k as int],
    {
        (self.entries[k].0.clone(), self.entries[k].1)
    }
}

spec fn entries_view(e: Seq<(String, TokenOccurence)>) -> Seq<(Seq<char>, nat, nat)> {
    e.map_values(|x: (String, TokenOccurence)| (x.0@, x.1.class_a as nat, x.1.class_b as nat))
}

proof fn lemma_flatten_prefix_len<A>(s: Seq<Seq<A>>, k: int)
    requires
        0 <= k <= s.len(),
    ensures
        s.take(k).flatten_alt().len() <= s.flatten_alt().len(),
    decreases s.len(),
{
    if k < s.len() {
        assert(s.drop_last().take(k) =~= s.take(k));
        lemma_flatten_prefix_len(s.drop_last(), k);
    } else {
        assert(s.take(k) =~= s);
    }
}

/// Counts the tokens of `input` by class: the table gives, for each distinct
/// token in order of first occurrence, how often it occurs in lines whose
/// label is `target` (`class_a`) and in the other lines (`class_b`); the
/// totals give how many tokens each class holds.
pub fn bayes_preprocess(input: &Vec<LineTarget>, target: &str) -> (r: (OccurrenceTable, NumberWords))
    requires
        occurrences(input@, target@).len() <= u32::MAX,
    ensures
        r.0@ == occurrence_table(occurrences(input@, target@)),
        r.1.class_a == class_total(occurrences(input@, target@), true),
        r.1.class_b == class_total(occurrences(input@, target@), false),
{
    let ghost per_line = input@.map_values(
        |l: LineTarget| l.tokens@.map_values(|t: String| (t@, l.target@ == target@)),
    );
    let ghost occ = occurrences(input@, target@);
    assert(occ == per_line.flatten_alt());
    let wanted = String::from_str(target);
    let mut entries: Vec<(String, TokenOccurence)> = Vec::new();
    let mut numwords = NumberWords { class_a: 0, class_b: 0 };
    let mut i: usize = 0;
    while i < input.len()
        invariant
            i <= input.len(),
            wanted@ == target@,
            occ == per_line.flatten_alt(),
            occ.len() <= u32::MAX,
            per_line == input@.map_values(
                |l: LineTarget| l.tokens@.map_values(|t: String| (t@, l.target@ == target@)),
            ),
            entries_view(entries@) == occurrence_table(per_line.take(i as int).flatten_alt()),
            numwords.class_a == class_total(per_line.take(i as int).flatten_alt(), true),
            numwords.class_b == class_total(per_line.take(i as int).flatten_alt(), false),
        decreases input.len() - i,
    {
        let line = &input[i];
        let in_class = line.target == wanted;
        let ghost before = per_line.take(i as int).flatten_alt();
        assert(per_line.take(i + 1).drop_last() =~= per_line.take(i as int));
        assert(per_line.take(i + 1).flatten_alt() == before + per_line[i as int]);
        proof {
            lemma_flatten_prefix_len(per_line, i + 1);
        }
        let mut j: usize = 0;
        while j < line.tokens.len()
            invariant
                i < input.len(),
                j <= line.tokens.len(),
                line == input@[i as int],
                in_class == (line.target@ == target@),
                per_line == input@.map_values(
                    |l: LineTarget| l.tokens@.map_values(|t: String| (t@, l.target@ == target@)),
                ),
                before.len() + per_line[i as int].len() <= u32::MAX,
                entries_view(entries@) == occurrence_table(before + per_line[i as int].take(j as int)),
                numwords.class_a == class_total(before + per_line[i as int].take(j as int), true),
                numwords.class_b == class_total(before + per_line[i as int].take(j as int), false),
            decreases line.tokens.len() - j,
        {
            let ghost prefix = before + per_line[i as int].take(j as int);
            let ghost o = (line.tokens@[j as int]@, in_class);
            let ghost next = prefix.push(o);
            assert(per_line[i as int][j as int] == o);
            assert(before + per_line[i as int].take(j + 1) =~= next);
            assert(next.drop_last() =~= prefix);
            proof {
                lemma_counts_bounded(prefix, o.0, true);
                lemma_counts_bounded(prefix, o.0, false);
            }
            let token = &line.tokens[j];
            let ghost old_view = entries_view(entries@);
            let mut k: usize = 0;
            let mut found = false;
            while k < entries.len() && !found
                invariant
                    k <= entries.len(),
                    found ==> k < entries.len() && entries@[k as int].0@ == token@,
                    !found ==> forall|q: int| 0 <= q < k ==> #[trigger] entries@[q].0@ != token@,
                decreases entries.len() - k + if found { 0int } else { 1int },
            {
                if entries[k].0 == *token {
                    found = true;
                } else {
                    k += 1;
                }
            }
            let ghost keys = first_seen(prefix);
            assert(keys.len() == old_view.len());
            proof {
                lemma_first_seen_distinct(prefix);
            }
            assert forall|q: int, b: bool| 0 <= q < keys.len() implies #[trigger] count_in(next, keys[q], b)
                == count_in(prefix, keys[q], b) + if o == (keys[q], b) { 1nat } else { 0 } by {
                assert(next.last() == o);
            }
            if found {
                assert(old_view[k as int].0 == token@);
                assert(keys[k as int] == token@);
                assert(keys.contains(o.0));
                assert(first_seen(next) == keys);
                let old = entries[k].1;
                let occurrence = if in_class {
                    TokenOccurence { class_a: old.class_a + 1, class_b: old.class_b }
                } else {
                    TokenOccurence { class_a: old.class_a, class_b: old.class_b + 1 }
                };
                let entry = (entries[k].0.clone(), occurrence);
                entries.set(k, entry);
                assert forall|q: int| 0 <= q < keys.len() implies #[trigger] entries_view(entries@)[q]
                    == occurrence_table(next)[q] by {
                    assert(old_view[q] == occurrence_table(prefix)[q]);
                    assert(count_in(next, keys[q], true) == count_in(prefix, keys[q], true) + if o == (keys[q], true) { 1nat } else { 0 });
                    assert(count_in(next, keys[q], false) == count_in(prefix, keys[q], false) + if o == (keys[q], false) { 1nat } else { 0 });
                    if q != k {
                        assert(keys[q] != keys[k as int]);
                    }
                }
                assert(entries_view(entries@) =~= occurrence_table(next));
            } else {
                assert(!keys.contains(o.0)) by {
                    if keys.contains(o.0) {
                        let q = choose|q: int| 0 <= q < keys.len() && keys[q] == o.0;
                        assert(old_view[q].0 == keys[q]);
                    }
                }
                assert(first_seen(next) == keys.push(o.0));
                proof {
                    lemma_unseen_count(prefix, o.0, true);
                    lemma_unseen_count(prefix, o.0, false);
                }
                let occurrence = if in_class {
                    TokenOccurence { class_a: 1, class_b: 0 }
                } else {
                    TokenOccurence { class_a: 0, class_b: 1 }
                };
                entries.push((token.clone(), occurrence));
                assert forall|q: int| 0 <= q < keys.len() implies #[trigger] entries_view(entries@)[q]
                    == occurrence_table(next)[q] by {
                    assert(old_view[q] == occurrence_table(prefix)[q]);
                    assert(count_in(next, keys[q], true) == count_in(prefix, keys[q], true) + if o == (keys[q], true) { 1nat } else { 0 });
                    assert(count_in(next, keys[q], false) == count_in(prefix, keys[q], false) + if o == (keys[q], false) { 1nat } else { 0 });
                    assert(keys[q] != o.0);
                }
                let ghost last = keys.len() as int;
                assert(count_in(next, o.0, true) == count_in(prefix, o.0, true) + if o == (o.0, true) { 1nat } else { 0 });
                assert(count_in(next, o.0, false) == count_in(prefix, o.0, false) + if o == (o.0, false) { 1nat } else { 0 });
                assert(entries_view(entries@)[last] == occurrence_table(next)[last]);
                assert(entries_view(entries@) =~= occurrence_table(next));
            }
            proof {
                lemma_counts_bounded(prefix, o.0, true);
            }
            if in_class {
                numwords.class_a = numwords.class_a + 1;
            } else {
                numwords.class_b = numwords.class_b + 1;
            }
            j += 1;
        }
        assert(per_line[i as int].take(j as int) =~= per_line[i as int]);
        i += 1;
    }
    assert(per_line.take(i as int) =~= per_line);
    (OccurrenceTable { entries }, numwords)
}

} // verus!
