use text_oxidizer::{
    bpe_training, build_vocab_corpus, get_max_freq_bigram, init_vocab_corpus, merge_bigrams, train_vocabulary,
    update_frequency_table, Frequency, WordCount,
};

fn lines(words: &[&[&str]]) -> Vec<Vec<String>> {
    words
        .iter()
        .map(|line| line.iter().map(|w| w.to_string()).collect())
        .collect()
}

fn strings(items: &[&str]) -> Vec<String> {
    items.iter().map(|s| s.to_string()).collect()
}

fn table(entries: &[(&str, u32)]) -> Vec<Frequency> {
    entries
        .iter()
        .map(|(t, f)| Frequency { token: t.to_string(), freq: *f })
        .collect()
}

fn table_pairs(t: &[Frequency]) -> Vec<(String, u32)> {
    t.iter().map(|f| (f.token.clone(), f.freq)).collect()
}

fn owned_pairs(entries: &[(&str, u32)]) -> Vec<(String, u32)> {
    entries.iter().map(|(t, f)| (t.to_string(), *f)).collect()
}

#[test]
fn initial_table_and_corpus_of_aaab() {
    let (t, c) = init_vocab_corpus(lines(&[&["aaab"]])).unwrap();
    assert_eq!(table_pairs(&t), owned_pairs(&[("a", 3), ("b", 1), ("</w>", 1)]));
    assert_eq!(c.len(), 1);
    assert_eq!(c[0].word, strings(&["a", "a", "a", "b", "</w>"]));
    assert_eq!(c[0].count, 1);
}

#[test]
fn initial_corpus_lowercases_and_coalesces_words() {
    let (t, c) = init_vocab_corpus(lines(&[&["Ab", "ab"], &["cd", "AB"]])).unwrap();
    assert_eq!(
        table_pairs(&t),
        owned_pairs(&[("a", 3), ("b", 3), ("</w>", 4), ("c", 1), ("d", 1)])
    );
    assert_eq!(c.len(), 2);
    assert_eq!(c[0].word, strings(&["a", "b", "</w>"]));
    assert_eq!(c[0].count, 3);
    assert_eq!(c[1].word, strings(&["c", "d", "</w>"]));
    assert_eq!(c[1].count, 1);
}

#[test]
fn empty_input_gives_empty_tables_and_vocabulary() {
    let (t, c) = init_vocab_corpus(Vec::new()).unwrap();
    assert!(t.is_empty());
    assert!(c.is_empty());
    assert_eq!(bpe_training(Vec::new(), 52), Some(Vec::new()));
    assert_eq!(bpe_training(vec![Vec::new()], 10), Some(Vec::new()));
}

#[test]
fn first_merge_of_aaab_is_a_a_with_count_two() {
    let (_, c) = init_vocab_corpus(lines(&[&["aaab"]])).unwrap();
    let (a, b, n) = get_max_freq_bigram(&c).unwrap();
    assert_eq!((a.as_str(), b.as_str(), n), ("a", "a", 2));
}

#[test]
fn aaab_training_exits_early_with_a_small_vocabulary() {
    let vocab = bpe_training(lines(&[&["aaab"]]), 52).unwrap();
    assert_eq!(vocab, strings(&["aa", "aaab</w>"]));
    assert!(vocab.len() < 52);
    let (t, _) = init_vocab_corpus(lines(&[&["aaab"]])).unwrap();
    assert!(vocab.len() < t.len());
}

#[test]
fn pair_counts_weigh_words_by_their_count() {
    let corpus = vec![
        WordCount { word: strings(&["x", "y", "</w>"]), count: 1 },
        WordCount { word: strings(&["y", "z", "</w>"]), count: 3 },
    ];
    let (a, b, n) = get_max_freq_bigram(&corpus).unwrap();
    assert_eq!((a.as_str(), b.as_str(), n), ("y", "z", 3));
}

#[test]
fn pair_ties_go_to_the_first_occurrence() {
    let (_, c) = init_vocab_corpus(lines(&[&["ab", "cd", "cd", "ab"]])).unwrap();
    let (a, b, n) = get_max_freq_bigram(&c).unwrap();
    assert_eq!((a.as_str(), b.as_str(), n), ("a", "b", 2));
    let corpus = vec![
        WordCount { word: strings(&["c", "d"]), count: 1 },
        WordCount { word: strings(&["a", "b", "c", "d"]), count: 1 },
    ];
    let (a, b, n) = get_max_freq_bigram(&corpus).unwrap();
    assert_eq!((a.as_str(), b.as_str(), n), ("c", "d", 2));
}

#[test]
fn no_pair_in_single_symbol_words() {
    let corpus = vec![
        WordCount { word: strings(&["ab</w>"]), count: 4 },
        WordCount { word: Vec::new(), count: 2 },
    ];
    assert_eq!(get_max_freq_bigram(&corpus), None);
    let idle = vec![WordCount { word: strings(&["a", "b"]), count: 0 }];
    assert_eq!(get_max_freq_bigram(&idle), None);
}

#[test]
fn merge_resumes_one_symbol_past_a_merge() {
    let corpus = vec![
        WordCount { word: strings(&["a", "b", "a", "b", "</w>"]), count: 2 },
        WordCount { word: strings(&["b", "a", "b", "</w>"]), count: 1 },
        WordCount { word: strings(&["x", "y"]), count: 1 },
    ];
    let merged = merge_bigrams(corpus, &"a".to_string(), &"b".to_string());
    assert_eq!(merged[0].word, strings(&["ab", "a", "b", "</w>"]));
    assert_eq!(merged[0].count, 2);
    assert_eq!(merged[1].word, strings(&["b", "ab", "</w>"]));
    assert_eq!(merged[2].word, strings(&["x", "y"]));
}

#[test]
fn merge_of_repeated_symbol_skips_overlaps() {
    let corpus = vec![WordCount { word: strings(&["a", "a", "a", "b", "</w>"]), count: 1 }];
    let merged = merge_bigrams(corpus, &"a".to_string(), &"a".to_string());
    assert_eq!(merged[0].word, strings(&["aa", "a", "b", "</w>"]));
}

#[test]
fn frequency_update_subtracts_and_appends() {
    let t = table(&[("a", 3), ("b", 1), ("</w>", 1)]);
    let u = update_frequency_table(t, &"a".to_string(), &"a".to_string(), 2);
    assert_eq!(table_pairs(&u), owned_pairs(&[("a", 1), ("b", 1), ("</w>", 1), ("aa", 2)]));
}

#[test]
fn frequency_update_removes_tokens_at_zero() {
    let t = table(&[("x", 4), ("a", 1), ("b", 2), ("ab", 7)]);
    let u = update_frequency_table(t, &"a".to_string(), &"b".to_string(), 1);
    assert_eq!(table_pairs(&u), owned_pairs(&[("x", 4), ("b", 1), ("ab", 1)]));
}

#[test]
fn frequency_update_conserves_counts() {
    let before = table(&[("a", 5), ("c", 2), ("</w>", 4)]);
    let total_before: u32 = before.iter().map(|f| f.freq).sum();
    let after = update_frequency_table(before, &"a".to_string(), &"a".to_string(), 2);
    let merged = after.last().unwrap();
    assert_eq!((merged.token.as_str(), merged.freq), ("aa", 2));
    let rest: u32 = after[..after.len() - 1].iter().map(|f| f.freq).sum();
    assert_eq!(rest, total_before - 2);
    assert_eq!(merged.freq, total_before - rest);
}

#[test]
fn vocabulary_stays_within_the_target() {
    let text = lines(&[
        &["the", "quick", "brown", "fox", "jumps", "over", "the", "lazy", "dog"],
        &["the", "dog", "sleeps", "and", "the", "fox", "runs"],
        &["a", "lazy", "afternoon", "for", "the", "brown", "dog"],
    ]);
    for n in [0u8, 30, 52, 60, 80] {
        let vocab = bpe_training(text.clone(), n).unwrap();
        let limit = if n < 52 { 52 } else { n as usize };
        assert!(vocab.len() <= limit);
    }
}

#[test]
fn vocabulary_reaches_a_small_target_exactly() {
    let text = lines(&[&["low", "lower", "newest", "widest", "low", "newest", "newest"]]);
    let (t, _) = init_vocab_corpus(text.clone()).unwrap();
    assert_eq!(t.len(), 11);
    let vocab = bpe_training(text.clone(), 60).unwrap();
    assert!(vocab.len() <= 60);
    let distinct: std::collections::HashSet<&String> = vocab.iter().collect();
    assert_eq!(distinct.len(), vocab.len());
}

#[test]
fn training_is_idempotent_when_the_characters_reach_the_target() {
    let word = "abcdefghijklmnopqrstuvwxyz0123456789!#$%&*+-=?@^_~.,;:";
    let text = lines(&[&[word, word]]);
    let (t, _) = init_vocab_corpus(text.clone()).unwrap();
    assert_eq!(t.len(), 55);
    let chars: Vec<String> = t.iter().map(|f| f.token.clone()).collect();
    assert_eq!(bpe_training(text.clone(), 52).unwrap(), chars);
    assert_eq!(bpe_training(text, 55).unwrap(), chars);
}

#[test]
fn training_is_deterministic() {
    let text = lines(&[&["banana", "bandana", "cabana"], &["ananas", "banana"]]);
    let first = bpe_training(text.clone(), 52).unwrap();
    let second = bpe_training(text, 52).unwrap();
    assert_eq!(first, second);
    let regrouped = lines(&[&["banana"], &["bandana", "cabana", "ananas"], &["banana"]]);
    assert_eq!(bpe_training(regrouped, 52).unwrap(), first);
}

#[test]
fn training_merges_frequent_pairs_first() {
    let text = lines(&[&["ab", "ab", "ab", "cd"]]);
    let (t, c) = init_vocab_corpus(text.clone()).unwrap();
    let vocab = train_vocabulary(t, c, 52);
    assert_eq!(vocab, strings(&["ab</w>", "cd</w>"]));
    assert_eq!(bpe_training(text, 52).unwrap(), vocab);
}

#[test]
fn training_lowercases_its_input() {
    let vocab = bpe_training(lines(&[&["XY"]]), 52).unwrap();
    assert_eq!(vocab, strings(&["xy</w>"]));
}

#[test]
fn frequency_update_keeps_other_entries_at_zero() {
    let t = table(&[("x", 0), ("a", 5)]);
    let u = update_frequency_table(t, &"a".to_string(), &"b".to_string(), 1);
    assert_eq!(table_pairs(&u), owned_pairs(&[("x", 0), ("a", 4), ("ab", 1)]));
}

#[test]
fn frequency_update_replaces_an_old_merged_token() {
    let t = table(&[("ab", 9), ("a", 2), ("b", 3), ("c", 1)]);
    let u = update_frequency_table(t, &"a".to_string(), &"b".to_string(), 2);
    assert_eq!(table_pairs(&u), owned_pairs(&[("b", 1), ("c", 1), ("ab", 2)]));
}

#[test]
fn frequency_update_with_two_constituents_removes_twice_the_count() {
    let before = table(&[("a", 4), ("b", 3), ("c", 2)]);
    let after = update_frequency_table(before, &"a".to_string(), &"b".to_string(), 3);
    assert_eq!(table_pairs(&after), owned_pairs(&[("a", 1), ("c", 2), ("ab", 3)]));
    let rest: u32 = after[..after.len() - 1].iter().map(|f| f.freq).sum();
    assert_eq!(rest, 9 - 2 * 3);
}

#[test]
fn pair_counts_reach_large_word_counts() {
    let corpus = vec![WordCount { word: strings(&["a", "b"]), count: 3_000_000_000 }];
    let (a, b, n) = get_max_freq_bigram(&corpus).unwrap();
    assert_eq!((a.as_str(), b.as_str(), n), ("a", "b", 3_000_000_000));
    let (t, c) = (table(&[("a", 1), ("b", 1)]), corpus);
    assert_eq!(train_vocabulary(t, c, 52), strings(&["ab"]));
}

#[test]
fn builder_counts_lowercased_words() {
    let (t, c) = build_vocab_corpus(strings(&["aaab"])).unwrap();
    assert_eq!(table_pairs(&t), owned_pairs(&[("a", 3), ("b", 1), ("</w>", 1)]));
    assert_eq!(c.len(), 1);
    assert_eq!(c[0].word, strings(&["a", "a", "a", "b", "</w>"]));
    assert_eq!(c[0].count, 1);
    let (t, _) = build_vocab_corpus(strings(&["AB"])).unwrap();
    assert_eq!(table_pairs(&t), owned_pairs(&[("A", 1), ("B", 1), ("</w>", 1)]));
    assert_eq!(build_vocab_corpus(Vec::new()).map(|(t, c)| (t.len(), c.len())), Some((0, 0)));
}
