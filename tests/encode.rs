use text_oxidizer::bpe_encoding;

fn records(items: &[&[&str]]) -> Vec<Vec<String>> {
    items
        .iter()
        .map(|r| r.iter().map(|s| s.to_string()).collect())
        .collect()
}

fn strings(items: &[&str]) -> Vec<String> {
    items.iter().map(|s| s.to_string()).collect()
}

#[test]
fn encoding_prefers_the_longest_token() {
    let vocab = records(&[&["a"], &["ab"], &["abc</w>"], &["</w>"]]);
    let out = bpe_encoding(records(&[&["abc", "ab", "a"]]), vocab);
    assert_eq!(out, vec![strings(&["abc</w>", "ab", "</w>", "a", "</w>"])]);
}

#[test]
fn encoding_does_not_depend_on_vocabulary_order() {
    let vocab = records(&[&["abc</w>"], &["ab"], &["a"], &["</w>"]]);
    let out = bpe_encoding(records(&[&["abc", "ab"]]), vocab);
    assert_eq!(out, vec![strings(&["abc</w>", "ab", "</w>"])]);
}

#[test]
fn unknown_spans_become_one_placeholder() {
    let vocab = records(&[&["ab"], &["c</w>"]]);
    let out = bpe_encoding(records(&[&["abxyc"]]), vocab);
    assert_eq!(out, vec![strings(&["ab", "</unknown>", "c</w>"])]);
}

#[test]
fn uncovered_word_end_is_unknown() {
    let vocab = records(&[&["a"], &["ab"]]);
    let out = bpe_encoding(records(&[&["abd"], &["zz"]]), vocab);
    assert_eq!(
        out,
        vec![strings(&["ab", "</unknown>"]), strings(&["</unknown>"])]
    );
}

#[test]
fn two_field_records_are_whole_words() {
    let vocab = records(&[&["ab", "x"], &[], &["c"]]);
    let out = bpe_encoding(records(&[&["ab", "abc"]]), vocab);
    assert_eq!(out, vec![strings(&["ab</w>", "</unknown>", "c", "</unknown>"])]);
}

#[test]
fn encoding_keeps_lines_apart() {
    let vocab = records(&[&["a</w>"], &["b</w>"]]);
    let out = bpe_encoding(records(&[&["a"], &[], &["b", "a"]]), vocab);
    assert_eq!(
        out,
        vec![strings(&["a</w>"]), Vec::new(), strings(&["b</w>", "a</w>"])]
    );
}

#[test]
fn encoding_with_empty_vocabulary_marks_every_word_unknown() {
    let out = bpe_encoding(records(&[&["hi", "yo"]]), Vec::new());
    assert_eq!(out, vec![strings(&["</unknown>", "</unknown>"])]);
}
