use text_oxidizer::{output_file_name, tokenize_line, tokenize_line_alphas_lowercase, tokenize_reader};

#[test]
fn test_tokenize_line() {
    let outvec = tokenize_line("Test line, should be bee's knees!");
    let compvec = ["Test", "line", ",", "should", "be", "bee's", "knees", "!"];

    assert_eq!(outvec.len(), compvec.len());

    for i in 0..outvec.len() {
        assert_eq!(outvec[i], compvec[i]);
    }
}

#[test]
fn test_tokenize_reader() {
    let lines = vec![
        "target,line".to_string(),
        r#"a,"Test, this is.""#.to_string(),
        "b,second line".to_string(),
    ];
    let line = [
        "target", ",", "line", "a", ",", r#"""#, "Test", ",", "this", "is", ".", r#"""#, "b", ",",
        "second", "line",
    ];

    let outvec = tokenize_reader(lines);

    assert_eq!(line.len(), outvec.len());

    for i in 0..line.len() {
        assert_eq!(line[i], outvec[i]);
    }
}

#[test]
fn numbers_and_marks_are_tokens() {
    assert_eq!(
        tokenize_line("Route 66: 100% (fun)"),
        vec!["Route", "66", ":", "100", "%", "fun", ")"]
    );
    assert!(tokenize_line("").is_empty());
}

#[test]
fn alpha_tokens_are_lowercase_words() {
    assert_eq!(
        tokenize_line_alphas_lowercase("Hello, World! It's 42 O'Neil"),
        vec!["hello", "world", "it's", "o'neil"]
    );
    assert!(tokenize_line_alphas_lowercase("123 ...").is_empty());
}

#[test]
fn csv_inputs_name_text_outputs() {
    assert_eq!(output_file_name("BPE-VOCAB-", "tweets.csv"), "BPE-VOCAB-tweets.txt");
    assert_eq!(output_file_name("BPE-VOCAB-", "notes.txt"), "BPE-VOCAB-notes.txt");
    assert_eq!(output_file_name("P-", "csv"), "P-csv");
    assert_eq!(output_file_name("P-", ".csv"), "P-.txt");
}
