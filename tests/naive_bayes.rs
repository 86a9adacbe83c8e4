use text_oxidizer::{bayes_preprocess, LineTarget, TokenOccurence};

fn line(target: &str, tokens: &[&str]) -> LineTarget {
    LineTarget {
        tokens: tokens.iter().map(|t| t.to_string()).collect(),
        target: target.to_string(),
    }
}

#[test]
fn test_bayes_preprocess() {
    let outvec = vec![line("a", &["test", "this", "is"]), line("b", &["second", "line"])];
    let target = "a";
    let (tokens, words) = bayes_preprocess(&outvec, target);

    let line_0 = ["test", "this", "is"];
    let line_1 = ["second", "line"];

    assert_eq!(tokens.len(), 5);
    assert_eq!(words.class_a, 3);
    assert_eq!(words.class_b, 2);

    for word in line_0 {
        assert_eq!(tokens.get(word).unwrap().class_a, 1);
        assert_eq!(tokens.get(word).unwrap().class_b, 0);
    }

    for word in line_1 {
        assert_eq!(tokens.get(word).unwrap().class_b, 1);
        assert_eq!(tokens.get(word).unwrap().class_a, 0);
    }
}

#[test]
fn repeated_tokens_count_in_both_classes() {
    let input = vec![
        line("pos", &["good", "day", "good"]),
        line("neg", &["bad", "day"]),
        line("pos", &["day"]),
    ];
    let (table, words) = bayes_preprocess(&input, "pos");
    assert_eq!(table.len(), 3);
    assert_eq!(table.get("good"), Some(TokenOccurence { class_a: 2, class_b: 0 }));
    assert_eq!(table.get("day"), Some(TokenOccurence { class_a: 2, class_b: 1 }));
    assert_eq!(table.get("bad"), Some(TokenOccurence { class_a: 0, class_b: 1 }));
    assert_eq!(table.get("sunny"), None);
    assert_eq!((words.class_a, words.class_b), (4, 2));
    let order: Vec<String> = (0..table.len()).map(|k| table.entry(k).0).collect();
    assert_eq!(order, vec!["good", "day", "bad"]);
}

#[test]
fn no_lines_give_an_empty_table() {
    let (table, words) = bayes_preprocess(&Vec::new(), "x");
    assert_eq!(table.len(), 0);
    assert_eq!((words.class_a, words.class_b), (0, 0));
}
