use markov_chain::{tokenize, Chain};
use std::collections::HashMap;

fn words(line: &str) -> Vec<String> {
    line.split_whitespace().map(String::from).collect()
}

fn transitions(chain: &Chain) -> HashMap<Vec<String>, HashMap<String, usize>> {
    let mut map = HashMap::new();
    let mut i = 0;
    while let Some((context, table)) = chain.transition(i) {
        let mut followers = HashMap::new();
        let mut j = 0;
        while let Some((word, count)) = table.entry(j) {
            followers.insert(word.clone(), count);
            j += 1;
        }
        assert_eq!(followers.len(), table.len());
        map.insert(context.clone(), followers);
        i += 1;
    }
    assert_eq!(map.len(), chain.contexts());
    map
}

fn starts(chain: &Chain) -> HashMap<Vec<String>, usize> {
    let mut map = HashMap::new();
    let table = chain.starts();
    let mut i = 0;
    while let Some((phrase, count)) = table.entry(i) {
        map.insert(phrase.clone(), count);
        i += 1;
    }
    assert_eq!(map.len(), table.len());
    map
}

#[test]
fn feed() {
    let mut chain = Chain::new(2);
    chain.feed("I love cats".split_whitespace().map(String::from).collect());

    let mut hash = HashMap::new();
    hash.insert(String::from("cats"), 1);

    let mut result = HashMap::new();
    result.insert(vec!["I".to_string(), "love".to_string()], hash);

    assert_eq!(result, transitions(&chain));
}

#[test]
fn new_chain_is_empty() {
    let chain = Chain::new(3);
    assert_eq!(chain.order(), 3);
    assert_eq!(chain.observations(), 0);
    assert_eq!(chain.contexts(), 0);
    assert!(chain.transition(0).is_none());
    assert!(chain.starts().is_empty());
    assert_eq!(chain.starts().len(), 0);
}

#[test]
fn feed_counts_one_sighting_per_window() {
    let mut chain = Chain::new(2);
    chain.feed(words("the cat sat on the mat"));
    assert_eq!(chain.observations(), 4);
    assert_eq!(chain.contexts(), 4);
    assert_eq!(chain.count(&words("the cat"), &"sat".to_string()), 1);
    assert_eq!(chain.count(&words("cat sat"), &"on".to_string()), 1);
    assert_eq!(chain.count(&words("sat on"), &"the".to_string()), 1);
    assert_eq!(chain.count(&words("on the"), &"mat".to_string()), 1);
    assert_eq!(chain.count(&words("the mat"), &"the".to_string()), 0);
    assert_eq!(chain.count(&words("the cat"), &"on".to_string()), 0);
}

#[test]
fn feed_records_the_first_context_as_an_opening() {
    let mut chain = Chain::new(2);
    chain.feed(words("the cat sat on the mat"));
    let mut expected = HashMap::new();
    expected.insert(words("the cat"), 1);
    assert_eq!(expected, starts(&chain));
    assert_eq!(chain.start_count(&words("the cat")), 1);
    assert_eq!(chain.start_count(&words("cat sat")), 0);
    chain.feed(words("the cat ran"));
    chain.feed(words("a dog ran"));
    assert_eq!(chain.start_count(&words("the cat")), 2);
    assert_eq!(chain.start_count(&words("a dog")), 1);
    assert_eq!(chain.starts().len(), 2);
}

#[test]
fn feed_ignores_lines_without_a_window() {
    let mut chain = Chain::new(2);
    chain.feed(Vec::new());
    chain.feed(words("alone"));
    chain.feed(words("two words"));
    assert_eq!(chain.observations(), 0);
    assert_eq!(chain.contexts(), 0);
    assert!(chain.starts().is_empty());
    chain.feed(words("now three words"));
    assert_eq!(chain.observations(), 1);
    assert_eq!(chain.start_count(&words("now three")), 1);
}

#[test]
fn same_pair_fed_many_times_counts_each_time() {
    let mut chain = Chain::new(2);
    for k in 1..=25 {
        chain.feed(words("I love cats"));
        assert_eq!(chain.count(&words("I love"), &"cats".to_string()), k);
        assert_eq!(chain.start_count(&words("I love")), k);
        assert_eq!(chain.observations(), k);
    }
    assert_eq!(chain.contexts(), 1);
}

#[test]
fn counts_add_up_within_a_line_and_across_lines() {
    let mut chain = Chain::new(1);
    chain.feed(words("a b a b a c"));
    assert_eq!(chain.count(&words("a"), &"b".to_string()), 2);
    assert_eq!(chain.count(&words("a"), &"c".to_string()), 1);
    assert_eq!(chain.count(&words("b"), &"a".to_string()), 2);
    assert_eq!(chain.observations(), 5);
    chain.feed(words("a b"));
    assert_eq!(chain.count(&words("a"), &"b".to_string()), 3);
    assert_eq!(chain.observations(), 6);
    assert_eq!(chain.start_count(&words("a")), 2);
    assert_eq!(chain.contexts(), 2);
}

#[test]
fn contexts_keep_the_order_of_arrival() {
    let mut chain = Chain::new(1);
    chain.feed(words("x y z x"));
    let (first, _) = chain.transition(0).unwrap();
    let (second, _) = chain.transition(1).unwrap();
    let (third, table) = chain.transition(2).unwrap();
    assert_eq!(first, &words("x"));
    assert_eq!(second, &words("y"));
    assert_eq!(third, &words("z"));
    assert_eq!(table.entry(0), Some((&"x".to_string(), 1)));
    assert!(chain.transition(3).is_none());
}

#[test]
fn count_of_a_context_of_the_wrong_length_is_zero() {
    let mut chain = Chain::new(2);
    chain.feed(words("I love cats"));
    assert_eq!(chain.count(&words("I"), &"love".to_string()), 0);
    assert_eq!(chain.count(&words("I love cats"), &"cats".to_string()), 0);
    assert_eq!(chain.start_count(&words("I")), 0);
}

#[test]
fn feed_text_feeds_every_line() {
    let text = "I love cats\n\nI hate cats\r\n   \nshort\nthe cat sat\ton the mat";
    let mut by_text = Chain::new(2);
    by_text.feed_text(text);

    let mut by_line = Chain::new(2);
    for line in text.lines().filter(|line| !line.is_empty()) {
        by_line.feed(line.split_whitespace().map(String::from).collect());
    }
    assert_eq!(transitions(&by_line), transitions(&by_text));
    assert_eq!(starts(&by_line), starts(&by_text));
    assert_eq!(by_text.observations(), 6);
    assert_eq!(by_text.count(&words("I love"), &"cats".to_string()), 1);
    assert_eq!(by_text.count(&words("I hate"), &"cats".to_string()), 1);
    assert_eq!(by_text.count(&words("cats I"), &"hate".to_string()), 0);
    assert_eq!(by_text.start_count(&words("the cat")), 1);
}

#[test]
fn feed_text_learns_nothing_across_a_line_end() {
    let mut chain = Chain::new(1);
    chain.feed_text("a b\nc d\n");
    assert_eq!(chain.count(&words("a"), &"b".to_string()), 1);
    assert_eq!(chain.count(&words("c"), &"d".to_string()), 1);
    assert_eq!(chain.count(&words("b"), &"c".to_string()), 0);
    assert_eq!(chain.observations(), 2);
    assert_eq!(chain.start_count(&words("a")), 1);
    assert_eq!(chain.start_count(&words("c")), 1);
}

#[test]
fn feed_text_of_nothing_changes_nothing() {
    let mut chain = Chain::new(1);
    chain.feed_text("");
    chain.feed_text("\n\n\r\n");
    assert_eq!(chain.observations(), 0);
    assert_eq!(chain.contexts(), 0);
}

#[test]
fn tokenize_splits_at_white_space() {
    assert_eq!(tokenize("I love cats"), words("I love cats"));
    assert_eq!(tokenize("  two\t\twords  "), vec!["two".to_string(), "words".to_string()]);
    assert_eq!(tokenize(""), Vec::<String>::new());
    assert_eq!(tokenize(" \t "), Vec::<String>::new());
    assert_eq!(tokenize("one"), vec!["one".to_string()]);
    assert_eq!(tokenize("cats ."), vec!["cats".to_string(), ".".to_string()]);
}

#[test]
fn tokenize_agrees_with_the_standard_library() {
    let lines = [
        "na\u{00a0}\u{2003}ve caf\u{e9} \u{3000}z",
        "tab\tand\u{000b}more\u{000c}here",
        "\u{feff}mark stays",
        "a\rb",
    ];
    for line in lines {
        assert_eq!(tokenize(line), words(line));
    }
    assert_eq!(tokenize("a\u{00a0}b"), vec!["a".to_string(), "b".to_string()]);
}
