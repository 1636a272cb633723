use markov_chain::report::decimal;
use markov_chain::Chain;

fn words(line: &str) -> Vec<String> {
    line.split_whitespace().map(String::from).collect()
}

#[test]
fn decimal_writes_digits() {
    assert_eq!(decimal(0), "0");
    assert_eq!(decimal(7), "7");
    assert_eq!(decimal(9), "9");
    assert_eq!(decimal(10), "10");
    assert_eq!(decimal(105), "105");
    assert_eq!(decimal(1234567890), "1234567890");
    assert_eq!(decimal(usize::MAX), usize::MAX.to_string());
}

#[test]
fn dump_of_an_unfed_chain() {
    let chain = Chain::new(2);
    assert_eq!(chain.dump(), "Chain: [\n]");
    assert_eq!(chain.frase_start_dump(), "");
}

#[test]
fn dump_lists_contexts_with_their_followers() {
    let mut chain = Chain::new(2);
    chain.feed(words("I love cats"));
    assert_eq!(chain.dump(), "Chain: [\n\t[\"I\", \"love\"]:\n\t\tcats: 1\n]");
    chain.feed(words("I love dogs too"));
    for _ in 0..11 {
        chain.feed(words("I love cats"));
    }
    assert_eq!(
        chain.dump(),
        "Chain: [\n\t[\"I\", \"love\"]:\n\t\tcats: 12\n\t\tdogs: 1\n\
         \t[\"love\", \"dogs\"]:\n\t\ttoo: 1\n]"
    );
}

#[test]
fn dump_matches_the_formatting_of_the_standard_library() {
    let mut chain = Chain::new(1);
    chain.feed(vec!["say".to_string(), "\"hi\"".to_string(), "tab\there".to_string()]);
    let mut expected = String::from("Chain: [\n");
    expected += &format!("\t{:?}:\n", vec!["say".to_string()]);
    expected += &format!("\t\t{}: {}\n", "\"hi\"", 1);
    expected += &format!("\t{:?}:\n", vec!["\"hi\"".to_string()]);
    expected += &format!("\t\t{}: {}\n", "tab\there", 1);
    expected += "]";
    assert_eq!(chain.dump(), expected);
}

#[test]
fn frase_start_dump_lists_openings_with_their_counts() {
    let mut chain = Chain::new(2);
    chain.feed(words("I love cats"));
    chain.feed(words("I hate cats"));
    chain.feed(words("I love dogs"));
    assert_eq!(chain.frase_start_dump(), "[\"I\", \"love\"]: 2\n[\"I\", \"hate\"]: 1\n");
}
