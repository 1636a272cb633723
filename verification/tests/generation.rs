use markov_chain::{fix_ponctuation, join, Chain};

fn words(line: &str) -> Vec<String> {
    line.split_whitespace().map(String::from).collect()
}

#[test]
fn generate() {
    let mut chain = Chain::new(2);
    chain.feed("I love cats".split_whitespace().map(String::from).collect());
    chain.feed("I hate cats".split_whitespace().map(String::from).collect());

    assert!(vec!["I love cats", "cats", "I hate cats"].contains(&&chain.generate()[..]));
}

#[test]
fn generate_stays_within_the_fed_sentences() {
    let mut chain = Chain::new(2);
    chain.feed(words("I love cats"));
    chain.feed(words("I hate cats"));
    let mut love = false;
    let mut hate = false;
    for _ in 0..500 {
        let text = chain.generate();
        assert!(text == "I love cats" || text == "I hate cats", "got {:?}", text);
        love = love || text == "I love cats";
        hate = hate || text == "I hate cats";
    }
    assert!(love && hate);
}

#[test]
fn generate_on_an_unfed_chain_is_empty() {
    let chain = Chain::new(2);
    assert_eq!(chain.generate(), "");
    let mut short = Chain::new(3);
    short.feed(words("too short here"));
    assert_eq!(short.generate(), "");
}

#[test]
fn generate_follows_a_single_sentence() {
    let mut chain = Chain::new(1);
    chain.feed(words("the quick brown fox"));
    for _ in 0..20 {
        assert_eq!(chain.generate(), "the quick brown fox");
    }
}

#[test]
fn generate_tidies_punctuation() {
    let mut chain = Chain::new(2);
    chain.feed(words("cats purr , dogs bark ."));
    for _ in 0..20 {
        assert_eq!(chain.generate(), "cats purr, dogs bark.");
    }
}

#[test]
fn generate_stops_at_the_cap_on_a_cycle() {
    let mut chain = Chain::new(1);
    chain.feed(words("a b a"));
    for _ in 0..5 {
        let text = chain.generate();
        let out: Vec<&str> = text.split(' ').collect();
        assert_eq!(out.len(), 1000);
        for (i, word) in out.iter().enumerate() {
            assert_eq!(*word, if i % 2 == 0 { "a" } else { "b" });
        }
    }
}

#[test]
fn generate_stops_at_the_cap_on_a_cycle_of_order_two() {
    let mut chain = Chain::new(2);
    chain.feed(words("x y x y"));
    let text = chain.generate();
    assert_eq!(text.split(' ').count(), 1000);
    assert!(text.starts_with("x y x y x y"));
}

#[test]
fn generate_may_leave_a_cycle_before_the_cap() {
    let mut chain = Chain::new(1);
    chain.feed(words("a b a end"));
    for _ in 0..50 {
        let text = chain.generate();
        let out: Vec<&str> = text.split(' ').collect();
        assert!(out.len() <= 1000);
        assert_eq!(out[0], "a");
        for pair in out.windows(2) {
            assert!(matches!((pair[0], pair[1]), ("a", "b") | ("b", "a") | ("a", "end")));
        }
        if out.len() < 1000 {
            assert_eq!(*out.last().unwrap(), "end");
        }
    }
}

#[test]
fn generate_with_an_opening_longer_than_the_cap_appends_nothing() {
    let order = 1001;
    let mut line: Vec<String> = (0..order).map(|_| "w".to_string()).collect();
    line.push("w".to_string());
    let mut chain = Chain::new(order);
    chain.feed(line);
    assert_eq!(chain.observations(), 1);
    let text = chain.generate();
    assert_eq!(text.split(' ').count(), order);
}

#[test]
fn join_puts_one_space_between_words() {
    assert_eq!(join(&words("I love cats")), "I love cats");
    assert_eq!(join(&vec!["one".to_string()]), "one");
    assert_eq!(join(&Vec::new()), "");
    assert_eq!(join(&vec!["".to_string(), "x".to_string(), "".to_string()]), " x ");
}

#[test]
fn punctuation_loses_the_space_before_it() {
    assert_eq!(fix_ponctuation("cats . cats !".to_string()), "cats. cats!");
    assert_eq!(fix_ponctuation("cats .".to_string()), "cats.");
    assert_eq!(fix_ponctuation("well , is it ? yes !".to_string()), "well, is it? yes!");
    assert_eq!(fix_ponctuation(" .".to_string()), ".");
    assert_eq!(fix_ponctuation(" . . .".to_string()), "...");
    assert_eq!(fix_ponctuation("a ; b : c".to_string()), "a ; b : c");
}

#[test]
fn tidy_text_is_left_alone() {
    let texts = [
        "cats. cats!",
        "",
        "no marks here",
        "a.b,c!d?",
        "trailing space ",
        "., ",
        "I love cats",
        "Hello, world!",
        " leading space",
        "two  spaces",
    ];
    for text in texts {
        assert_eq!(fix_ponctuation(text.to_string()), text);
    }
}

#[test]
fn tidying_twice_is_tidying_once_where_marks_have_one_space() {
    for text in ["cats . cats !", "a , b . c ? d !", " ."] {
        let once = fix_ponctuation(text.to_string());
        assert_eq!(fix_ponctuation(once.clone()), once);
    }
}

#[test]
fn only_the_space_next_to_the_mark_goes() {
    assert_eq!(fix_ponctuation("cats  .".to_string()), "cats .");
    assert_eq!(fix_ponctuation("a   !".to_string()), "a  !");
}

#[test]
fn punctuation_agrees_with_replacing_each_mark_in_turn() {
    let texts = [
        "cats . cats !",
        "  . ,  ! ?? ,.",
        " , . ! ?",
        "a .b ,c !d ?e",
        ". , ! ?",
        "x  ,  y",
        "\u{e9}t\u{e9} . fin !",
    ];
    for text in texts {
        let expected =
            text.replace(" .", ".").replace(" !", "!").replace(" ?", "?").replace(" ,", ",");
        assert_eq!(fix_ponctuation(text.to_string()), expected);
    }
}
