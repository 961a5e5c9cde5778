use vextractor::vex::Vextract;

fn sorted(x: &Vextract) -> Vec<String> {
    x.get_sorted_vocab()
}

#[test]
fn mixed_text_scenario() {
    let x = Vextract::from_text(
        "Hello world. EU says HELLO.\nFrance 2020!",
        vec!["EU"],
        vec!["France"],
    );
    assert_eq!(sorted(&x), vec!["EU", "France", "hello", "says", "world"]);
    assert_eq!(x.get_len(), 5);
    assert_eq!(x.text, "Hello world. EU says HELLO.\nFrance 2020!");
}

#[test]
fn added_punctuation_is_stripped_on_rerun() {
    let mut x = Vextract::from_text("你好。 世界", vec![], vec![]);
    assert!(x.get_vocab().contains(&"你好。".to_string()));
    x.add_punctuation("。");
    assert!(x.get_vocab().contains(&"你好。".to_string()));
    x.pstrip();
    let v = sorted(&x);
    assert!(v.contains(&"你好".to_string()));
    assert!(!v.contains(&"你好。".to_string()));
    assert_eq!(v.len(), 2);
}

#[test]
fn empty_text_gives_empty_vocabulary() {
    let x = Vextract::from_text("", vec![], vec![]);
    assert_eq!(x.get_vocab(), Vec::<String>::new());
    assert_eq!(x.get_len(), 0);
    assert_eq!(x.get_pretty_vocab(), "");
    assert_eq!(x.get_sorted_pretty_vocab(), "");
}

#[test]
fn single_newline_gives_the_empty_word() {
    let x = Vextract::from_text("\n", vec![], vec![]);
    assert_eq!(x.get_vocab(), vec![String::new()]);
    assert_eq!(x.get_len(), 1);
    assert_eq!(x.get_pretty_vocab(), "\n");
}

#[test]
fn stripping_twice_changes_nothing() {
    let mut x = Vextract::from_text("(a) \"b,\" c.. -d- e.g.", vec!["e.g."], vec![]);
    let once = sorted(&x);
    assert_eq!(once, vec!["a", "b", "c", "d", "e.g."]);
    x.pstrip();
    assert_eq!(sorted(&x), once);
    x.pstrip();
    assert_eq!(sorted(&x), once);
}

#[test]
fn acronyms_keep_case_and_punctuation() {
    let x = Vextract::from_text("U.S.A. said i.e. NATO", vec!["U.S.A.", "i.e.", "NATO"], vec![]);
    assert_eq!(sorted(&x), vec!["NATO", "U.S.A.", "i.e.", "said"]);
}

#[test]
fn proper_nouns_keep_case_but_lose_punctuation() {
    let x = Vextract::from_text("Paris, Paris Berlin.", vec![], vec!["Paris", "Berlin"]);
    assert_eq!(sorted(&x), vec!["Berlin", "Paris"]);
}

#[test]
fn other_words_are_lowercased() {
    let x = Vextract::from_text("ÄPFEL Straße ΣΟΦΙΑ MiXeD", vec![], vec![]);
    let v = sorted(&x);
    assert_eq!(v, vec!["mixed", "straße", "äpfel", "σοφια"]);
    for w in v {
        assert!(!w.chars().any(|c| c.is_uppercase()));
    }
}

#[test]
fn numbers_are_dropped() {
    let x = Vextract::from_text(
        "42 3.14 -7 +1e5 2E-3 .5 6. inf -Infinity NaN covid19 1e 1.2.3 e5 1_000",
        vec![],
        vec![],
    );
    assert_eq!(sorted(&x), vec!["1.2.3", "1_000", "1e", "covid19", "e5"]);
}

#[test]
fn sorted_vocab_is_a_sorted_permutation() {
    let x = Vextract::from_text("pear apple fig banana apple Zebra", vec![], vec!["Zebra"]);
    let mut plain = x.get_vocab();
    let s = x.get_sorted_vocab();
    assert_eq!(s, vec!["Zebra", "apple", "banana", "fig", "pear"]);
    plain.sort();
    assert_eq!(plain, s);
}

#[test]
fn sorting_reorders_the_vocabulary() {
    let x = Vextract::from_text("b a", vec![], vec![]);
    assert_eq!(x.get_vocab(), vec!["b", "a"]);
    assert_eq!(x.get_sorted_vocab(), vec!["a", "b"]);
    assert_eq!(x.get_pretty_vocab(), "b\na\n");
    assert_eq!(x.get_sorted_pretty_vocab(), "a\nb\n");
}

#[test]
fn leading_punctuation_is_removed_everywhere_in_the_token() {
    let x = Vextract::from_text("'rock'n'roll (x)y", vec![], vec![]);
    assert_eq!(sorted(&x), vec!["rocknroll", "x)y"]);
}

#[test]
fn delimiters_give_empty_words() {
    let x = Vextract::from_text("a  b\n\n...", vec![], vec![]);
    assert_eq!(sorted(&x), vec!["", "a", "b"]);
    assert_eq!(x.get_len(), 3);
}

#[test]
fn tabs_do_not_separate_tokens() {
    let x = Vextract::from_text("a\tb", vec![], vec![]);
    assert_eq!(x.get_vocab(), vec!["a\tb"]);
}

#[test]
fn pretty_vocab_has_one_line_per_word() {
    let x = Vextract::from_text("Dog dog DOG cat", vec![], vec![]);
    assert_eq!(x.get_len(), 2);
    assert_eq!(x.get_sorted_pretty_vocab(), "cat\ndog\n");
    assert_eq!(x.get_pretty_vocab().lines().count(), 2);
}
