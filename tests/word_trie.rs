use lexicon::{step_trie, LetterCounts, Node, Path, WordTrie};
use std::collections::VecDeque;

fn trie_of(words: &[&str]) -> WordTrie {
    let mut trie = WordTrie::default();
    words.iter().for_each(|word| trie.insert(word));
    trie
}

#[test]
fn word_trie_test_insert() {
    let test_word = "radar";
    let mut trie = WordTrie::default();

    trie.insert(test_word);

    let mut current_node = trie.root();
    for ch in test_word.chars() {
        let child = current_node.get_child(ch);
        assert!(child.is_some(), "should have a child `{}` character", ch);
        current_node = child.unwrap();
    }
    assert!(current_node.is_word);
}

#[test]
fn word_trie_test_get_words() {
    let trie = trie_of(&["rad", "radar", "radical", "radiation", "dart"]);

    assert_eq!(trie.get_words_sorted("radar"), ["rad", "radar"]);
    assert_eq!(trie.get_words_sorted("radart"), ["dart", "rad", "radar"]);
}

#[test]
fn word_trie_test_handle_wildcards() {
    let trie = trie_of(&["cam", "cab", "cams", "cabs"]);

    assert_eq!(trie.get_words_sorted("ca*"), ["cab", "cam"]);
    assert_eq!(trie.get_words_sorted("*ca"), ["cab", "cam"]);
    assert_eq!(trie.get_words_sorted("c*a"), ["cab", "cam"]);
    assert_eq!(
        trie.get_words_sorted("ca**"),
        ["cab", "cabs", "cam", "cams"]
    );
}

#[test]
fn test_get_words_filtered() {
    let trie = trie_of(&[
        "carbon", "car", "dart", "cam", "cart", "fart", "crime", "com", "rad", "radar",
    ]);

    assert_eq!(
        trie.get_word_matches_sorted("carbont", "car.*")
            .expect("a valid regex"),
        ["car", "carbon", "cart"]
    );

    assert_eq!(
        trie.get_word_matches_sorted("cartf", ".*art")
            .expect("a valid regex"),
        ["cart", "fart"]
    );

    // The pattern must match the whole word: "crime" does not end in "m".
    assert_eq!(
        trie.get_word_matches_sorted("crimea", "c.*m")
            .expect("a valid regex"),
        ["cam"]
    );

    assert_eq!(
        trie.get_word_matches_sorted("crimea*", "c.{1}m")
            .expect("a valid regex"),
        ["cam", "com"]
    );

    assert_eq!(
        trie.get_word_matches_sorted("radart", "^r.*$")
            .expect("a valid regex"),
        ["rad", "radar"]
    );
}

#[test]
fn test_append_word_to_node() {
    let mut root = Node::default();

    root.append_word("car");

    let expected = Node {
        is_word: false,
        children: vec![(
            'c',
            Node {
                children: vec![(
                    'a',
                    Node {
                        children: vec![(
                            'r',
                            Node {
                                children: vec![],
                                is_word: true,
                            },
                        )],
                        is_word: false,
                    },
                )],
                is_word: false,
            },
        )],
    };
    assert_eq!(root, expected);
}

fn counts_of(pairs: &[(char, usize)]) -> LetterCounts {
    let mut counts = LetterCounts::new();
    for (c, n) in pairs {
        counts.set_count(*c, *n);
    }
    counts
}

#[test]
fn test_step_trie() {
    let mut root = Node::default();
    root.append_word("car");
    root.append_word("cab");

    let initial_path = Path {
        node: &root,
        remaining_letters: counts_of(&[('c', 1), ('a', 1), ('*', 1)]),
        word_buf: "".to_string(),
    };

    let mut paths = VecDeque::new();
    step_trie(&initial_path, &mut paths);

    let expected_paths = [Path {
        node: root.get_child('c').unwrap(),
        remaining_letters: counts_of(&[('a', 1), ('*', 1)]),
        word_buf: "c".to_string(),
    }];
    for expected_path in expected_paths.iter() {
        assert!(
            paths.contains(expected_path),
            "missing expected path: {:?}\ncalulated paths: {:#?}",
            expected_path,
            paths,
        );
    }
}

#[test]
fn step_trie_wildcard_reaches_every_child() {
    let mut root = Node::default();
    root.append_word("car");
    root.append_word("cab");
    root.append_word("dab");

    let initial_path = Path {
        node: &root,
        remaining_letters: counts_of(&[('*', 1)]),
        word_buf: "".to_string(),
    };
    let mut paths = VecDeque::new();
    step_trie(&initial_path, &mut paths);

    let words: Vec<String> = paths.iter().map(|p| p.word_buf.clone()).collect();
    assert_eq!(words, ["c", "d"]);
    assert!(paths.iter().all(|p| p.remaining_letters == LetterCounts::new()));
}

#[test]
fn step_trie_without_tokens_pushes_nothing() {
    let mut root = Node::default();
    root.append_word("car");
    let initial_path = root.start_path(LetterCounts::new());
    let mut paths = VecDeque::new();
    step_trie(&initial_path, &mut paths);
    assert!(paths.is_empty());
}

#[test]
fn insert_folds_case() {
    let trie = trie_of(&["RaDaR"]);
    assert_eq!(trie.get_words_sorted("radar"), ["radar"]);
    assert!(trie.root().get_child('R').is_none());
}

#[test]
fn query_folds_case_and_drops_other_characters() {
    let trie = trie_of(&["rad", "radar"]);
    assert_eq!(trie.get_words_sorted("R a-D!"), ["rad"]);
    assert_eq!(trie.get_words_sorted("RADAR"), ["rad", "radar"]);
}

#[test]
fn empty_query_and_empty_dictionary() {
    let trie = trie_of(&["a", "ab"]);
    assert!(trie.get_words("").is_empty());
    let empty = WordTrie::default();
    assert!(empty.get_words("abc**").is_empty());
}

#[test]
fn wildcard_and_literal_give_each_word_once() {
    let trie = trie_of(&["a", "aa"]);
    assert_eq!(trie.get_words("a*"), ["a", "aa"]);
    assert_eq!(trie.get_words("**"), ["a", "aa"]);
}

#[test]
fn equal_letters_are_counted() {
    let trie = trie_of(&["aaa", "aa", "a"]);
    assert_eq!(trie.get_words_sorted("aa"), ["a", "aa"]);
    assert_eq!(trie.get_words_sorted("aaaa"), ["a", "aa", "aaa"]);
}

#[test]
fn invalid_pattern_is_an_error() {
    let trie = trie_of(&["car"]);
    assert!(trie.get_word_matches("car", "car(").is_err());
    assert!(trie.get_word_matches_sorted("car", "[").is_err());
}

#[test]
fn pattern_matches_whole_word_only() {
    let trie = trie_of(&["car", "cart", "scar"]);
    assert_eq!(
        trie.get_word_matches_sorted("scart", "car").expect("a valid regex"),
        ["car"]
    );
    assert_eq!(
        trie.get_word_matches_sorted("scart", "car|cart").expect("a valid regex"),
        ["car", "cart"]
    );
}

#[test]
fn frequency_map_counts_tokens() {
    let counts = lexicon::to_frequency_map("aA*b ?");
    assert_eq!(counts.count('a'), 2);
    assert_eq!(counts.count('b'), 1);
    assert_eq!(counts.count('*'), 1);
    assert_eq!(counts.count('?'), 0);
    assert_eq!(counts.count('A'), 0);
    assert_eq!(counts.tokens(), ['a', 'b', '*']);
}

#[test]
fn decrement_count_removes_one_token() {
    let counts = counts_of(&[('a', 2)]);
    let rest = lexicon::decrement_count(counts, &'a').expect("one is left");
    assert_eq!(rest.count('a'), 1);
    let rest = lexicon::decrement_count(rest, &'a').expect("one is left");
    assert_eq!(rest, LetterCounts::new());
    assert!(lexicon::decrement_count(rest, &'a').is_err());
}

#[test]
fn pattern_ending_in_a_verbose_comment_is_valid() {
    let trie = trie_of(&["car", "cart", "carb"]);
    assert!(lexicon::is_valid_regex("(?x)car#c"));
    assert_eq!(
        trie.get_word_matches_sorted("cartb", "(?x)car#c").expect("a valid regex"),
        ["car"]
    );
    assert_eq!(
        trie.get_word_matches_sorted("cartb", "(?x) car (t|b) # one more").expect("a valid regex"),
        ["carb", "cart"]
    );
}

#[test]
fn insert_adds_only_the_missing_nodes() {
    let mut trie = trie_of(&["cart"]);
    trie.insert("car");
    let mut expected = Node::default();
    expected.append_word("cart");
    expected.append_word("car");
    assert_eq!(trie.root(), &expected);
    let c = trie.root().get_child('c').unwrap();
    assert_eq!(c.children.len(), 1);
    let r = c.get_child('a').unwrap().get_child('r').unwrap();
    assert!(r.is_word);
    assert_eq!(r.children.len(), 1);
}
