use lexicon::{ScoreTable, ScoredWordTrie, WordTrie};

fn scored_trie(words: &[&str], scores: Vec<(char, u8)>) -> ScoredWordTrie {
    let mut word_trie = WordTrie::default();
    words.iter().for_each(|word| word_trie.insert(word));
    ScoredWordTrie {
        word_trie,
        score_map: ScoreTable::from_pairs(scores),
    }
}

#[test]
fn test_get_words_with_score() {
    let word_trie = scored_trie(
        &["rad", "radar", "radical", "radiation", "dart"],
        vec![('r', 1), ('t', 2), ('d', 3)],
    );

    assert_eq!(
        word_trie
            .get_words("radart")
            .into_iter()
            .collect::<Vec<_>>(),
        [
            ("dart".to_string(), 6u8),
            ("radar".to_string(), 5u8),
            ("rad".to_string(), 4u8),
        ]
    );
}

#[test]
fn test_get_word_matches() {
    let word_trie = scored_trie(
        &["rad", "radar", "radical", "radiation", "dart"],
        vec![('r', 1), ('t', 2), ('d', 3)],
    );

    assert_eq!(
        word_trie
            .get_word_matches("radart", "^r.*$")
            .expect("a valid regex")
            .into_iter()
            .collect::<Vec<_>>(),
        [("radar".to_string(), 5u8), ("rad".to_string(), 4u8),]
    );
}

#[test]
fn equal_scores_are_in_lexicographic_order() {
    let word_trie = scored_trie(&["ba", "ab", "b", "a"], vec![('a', 1), ('b', 1)]);
    assert_eq!(
        word_trie.get_words("ab"),
        [
            ("ab".to_string(), 2u8),
            ("ba".to_string(), 2u8),
            ("a".to_string(), 1u8),
            ("b".to_string(), 1u8),
        ]
    );
}

#[test]
fn ranking_twice_gives_the_same_sequence() {
    let word_trie = scored_trie(&["cab", "cam", "cabs", "cams", "ab"], vec![('c', 2), ('s', 2)]);
    assert_eq!(word_trie.get_words("ca**"), word_trie.get_words("ca**"));
}

#[test]
fn score_sums_letters_and_saturates() {
    let word_trie = scored_trie(&[], vec![('a', 200), ('b', 7), ('b', 9)]);
    assert_eq!(word_trie.calculate_score("b"), 9);
    assert_eq!(word_trie.calculate_score("bxb"), 18);
    assert_eq!(word_trie.calculate_score(""), 0);
    assert_eq!(word_trie.calculate_score("aa"), 255);
}

#[test]
fn score_table_lookup() {
    let mut table = ScoreTable::new();
    table.insert('q', 10);
    table.insert('z', 10);
    table.insert('q', 8);
    assert_eq!(table.get('q'), Some(8));
    assert_eq!(table.get('z'), Some(10));
    assert_eq!(table.get('e'), None);
}

#[test]
fn scored_invalid_pattern_is_an_error() {
    let word_trie = scored_trie(&["rad"], vec![('r', 1)]);
    assert!(word_trie.get_word_matches("rad", "(").is_err());
}

#[test]
fn empty_pattern_means_no_filter() {
    let word_trie = scored_trie(
        &["rad", "radar", "dart"],
        vec![('r', 1), ('t', 2), ('d', 3)],
    );
    assert_eq!(
        word_trie.ranked_words("radart", "").expect("no pattern"),
        word_trie.get_words("radart")
    );
    assert_eq!(
        word_trie.ranked_words("radart", "d.*").expect("a valid regex"),
        [("dart".to_string(), 6u8)]
    );
    assert!(word_trie.ranked_words("radart", "(").is_err());
    assert_eq!(
        word_trie.word_trie.get_words_filtered("radart", "").expect("no pattern"),
        ["dart", "rad", "radar"]
    );
    assert_eq!(
        word_trie.word_trie.get_words_filtered("radart", "ra.*").expect("a valid regex"),
        ["rad", "radar"]
    );
}
