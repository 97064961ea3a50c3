use lexicon::{ScoreTable, ScoredWordTrie, WordTrie};

fn trie_of(words: &[&str]) -> WordTrie {
    let mut trie = WordTrie::default();
    words.iter().for_each(|word| trie.insert(word));
    trie
}

#[test]
fn inserting_twice_changes_no_result() {
    let once = trie_of(&["rad", "radar", "dart"]);
    let twice = trie_of(&["rad", "radar", "dart", "radar"]);
    for query in ["radar", "radart", "r*d", "****", ""] {
        assert_eq!(once.get_words(query), twice.get_words(query));
    }
}

#[test]
fn found_words_fit_the_budget() {
    let trie = trie_of(&["cam", "cab", "cams", "cabs", "abba", "baba", "c"]);
    let query = "ab*c";
    for word in trie.get_words(query) {
        assert!(word.chars().count() <= 4);
        for c in ['a', 'b', 'c', 's'] {
            let used = word.chars().filter(|x| *x == c).count();
            let own = query.chars().filter(|x| *x == c).count();
            assert!(used <= own + 1, "{} uses too many {}", word, c);
        }
    }
    assert_eq!(trie.get_words(query), ["c", "cab", "cabs", "cam"]);
}

#[test]
fn matches_are_the_found_words_that_match() {
    let trie = trie_of(&["carbon", "car", "cart", "crib", "arc"]);
    let all = trie.get_words("carbont*");
    let matched = trie.get_word_matches("carbont*", "c.*").expect("a valid regex");
    let expected: Vec<String> = all.into_iter().filter(|w| w.starts_with('c')).collect();
    assert_eq!(matched, expected);
}

#[test]
fn ranking_is_reproducible() {
    let mut word_trie = WordTrie::default();
    ["rad", "radar", "dart", "art", "tar", "rat"].iter().for_each(|w| word_trie.insert(w));
    let scored = ScoredWordTrie {
        word_trie,
        score_map: ScoreTable::from_pairs(vec![('r', 1), ('t', 1), ('a', 1)]),
    };
    let first = scored.get_words("radart");
    let second = scored.get_words("radart");
    assert_eq!(first, second);
    assert_eq!(
        first,
        [
            ("radar".to_string(), 4u8),
            ("art".to_string(), 3u8),
            ("dart".to_string(), 3u8),
            ("rat".to_string(), 3u8),
            ("tar".to_string(), 3u8),
            ("rad".to_string(), 2u8),
        ]
    );
}
