use lexicon::{parse_score_lines, parse_word_lines, ParseScoreFileError, ParseWordFileError, WordTrie};

fn lines(items: &[&str]) -> Vec<String> {
    items.iter().map(|s| s.to_string()).collect()
}

#[test]
fn word_lines_are_checked() {
    assert_eq!(
        parse_word_lines(lines(&["aa", "Aah", "aahed"])).expect("valid words"),
        ["aa", "Aah", "aahed"]
    );
    match parse_word_lines(lines(&["aa", "a-b", "c d"])) {
        Err(ParseWordFileError::InvalidWord(w)) => assert_eq!(w, "a-b"),
        other => panic!("unexpected: {:?}", other),
    }
}

#[test]
fn score_lines_are_parsed() {
    let table = parse_score_lines(&lines(&["a=1", "b=3", "Z=+10", "a=2"])).expect("valid scores");
    assert_eq!(table.get('a'), Some(2));
    assert_eq!(table.get('b'), Some(3));
    assert_eq!(table.get('Z'), Some(10));
    assert_eq!(table.get('c'), None);
}

#[test]
fn score_line_errors() {
    match parse_score_lines(&lines(&["a=1", "b3"])) {
        Err(ParseScoreFileError::MissingEqualSign(i, l)) => {
            assert_eq!(i, 1);
            assert_eq!(l, "b3");
        }
        other => panic!("unexpected: {:?}", other),
    }
    match parse_score_lines(&lines(&["ab=1"])) {
        Err(ParseScoreFileError::InvalidChar(s)) => assert_eq!(s, "ab"),
        other => panic!("unexpected: {:?}", other),
    }
    match parse_score_lines(&lines(&["1=1"])) {
        Err(ParseScoreFileError::InvalidChar(s)) => assert_eq!(s, "1"),
        other => panic!("unexpected: {:?}", other),
    }
    match parse_score_lines(&lines(&["a=256"])) {
        Err(ParseScoreFileError::InvalidScore(s, _)) => assert_eq!(s, "256"),
        other => panic!("unexpected: {:?}", other),
    }
    match parse_score_lines(&lines(&["a=-1"])) {
        Err(ParseScoreFileError::InvalidScore(s, _)) => assert_eq!(s, "-1"),
        other => panic!("unexpected: {:?}", other),
    }
    match parse_score_lines(&lines(&["a="])) {
        Err(ParseScoreFileError::InvalidScore(s, _)) => assert_eq!(s, ""),
        other => panic!("unexpected: {:?}", other),
    }
}

#[test]
fn dictionary_from_words() {
    let trie = WordTrie::from_words(&lines(&["Rad", "radar", "DART"]));
    assert_eq!(trie.get_words_sorted("radart"), ["dart", "rad", "radar"]);
}
