//! Turning the lines of a words file and of a scores file into a dictionary
//! and a score table, with the errors that bad lines give.

use crate::scoring::ScoreTable;
use crate::text::{chars_of, lowercase_of, string_of};
use crate::word_trie::WordTrie;
use vstd::prelude::*;

verus! {

#[verifier::external_type_specification]
#[verifier::external_body]
pub struct ExIoError(std::io::Error);

#[verifier::external_type_specification]
#[verifier::external_body]
pub struct ExParseIntError(std::num::ParseIntError);

/// A file could not be opened or read.
#[derive(Debug)]
pub struct OpenFileError {
    pub path: String,
    pub err: std::io::Error,
}

/// A bad words file.
#[derive(Debug)]
pub enum ParseWordFileError {
    OpenFile(OpenFileError),
    /// A word holds a character other than an ASCII letter.
    InvalidWord(String),
}

/// A bad scores file.
#[derive(Debug)]
pub enum ParseScoreFileError {
    OpenFile(OpenFileError),
    /// The line (numbered from zero) has no `=`.
    MissingEqualSign(usize, String),
    /// The left side of `=` is not a single ASCII letter.
    InvalidChar(String),
    /// The right side of `=` is not a score from 0 to 255.
    InvalidScore(String, std::num::ParseIntError),
}

/// Either file was bad.
#[derive(Debug)]
pub enum ParseFileError {
    ParseWordFile(ParseWordFileError),
    ParseScoreFile(ParseScoreFileError),
}

pub open spec fn is_ascii_letter(c: char) -> bool {
    ('a' <= c && c <= 'z') || ('A' <= c && c <= 'Z')
}

/// A word is accepted when every character is an ASCII letter.
pub open spec fn valid_word(w: Seq<char>) -> bool {
    forall|i: int| 0 <= i < w.len() ==> is_ascii_letter(#[trigger] w[i])
}

fn is_ascii_letter_char(c: char) -> (r: bool)
    ensures
        r == is_ascii_letter(c),
{
    ('a' <= c && c <= 'z') || ('A' <= c && c <= 'Z')
}

fn is_valid_word(w: &String) -> (r: bool)
    ensures
        r == valid_word(w@),
{
    let chars = chars_of(w.as_str());
    let mut i: usize = 0;
    while i < chars.len()
        invariant
            i <= chars@.len(),
            chars@ == w@,
            forall|j: int| 0 <= j < i ==> is_ascii_letter(#[trigger] chars@[j]),
        decreases chars@.len() - i,
    {
        if !is_ascii_letter_char(chars[i]) {
            return false;
        }
        i = i + 1;
    }
    true
}

/// The words of a words file, one per line. Fails on the first line that
/// holds a character other than an ASCII letter.
pub fn parse_word_lines(lines: Vec<String>) -> (r: Result<Vec<String>, ParseWordFileError>)
    ensures
        r is Ok <==> forall|i: int| 0 <= i < lines@.len() ==> valid_word(#[trigger] lines@[i]@),
        r matches Ok(words) ==> words@ == lines@,
        r matches Err(e) ==> exists|i: int|
            0 <= i < lines@.len() && !valid_word(#[trigger] lines@[i]@) && (forall|j: int| 0 <= j < i ==> valid_word(#[trigger] lines@[j]@))
                && (e matches ParseWordFileError::InvalidWord(w) && w@ == lines@[i]@),
{
    let mut i: usize = 0;
    while i < lines.len()
        invariant
            i <= lines@.len(),
            forall|j: int| 0 <= j < i ==> valid_word(#[trigger] lines@[j]@),
        decreases lines@.len() - i,
    {
        if !is_valid_word(&lines[i]) {
            return Err(ParseWordFileError::InvalidWord(lines[i].clone()));
        }
        i = i + 1;
    }
    Ok(lines)
}

/// The digits of `d` read as a decimal number.
pub open spec fn digits_value(d: Seq<char>) -> nat
    decreases d.len(),
{
    if d.len() == 0 {
        0
    } else {
        digits_value(d.drop_last()) * 10 + (d.last() as int - '0' as int) as nat
    }
}

/// What `u8::from_str` accepts: an optional `+`, then one or more ASCII
/// digits whose value is at most 255.
pub open spec fn decimal_u8(s: Seq<char>) -> Option<u8> {
    let d = if s.len() > 0 && s[0] == '+' {
        s.drop_first()
    } else {
        s
    };
    if d.len() > 0 && (forall|i: int| 0 <= i < d.len() ==> '0' <= #[trigger] d[i] && d[i] <= '9')
        && digits_value(d) <= 255 {
        Some(digits_value(d) as u8)
    } else {
        None
    }
}

/// Relies on `str::parse::<u8>` (`u8::from_str`): an optional `+` followed
/// by ASCII digits whose value fits in a `u8`; anything else is an error.
#[verifier::external_body]
fn parse_score(s: &str) -> (r: Result<u8, std::num::ParseIntError>)
    ensures
        r is Ok <==> decimal_u8(s@) is Some,
        r matches Ok(v) ==> decimal_u8(s@) == Some(v),
{
    s.parse::<u8>()
}

/// The position of the first `=` in `l`.
pub open spec fn first_eq(l: Seq<char>) -> Option<int>
    decreases l.len(),
{
    if l.len() == 0 {
        None
    } else {
        match first_eq(l.drop_last()) {
            Some(k) => Some(k),
            None => if l.last() == '=' {
                Some(l.len() - 1)
            } else {
                None
            },
        }
    }
}

proof fn lemma_first_eq(l: Seq<char>, k: int)
    requires
        0 <= k <= l.len(),
        forall|j: int| 0 <= j < k ==> l[j] != '=',
    ensures
        k < l.len() && l[k] == '=' ==> first_eq(l) == Some(k),
        k == l.len() ==> first_eq(l) is None,
    decreases l.len(),
{
    if l.len() > 0 {
        if k < l.len() {
            lemma_first_eq(l.drop_last(), k);
        } else {
            lemma_first_eq(l.drop_last(), k - 1);
        }
    }
}

/// The letter and score of one line of a scores file, `letter=score`.
pub open spec fn score_entry(l: Seq<char>) -> Option<(char, u8)> {
    match first_eq(l) {
        None => None,
        Some(k) => {
            let left = l.take(k);
            let right = l.skip(k + 1);
            if left.len() == 1 && is_ascii_letter(left[0]) && decimal_u8(right) is Some {
                Some((left[0], decimal_u8(right)->0))
            } else {
                None
            }
        },
    }
}

/// The score table that the lines give, later lines for a letter replacing
/// earlier ones.
pub open spec fn scores_of(lines: Seq<Seq<char>>) -> Map<char, u8>
    decreases lines.len(),
{
    if lines.len() == 0 {
        Map::empty()
    } else {
        let e = score_entry(lines.last())->0;
        scores_of(lines.drop_last()).insert(e.0, e.1)
    }
}

/// The error that a line with no valid entry gives.
pub open spec fn score_error_matches(i: int, l: Seq<char>, e: ParseScoreFileError) -> bool {
    match first_eq(l) {
        None => (e matches ParseScoreFileError::MissingEqualSign(n, s) && n == i && s@ == l),
        Some(k) => {
            let left = l.take(k);
            let right = l.skip(k + 1);
            if !(left.len() == 1 && is_ascii_letter(left[0])) {
                (e matches ParseScoreFileError::InvalidChar(s) && s@ == left)
            } else {
                (e matches ParseScoreFileError::InvalidScore(s, _) && s@ == right)
            }
        },
    }
}

pub open spec fn line_views(lines: Seq<String>) -> Seq<Seq<char>> {
    lines.map_values(|l: String| l@)
}

/// The score table of a scores file, one `letter=score` per line. Fails on
/// the first line without `=`, with a left side that is not one ASCII
/// letter, or with a right side that is not a score from 0 to 255.
pub fn parse_score_lines(lines: &Vec<String>) -> (r: Result<ScoreTable, ParseScoreFileError>)
    ensures
        r is Ok <==> forall|i: int| 0 <= i < lines@.len() ==> (#[trigger] score_entry(lines@[i]@)) is Some,
        r matches Ok(t) ==> t@ == scores_of(line_views(lines@)),
        r matches Err(e) ==> exists|i: int|
            0 <= i < lines@.len() && (forall|j: int| 0 <= j < i ==> (#[trigger] score_entry(lines@[j]@)) is Some)
                && (score_entry(lines@[i]@) is None) && score_error_matches(i, lines@[i]@, e),
{
    let mut table = ScoreTable::new();
    let mut i: usize = 0;
    while i < lines.len()
        invariant
            i <= lines@.len(),
            forall|j: int| 0 <= j < i ==> (#[trigger] score_entry(lines@[j]@)) is Some,
            table@ == scores_of(line_views(lines@).take(i as int)),
        decreases lines@.len() - i,
    {
        let chars = chars_of(lines[i].as_str());
        let mut k: usize = 0;
        while k < chars.len() && chars[k] != '='
            invariant
                k <= chars@.len(),
                forall|j: int| 0 <= j < k ==> chars@[j] != '=',
            decreases chars@.len() - k,
        {
            k = k + 1;
        }
        proof {
            lemma_first_eq(chars@, k as int);
        }
        if k == chars.len() {
            return Err(ParseScoreFileError::MissingEqualSign(i, lines[i].clone()));
        }
        let left = string_of(&slice_of(&chars, 0, k));
        let right = string_of(&slice_of(&chars, k + 1, chars.len()));
        proof {
            assert(left@ =~= chars@.take(k as int));
            assert(right@ =~= chars@.skip(k + 1));
        }
        if !(k == 1 && is_ascii_letter_char(chars[0])) {
            proof {
                assert(chars@ == lines@[i as int]@);
                assert(chars@.take(k as int).len() == k);
                if k == 1 {
                    assert(chars@.take(k as int)[0] == chars@[0]);
                }
                assert(score_entry(lines@[i as int]@) is None);
            }
            return Err(ParseScoreFileError::InvalidChar(left));
        }
        let letter = chars[0];
        match parse_score(right.as_str()) {
            Ok(score) => {
                table.insert(letter, score);
            },
            Err(err) => {
                return Err(ParseScoreFileError::InvalidScore(right, err));
            },
        }
        proof {
            assert(line_views(lines@).take(i + 1).drop_last() =~= line_views(lines@).take(i as int));
            assert(line_views(lines@).take(i + 1).last() == lines@[i as int]@);
        }
        i = i + 1;
    }
    proof {
        assert(line_views(lines@).take(lines@.len() as int) =~= line_views(lines@));
    }
    Ok(table)
}

fn slice_of(v: &Vec<char>, from: usize, to: usize) -> (r: Vec<char>)
    requires
        from <= to <= v@.len(),
    ensures
        r@ == v@.subrange(from as int, to as int),
{
    let mut r: Vec<char> = Vec::new();
    let mut i: usize = from;
    while i < to
        invariant
            from <= i <= to <= v@.len(),
            r@ == v@.subrange(from as int, i as int),
        decreases to - i,
    {
        r.push(v[i]);
        assert(v@.subrange(from as int, i + 1) =~= v@.subrange(from as int, i as int).push(v@[i as int]));
        i = i + 1;
    }
    r
}

/// The words of `words`, each folded to lowercase.
pub open spec fn lowercase_words(words: Seq<String>) -> Set<Seq<char>> {
    Set::new(|w: Seq<char>| exists|i: int| 0 <= i < words.len() && w == lowercase_of(#[trigger] words[i]@))
}

impl WordTrie {
    /// A dictionary holding `words`, each folded to lowercase.
    pub fn from_words(words: &Vec<String>) -> (r: WordTrie)
        ensures
            r@ == lowercase_words(words@),
    {
        let mut trie = WordTrie::new();
        let mut i: usize = 0;
        while i < words.len()
            invariant
                i <= words@.len(),
                trie@ == lowercase_words(words@.take(i as int)),
            decreases words@.len() - i,
        {
            let ghost before = trie@;
            trie.insert(words[i].as_str());
            proof {
                assert(words@.take(i + 1) =~= words@.take(i as int).push(words@[i as int]));
                assert forall|w: Seq<char>| #[trigger] trie@.contains(w) <==> lowercase_words(words@.take(i + 1)).contains(w) by {
                    if lowercase_words(words@.take(i + 1)).contains(w) {
                        let j = choose|j: int| 0 <= j < i + 1 && w == lowercase_of(#[trigger] words@.take(i + 1)[j]@);
                        if j < i {
                            assert(words@.take(i as int)[j] == words@.take(i + 1)[j]);
                            assert(before.contains(w));
                        }
                    }
                    if before.contains(w) {
                        let j = choose|j: int| 0 <= j < i && w == lowercase_of(#[trigger] words@.take(i as int)[j]@);
                        assert(words@.take(i as int)[j] == words@.take(i + 1)[j]);
                    }
                    if w == lowercase_of(words@[i as int]@) {
                        assert(words@.take(i + 1)[i as int] == words@[i as int]);
                    }
                }
                assert(trie@ =~= lowercase_words(words@.take(i + 1)));
            }
            i = i + 1;
        }
        assert(words@.take(words@.len() as int) =~= words@);
        trie
    }
}

} // verus!
