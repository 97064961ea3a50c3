//! Letter scores, and the ranking of found words by score.

use crate::counts::lemma_push_contains;
use crate::pattern::regex_compiles;
use crate::text::{chars_of, lex_lt};
use crate::word_trie::{found_words, matching_words, strictly_sorted, views, WordTrie};
use vstd::prelude::*;

verus! {

/// Points per letter; a letter that is not in the table scores zero.
#[derive(Debug)]
pub struct ScoreTable {
    entries: Vec<(char, u8)>,
}

impl View for ScoreTable {
    type V = Map<char, u8>;

    closed spec fn view(&self) -> Map<char, u8> {
        Map::new(
            |c: char| exists|i: int| 0 <= i < self.entries@.len() && (#[trigger] self.entries@[i]).0 == c,
            |c: char| self.entries@[choose|i: int| 0 <= i < self.entries@.len() && (#[trigger] self.entries@[i]).0 == c].1,
        )
    }
}

impl ScoreTable {
    #[verifier::type_invariant]
    spec fn inv(self) -> bool {
        forall|i: int, j: int|
            0 <= i < j < self.entries@.len() ==> self.entries@[i].0 != self.entries@[j].0
    }

    proof fn lemma_entry(self, i: int)
        requires
            self.inv(),
            0 <= i < self.entries@.len(),
        ensures
            self@.contains_key(self.entries@[i].0),
            self@[self.entries@[i].0] == self.entries@[i].1,
    {
        let c = self.entries@[i].0;
        assert(self.entries@[i].0 == c);
        let j = choose|j: int| 0 <= j < self.entries@.len() && (#[trigger] self.entries@[j]).0 == c;
        assert(i == j);
    }

    /// An empty table.
    pub fn new() -> (r: Self)
        ensures
            r@ == Map::<char, u8>::empty(),
    {
        let r = ScoreTable { entries: Vec::new() };
        assert(r@ =~= Map::<char, u8>::empty());
        r
    }

    /// The score of letter `c`, if the table has one.
    pub fn get(&self, c: char) -> (r: Option<u8>)
        ensures
            r == if self@.contains_key(c) {
                Some(self@[c])
            } else {
                None::<u8>
            },
    {
        proof {
            use_type_invariant(self);
        }
        let mut i: usize = 0;
        while i < self.entries.len()
            invariant
                self.inv(),
                i <= self.entries@.len(),
                forall|j: int| 0 <= j < i ==> (#[trigger] self.entries@[j]).0 != c,
            decreases self.entries@.len() - i,
        {
            if self.entries[i].0 == c {
                proof {
                    self.lemma_entry(i as int);
                }
                return Some(self.entries[i].1);
            }
            i = i + 1;
        }
        None
    }

    /// Gives letter `c` the score `score`, replacing any earlier one.
    pub fn insert(&mut self, c: char, score: u8)
        ensures
            final(self)@ == old(self)@.insert(c, score),
    {
        proof {
            use_type_invariant(&*self);
        }
        let mut entries: Vec<(char, u8)> = Vec::new();
        let mut i: usize = 0;
        while i < self.entries.len()
            invariant
                self.inv(),
                i <= self.entries@.len(),
                forall|j: int| 0 <= j < entries@.len() ==> (#[trigger] entries@[j]).0 != c,
                forall|a: int, b: int| 0 <= a < b < entries@.len() ==> entries@[a].0 != entries@[b].0,
                forall|x: char| x != c ==> (#[trigger] keyed(entries@, x) <==> keyed(self.entries@.take(i as int), x)),
                forall|j: int| 0 <= j < entries@.len() ==> self.entries@.take(i as int).contains(#[trigger] entries@[j]),
            decreases self.entries@.len() - i,
        {
            let e = self.entries[i];
            if e.0 != c {
                let ghost before = entries@;
                entries.push(e);
                proof {
                    assert forall|a: int, b: int| 0 <= a < b < entries@.len() implies entries@[a].0 != entries@[b].0 by {
                        if b == entries@.len() - 1 {
                            assert(before[a] == entries@[a]);
                            assert(self.entries@.take(i as int).contains(before[a]));
                            let k = choose|k: int| 0 <= k < i && self.entries@.take(i as int)[k] == entries@[a];
                            assert(self.entries@[k].0 != self.entries@[i as int].0);
                        }
                    }
                    assert(self.entries@.take(i + 1) =~= self.entries@.take(i as int).push(e));
                    assert forall|x: char| x != c implies (#[trigger] keyed(entries@, x) <==> keyed(self.entries@.take(i + 1), x)) by {
                        lemma_keyed_push(before, e, x);
                        lemma_keyed_push(self.entries@.take(i as int), e, x);
                    }
                    assert forall|j: int| 0 <= j < entries@.len() implies self.entries@.take(i + 1).contains(#[trigger] entries@[j]) by {
                        lemma_push_contains(self.entries@.take(i as int), e, entries@[j]);
                        if j < before.len() {
                            assert(before[j] == entries@[j]);
                        }
                    }
                }
            } else {
                proof {
                    assert(self.entries@.take(i + 1) =~= self.entries@.take(i as int).push(e));
                    assert forall|x: char| x != c implies (#[trigger] keyed(entries@, x) <==> keyed(self.entries@.take(i + 1), x)) by {
                        lemma_keyed_push(self.entries@.take(i as int), e, x);
                    }
                }
            }
            i = i + 1;
        }
        let ghost kept = entries@;
        proof {
            assert(self.entries@.take(self.entries@.len() as int) =~= self.entries@);
        }
        entries.push((c, score));
        let ghost old_self = *self;
        *self = ScoreTable { entries };
        proof {
            assert forall|a: int, b: int| 0 <= a < b < self.entries@.len() implies self.entries@[a].0 != self.entries@[b].0 by {
                if b == self.entries@.len() - 1 {
                    assert(kept[a].0 != c);
                } else {
                    assert(kept[a] == self.entries@[a]);
                    assert(kept[b] == self.entries@[b]);
                }
            }
            assert(self.inv());
            let n = self.entries@.len() - 1;
            self.lemma_entry(n);
            assert forall|x: char| #[trigger] self@.contains_key(x) <==> old_self@.insert(c, score).contains_key(x) by {
                if x != c {
                    if self@.contains_key(x) {
                        let j = choose|j: int| 0 <= j < self.entries@.len() && (#[trigger] self.entries@[j]).0 == x;
                        assert(kept[j] == self.entries@[j]);
                    }
                    if old_self@.contains_key(x) {
                        assert(keyed(old_self.entries@, x));
                        assert(keyed(kept, x));
                        let j2 = choose|j2: int| 0 <= j2 < kept.len() && (#[trigger] kept[j2]).0 == x;
                        assert(self.entries@[j2] == kept[j2]);
                    }
                }
            }
            assert forall|x: char| #[trigger] self@.contains_key(x) && x != c implies self@[x] == old_self@[x] by {
                let j = choose|j: int| 0 <= j < self.entries@.len() && (#[trigger] self.entries@[j]).0 == x;
                assert(kept[j] == self.entries@[j]);
                self.lemma_entry(j);
                assert(old_self.entries@.contains(kept[j]));
                let k = choose|k: int| 0 <= k < old_self.entries@.len() && old_self.entries@[k] == kept[j];
                old_self.lemma_entry(k);
            }
            assert(self@ =~= old_self@.insert(c, score));
        }
    }

    /// A table from `(letter, score)` pairs; a later pair for the same letter
    /// replaces an earlier one.
    pub fn from_pairs(pairs: Vec<(char, u8)>) -> (r: Self)
        ensures
            r@ == map_of_pairs(pairs@),
    {
        let mut r = ScoreTable::new();
        let mut i: usize = 0;
        while i < pairs.len()
            invariant
                i <= pairs@.len(),
                r@ == map_of_pairs(pairs@.take(i as int)),
            decreases pairs@.len() - i,
        {
            r.insert(pairs[i].0, pairs[i].1);
            assert(pairs@.take(i + 1).drop_last() =~= pairs@.take(i as int));
            i = i + 1;
        }
        assert(pairs@.take(pairs@.len() as int) =~= pairs@);
        r
    }
}

/// Some entry of `s` is under letter `x`.
pub open spec fn keyed(s: Seq<(char, u8)>, x: char) -> bool {
    exists|j: int| 0 <= j < s.len() && (#[trigger] s[j]).0 == x
}

proof fn lemma_keyed_push(s: Seq<(char, u8)>, e: (char, u8), x: char)
    ensures
        keyed(s.push(e), x) <==> keyed(s, x) || e.0 == x,
{
    if keyed(s, x) {
        let j = choose|j: int| 0 <= j < s.len() && (#[trigger] s[j]).0 == x;
        assert(s.push(e)[j] == s[j]);
    }
    if e.0 == x {
        assert(s.push(e)[s.len() as int] == e);
    }
    if keyed(s.push(e), x) {
        let j = choose|j: int| 0 <= j < s.push(e).len() && (#[trigger] s.push(e)[j]).0 == x;
        if j < s.len() {
            assert(s[j] == s.push(e)[j]);
        }
    }
}

/// The map that `(letter, score)` pairs give, later pairs replacing earlier.
pub open spec fn map_of_pairs(pairs: Seq<(char, u8)>) -> Map<char, u8>
    decreases pairs.len(),
{
    if pairs.len() == 0 {
        Map::empty()
    } else {
        map_of_pairs(pairs.drop_last()).insert(pairs.last().0, pairs.last().1)
    }
}

/// The score of one letter: its table value, or zero when absent.
pub open spec fn letter_score(table: Map<char, u8>, c: char) -> nat {
    if table.contains_key(c) {
        table[c] as nat
    } else {
        0
    }
}

/// The sum of the letter scores of `word`.
pub open spec fn score_sum(word: Seq<char>, table: Map<char, u8>) -> nat
    decreases word.len(),
{
    if word.len() == 0 {
        0
    } else {
        score_sum(word.drop_last(), table) + letter_score(table, word.last())
    }
}

/// The score of `word`: the sum of its letter scores, saturated at
/// `u8::MAX`.
pub open spec fn word_score(word: Seq<char>, table: Map<char, u8>) -> u8 {
    if score_sum(word, table) > u8::MAX {
        u8::MAX
    } else {
        score_sum(word, table) as u8
    }
}

/// `a` ranks before `b`: a higher score first, and on equal scores the word
/// that comes first in lexicographic order.
pub open spec fn rank_lt(a: (Seq<char>, u8), b: (Seq<char>, u8)) -> bool {
    a.1 > b.1 || (a.1 == b.1 && lex_lt(a.0, b.0))
}

/// The views of a sequence of scored words.
pub open spec fn pair_views(r: Seq<(String, u8)>) -> Seq<(Seq<char>, u8)> {
    r.map_values(|p: (String, u8)| (p.0@, p.1))
}

/// The pairs strictly increase in rank order (so none repeats).
pub open spec fn strictly_ranked(r: Seq<(Seq<char>, u8)>) -> bool {
    forall|i: int, j: int| 0 <= i < j < r.len() ==> rank_lt(r[i], r[j])
}

/// The words of `words`, each with its score.
pub open spec fn scored(words: Set<Seq<char>>, table: Map<char, u8>) -> Set<(Seq<char>, u8)> {
    words.map(|w: Seq<char>| (w, word_score(w, table)))
}

/// `r` lists every word of `words` once with its score, best score first and
/// equal scores in lexicographic order.
pub open spec fn ranked(r: Seq<(String, u8)>, words: Set<Seq<char>>, table: Map<char, u8>) -> bool {
    &&& strictly_ranked(pair_views(r))
    &&& pair_views(r).to_set() == scored(words, table)
}

/// The score of `word` under `table`.
pub fn score_word(table: &ScoreTable, word: &str) -> (r: u8)
    ensures
        r == word_score(word@, table@),
{
    let chars = chars_of(word);
    let mut total: u8 = 0;
    let mut i: usize = 0;
    while i < chars.len()
        invariant
            i <= chars@.len(),
            chars@ == word@,
            total == word_score(chars@.take(i as int), table@),
        decreases chars@.len() - i,
    {
        let points = match table.get(chars[i]) {
            Some(p) => p,
            None => 0,
        };
        proof {
            assert(chars@.take(i + 1).drop_last() =~= chars@.take(i as int));
        }
        if total as u16 + points as u16 > u8::MAX as u16 {
            total = u8::MAX;
        } else {
            total = total + points;
        }
        i = i + 1;
    }
    assert(chars@.take(chars@.len() as int) =~= chars@);
    total
}

/// Ranks the strictly sorted `words` by score, best first; equal scores keep
/// the lexicographic order.
fn rank(words: Vec<String>, table: &ScoreTable) -> (r: Vec<(String, u8)>)
    requires
        strictly_sorted(views(words@)),
    ensures
        ranked(r@, views(words@).to_set(), table@),
{
    let mut scores: Vec<u8> = Vec::new();
    let mut k: usize = 0;
    while k < words.len()
        invariant
            k <= words@.len(),
            scores@.len() == k,
            forall|j: int| 0 <= j < k ==> scores@[j] == word_score(#[trigger] words@[j]@, table@),
        decreases words@.len() - k,
    {
        let s = score_word(table, words[k].as_str());
        scores.push(s);
        k = k + 1;
    }
    let mut r: Vec<(String, u8)> = Vec::new();
    let mut level: u16 = 256;
    while level > 0
        invariant
            level <= 256,
            scores@.len() == words@.len(),
            strictly_sorted(views(words@)),
            forall|j: int| 0 <= j < words@.len() ==> scores@[j] == word_score(#[trigger] words@[j]@, table@),
            strictly_ranked(pair_views(r@)),
            forall|i: int| 0 <= i < r@.len() ==> (#[trigger] r@[i]).1 >= level,
            forall|x: (Seq<char>, u8)| #[trigger] pair_views(r@).contains(x) <==> exists|j: int|
                0 <= j < words@.len() && x == (words@[j]@, scores@[j]) && scores@[j] >= level,
        decreases level,
    {
        let s: u8 = (level - 1) as u8;
        let mut k: usize = 0;
        while k < words.len()
            invariant
                level <= 256,
                s == level - 1,
                k <= words@.len(),
                scores@.len() == words@.len(),
                strictly_sorted(views(words@)),
                forall|j: int| 0 <= j < words@.len() ==> scores@[j] == word_score(#[trigger] words@[j]@, table@),
                strictly_ranked(pair_views(r@)),
                forall|i: int| 0 <= i < r@.len() ==> (#[trigger] r@[i]).1 > s || (r@[i].1 == s && exists|j: int| 0 <= j < k && r@[i].0@ == #[trigger] words@[j]@),
                forall|x: (Seq<char>, u8)| #[trigger] pair_views(r@).contains(x) <==> exists|j: int|
                    0 <= j < words@.len() && x == (words@[j]@, scores@[j]) && (scores@[j] > s || (scores@[j] == s && j < k)),
            decreases words@.len() - k,
        {
            if scores[k] == s {
                let ghost before = r@;
                let item = (words[k].clone(), s);
                r.push(item);
                proof {
                    assert(pair_views(r@) =~= pair_views(before).push((words@[k as int]@, s)));
                    assert forall|a: int, b: int| 0 <= a < b < pair_views(r@).len() implies rank_lt(pair_views(r@)[a], pair_views(r@)[b]) by {
                        if b == pair_views(r@).len() - 1 {
                            assert(pair_views(r@)[a] == pair_views(before)[a]);
                            assert(before[a] == r@[a]);
                            if r@[a].1 == s {
                                let j = choose|j: int| 0 <= j < k && r@[a].0@ == #[trigger] words@[j]@;
                                assert(views(words@)[j] == words@[j]@);
                                assert(views(words@)[k as int] == words@[k as int]@);
                            }
                        } else {
                            assert(pair_views(r@)[a] == pair_views(before)[a]);
                            assert(pair_views(r@)[b] == pair_views(before)[b]);
                        }
                    }
                    assert forall|i: int| 0 <= i < r@.len() implies (#[trigger] r@[i]).1 > s || (r@[i].1 == s && exists|j: int| 0 <= j < k + 1 && r@[i].0@ == #[trigger] words@[j]@) by {
                        if i < before.len() {
                            assert(before[i] == r@[i]);
                            if r@[i].1 == s {
                                let j = choose|j: int| 0 <= j < k && r@[i].0@ == #[trigger] words@[j]@;
                                assert(0 <= j < k + 1 && r@[i].0@ == words@[j]@);
                            }
                        } else {
                            assert(r@[i].0@ == words@[k as int]@);
                        }
                    }
                    assert forall|x: (Seq<char>, u8)| #[trigger] pair_views(r@).contains(x) <==> exists|j: int|
                        0 <= j < words@.len() && x == (words@[j]@, scores@[j]) && (scores@[j] > s || (scores@[j] == s && j < k + 1)) by {
                        lemma_push_contains(pair_views(before), (words@[k as int]@, s), x);
                        if exists|j: int| 0 <= j < words@.len() && x == (words@[j]@, scores@[j]) && (scores@[j] > s || (scores@[j] == s && j < k + 1)) {
                            let j = choose|j: int| 0 <= j < words@.len() && x == (words@[j]@, scores@[j]) && (scores@[j] > s || (scores@[j] == s && j < k + 1));
                            if j != k {
                                assert(pair_views(before).contains(x));
                            }
                        }
                    }
                }
            } else {
                proof {
                    assert forall|x: (Seq<char>, u8)| #[trigger] pair_views(r@).contains(x) <==> exists|j: int|
                        0 <= j < words@.len() && x == (words@[j]@, scores@[j]) && (scores@[j] > s || (scores@[j] == s && j < k + 1)) by {
                        if exists|j: int| 0 <= j < words@.len() && x == (words@[j]@, scores@[j]) && (scores@[j] > s || (scores@[j] == s && j < k + 1)) {
                            let j = choose|j: int| 0 <= j < words@.len() && x == (words@[j]@, scores@[j]) && (scores@[j] > s || (scores@[j] == s && j < k + 1));
                            assert(scores@[j] > s || (scores@[j] == s && j < k));
                        }
                    }
                    assert forall|i: int| 0 <= i < r@.len() implies (#[trigger] r@[i]).1 > s || (r@[i].1 == s && exists|j: int| 0 <= j < k + 1 && r@[i].0@ == #[trigger] words@[j]@) by {
                        if r@[i].1 == s {
                            let j = choose|j: int| 0 <= j < k && r@[i].0@ == #[trigger] words@[j]@;
                            assert(0 <= j < k + 1 && r@[i].0@ == words@[j]@);
                        }
                    }
                }
            }
            k = k + 1;
        }
        level = level - 1;
    }
    proof {
        assert forall|x: (Seq<char>, u8)| pair_views(r@).to_set().contains(x) <==> scored(views(words@).to_set(), table@).contains(x) by {
            if pair_views(r@).contains(x) {
                let j = choose|j: int| 0 <= j < words@.len() && x == (words@[j]@, scores@[j]) && scores@[j] >= 0;
                assert(views(words@)[j] == words@[j]@);
                assert(views(words@).to_set().contains(words@[j]@));
            }
            if scored(views(words@).to_set(), table@).contains(x) {
                let w = choose|w: Seq<char>| views(words@).to_set().contains(w) && x == (w, word_score(w, table@));
                let j = choose|j: int| 0 <= j < views(words@).len() && views(words@)[j] == w;
                assert(words@[j]@ == w);
                assert(pair_views(r@).contains(x));
            }
        }
        assert(pair_views(r@).to_set() =~= scored(views(words@).to_set(), table@));
    }
    r
}

/// A dictionary together with the letter scores that rank its words.
pub struct ScoredWordTrie {
    pub word_trie: WordTrie,
    pub score_map: ScoreTable,
}

impl ScoredWordTrie {
    /// The dictionary words that can be spelled from the tokens of
    /// `letters`, each with its score, best score first and equal scores in
    /// lexicographic order.
    pub fn get_words(&self, letters: &str) -> (r: Vec<(String, u8)>)
        ensures
            ranked(r@, found_words(self.word_trie@, letters@), self.score_map@),
    {
        let words = self.word_trie.get_words(letters);
        rank(words, &self.score_map)
    }

    /// The words of `get_words` that match `expr` as a whole, ranked the
    /// same way. Fails with the regex error exactly when `expr` is not a
    /// valid pattern.
    pub fn get_word_matches(&self, letters: &str, expr: &str) -> (r: Result<Vec<(String, u8)>, regex::Error>)
        ensures
            r is Ok <==> regex_compiles(expr@),
            r matches Ok(v) ==> ranked(v@, matching_words(self.word_trie@, letters@, expr@), self.score_map@),
    {
        match self.word_trie.get_word_matches(letters, expr) {
            Ok(words) => Ok(rank(words, &self.score_map)),
            Err(err) => Err(err),
        }
    }

    /// The ranked words for `letters`, filtered by `expr` unless `expr` is
    /// empty.
    pub fn ranked_words(&self, letters: &str, expr: &str) -> (r: Result<Vec<(String, u8)>, regex::Error>)
        ensures
            expr@.len() == 0 ==> (r matches Ok(v) && ranked(v@, found_words(self.word_trie@, letters@), self.score_map@)),
            expr@.len() > 0 ==> (r is Ok <==> regex_compiles(expr@)),
            expr@.len() > 0 ==> (r matches Ok(v) ==> ranked(v@, matching_words(self.word_trie@, letters@, expr@), self.score_map@)),
    {
        if expr.is_empty() {
            Ok(self.get_words(letters))
        } else {
            self.get_word_matches(letters, expr)
        }
    }

    /// The score of `word`: the sum of its letter scores, saturated at
    /// `u8::MAX`.
    pub fn calculate_score(&self, word: &str) -> (r: u8)
        ensures
            r == word_score(word@, self.score_map@),
    {
        score_word(&self.score_map, word)
    }
}

} // verus!
