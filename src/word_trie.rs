//! The dictionary tree and the constrained search over it.

use crate::counts::{budget_of, lemma_push_contains, spellable, to_frequency_map};
use crate::node::Node;
use crate::pattern::{regex_compiles, whole_match, WordPattern};
use crate::path::{allowed, covers, is_step, leads_to, step_trie, Path};
use crate::text::{ascii_lowered, chars_of, is_ascii_text, prefixes, lemma_lex_total, lemma_lex_transitive, lex_less, lex_lt, lowercase_of, WILDCARD};
use std::collections::VecDeque;
use vstd::prelude::*;

verus! {

/// The views of a sequence of strings.
pub open spec fn views(r: Seq<String>) -> Seq<Seq<char>> {
    r.map_values(|s: String| s@)
}

/// The words strictly increase in lexicographic order (so none repeats).
pub open spec fn strictly_sorted(r: Seq<Seq<char>>) -> bool {
    forall|i: int, j: int| 0 <= i < j < r.len() ==> lex_lt(r[i], r[j])
}

/// The dictionary words that can be spelled from the tokens of `letters`.
pub open spec fn found_words(dict: Set<Seq<char>>, letters: Seq<char>) -> Set<Seq<char>> {
    dict.filter(|w: Seq<char>| spellable(w, budget_of(letters)))
}

/// The words found for `letters` that match `pattern` as a whole.
pub open spec fn matching_words(dict: Set<Seq<char>>, letters: Seq<char>, pattern: Seq<char>) -> Set<Seq<char>> {
    found_words(dict, letters).filter(|w: Seq<char>| whole_match(pattern, w))
}

/// `r` lists the words of `s`, each once, in lexicographic order.
pub open spec fn lists_sorted(r: Seq<String>, s: Set<Seq<char>>) -> bool {
    &&& strictly_sorted(views(r))
    &&& views(r).to_set() == s
}

/// `w` is a word found below frontier `p`: it extends the prefix of `p` by a
/// word below its node that can be spelled from its budget.
pub open spec fn reaches(p: Path, w: Seq<char>) -> bool {
    let n = p.word_buf@.len() as int;
    &&& w.len() >= n
    &&& w.take(n) == p.word_buf@
    &&& p.node.has_word(w.skip(n))
    &&& spellable(w.skip(n), p.remaining_letters@)
}

/// The words found below a frontier are its own prefix, when its node marks
/// a word, and the words found below the frontiers one step further.
proof fn lemma_reaches_split(path: Path, paths: Seq<Path>)
    requires
        path.node.wf(),
        forall|k: int| 0 <= k < paths.len() ==> is_step(path, #[trigger] paths[k]),
        covers(path, paths, 0),
    ensures
        forall|w: Seq<char>| #[trigger] reaches(path, w) <==> (path.node.is_word && w == path.word_buf@)
            || exists|j: int| 0 <= j < paths.len() && reaches(#[trigger] paths[j], w),
{
    let prefix = path.word_buf@;
    let n = prefix.len() as int;
    let b = path.remaining_letters@;
    assert forall|w: Seq<char>| #[trigger] reaches(path, w) implies (path.node.is_word && w == prefix)
        || exists|j: int| 0 <= j < paths.len() && reaches(#[trigger] paths[j], w) by {
        let s = w.skip(n);
        if s.len() == 0 {
            assert(w =~= prefix);
        } else {
            let c = s[0];
            assert(path.node.has_child(c) && path.node.child(c).has_word(s.drop_first()));
            let t = if c != WILDCARD && b.count(c) > 0 && spellable(s.drop_first(), b.remove(c)) {
                c
            } else {
                WILDCARD
            };
            assert(spellable(s.drop_first(), b.remove(t)));
            assert(allowed(path, c, t));
            let k = choose|k: int| 0 <= k < paths.len() && #[trigger] leads_to(path, paths[k], c, t);
            let q = paths[k];
            assert(w[n] == c);
            assert(w.take(n + 1) =~= prefix.push(c));
            assert(w.skip(n + 1) =~= s.drop_first());
            assert(q.word_buf@.len() == n + 1);
            assert(reaches(q, w));
        }
    }
    assert forall|w: Seq<char>| (path.node.is_word && w == prefix) implies #[trigger] reaches(path, w) by {
        assert(w.take(n) =~= prefix);
        assert(w.skip(n) =~= Seq::<char>::empty());
    }
    assert forall|w: Seq<char>, j: int| 0 <= j < paths.len() && reaches(#[trigger] paths[j], w) implies #[trigger] reaches(path, w) by {
        let q = paths[j];
        assert(is_step(path, q));
        let (c, t) = choose|c: char, t: char| #[trigger] allowed(path, c, t) && #[trigger] leads_to(path, q, c, t);
        assert(q.word_buf@.len() == n + 1);
        assert(w.take(n + 1) == prefix.push(c));
        assert(w.take(n) =~= w.take(n + 1).take(n));
        assert(prefix.push(c).take(n) =~= prefix);
        assert(w[n] == w.take(n + 1)[n]);
        let s = w.skip(n);
        assert(s[0] == c);
        assert(s.drop_first() =~= w.skip(n + 1));
        assert(q.node.has_word(s.drop_first()));
        assert(path.node.has_word(s));
        assert(spellable(s.drop_first(), b.remove(t)));
        assert(spellable(s, b));
    }
}

/// Words kept in strictly increasing order, each with its characters.
struct SortedWords {
    words: Vec<String>,
    keys: Vec<Vec<char>>,
}

impl SortedWords {
    spec fn wf(self) -> bool {
        &&& self.words.len() == self.keys.len()
        &&& forall|i: int| 0 <= i < self.keys.len() ==> (#[trigger] self.words@[i])@ == self.keys@[i]@
        &&& forall|i: int, j: int| 0 <= i < j < self.keys.len() ==> lex_lt(self.keys@[i]@, self.keys@[j]@)
    }

    spec fn contains(self, w: Seq<char>) -> bool {
        exists|i: int| 0 <= i < self.keys.len() && (#[trigger] self.keys@[i])@ == w
    }

    fn new() -> (r: Self)
        ensures
            r.wf(),
            forall|w: Seq<char>| !r.contains(w),
    {
        SortedWords { words: Vec::new(), keys: Vec::new() }
    }

    /// Adds `word` unless it is already there.
    fn insert(&mut self, word: &String)
        requires
            old(self).wf(),
        ensures
            final(self).wf(),
            forall|w: Seq<char>| #[trigger] final(self).contains(w) <==> old(self).contains(w) || w == word@,
    {
        let key = chars_of(word.as_str());
        let mut lo: usize = 0;
        let mut hi: usize = self.keys.len();
        while lo < hi
            invariant
                self.wf(),
                lo <= hi <= self.keys.len(),
                forall|i: int| 0 <= i < lo ==> lex_lt(#[trigger] self.keys@[i]@, key@),
                forall|i: int| hi <= i < self.keys.len() ==> !lex_lt(#[trigger] self.keys@[i]@, key@),
            decreases hi - lo,
        {
            let mid = lo + (hi - lo) / 2;
            if lex_less(&self.keys[mid], &key) {
                proof {
                    assert forall|i: int| 0 <= i < mid + 1 implies lex_lt(#[trigger] self.keys@[i]@, key@) by {
                        if i < mid {
                            lemma_lex_transitive(self.keys@[i]@, self.keys@[mid as int]@, key@);
                        }
                    }
                }
                lo = mid + 1;
            } else {
                proof {
                    assert forall|i: int| mid <= i < self.keys.len() implies !lex_lt(#[trigger] self.keys@[i]@, key@) by {
                        if i > mid {
                            if lex_lt(self.keys@[i]@, key@) {
                                lemma_lex_transitive(self.keys@[mid as int]@, self.keys@[i]@, key@);
                            }
                        }
                    }
                }
                hi = mid;
            }
        }
        if lo < self.keys.len() && !lex_less(&key, &self.keys[lo]) {
            proof {
                lemma_lex_total(key@, self.keys@[lo as int]@);
                assert forall|w: Seq<char>| #[trigger] self.contains(w) <==> self.contains(w) || w == word@ by {
                    if w == word@ {
                        assert(self.keys@[lo as int]@ == w);
                    }
                }
            }
            return;
        }
        let ghost old_keys = self.keys@;
        let ghost old_words = self.words@;
        proof {
            assert forall|i: int| lo <= i < old_keys.len() implies lex_lt(key@, #[trigger] old_keys[i]@) by {
                lemma_lex_total(key@, old_keys[i]@);
                if i > lo {
                    if lex_lt(old_keys[i]@, key@) {
                    } else if old_keys[i]@ == key@ {
                        assert(lex_lt(old_keys[lo as int]@, old_keys[i]@));
                        assert(lex_lt(old_keys[lo as int]@, key@));
                    }
                }
            }
        }
        self.keys.insert(lo, key);
        self.words.insert(lo, word.clone());
        proof {
            assert forall|i: int, j: int| 0 <= i < j < self.keys.len() implies lex_lt(self.keys@[i]@, self.keys@[j]@) by {
                if j < lo {
                } else if i > lo {
                    assert(self.keys@[i] == old_keys[i - 1]);
                    assert(self.keys@[j] == old_keys[j - 1]);
                } else if i == lo {
                    assert(self.keys@[j] == old_keys[j - 1]);
                } else if j == lo {
                } else {
                    assert(self.keys@[j] == old_keys[j - 1]);
                    lemma_lex_transitive(old_keys[i]@, key@, old_keys[j - 1]@);
                }
            }
            assert forall|i: int| 0 <= i < self.keys.len() implies (#[trigger] self.words@[i])@ == self.keys@[i]@ by {
                if i < lo {
                    assert(self.words@[i] == old_words[i]);
                } else if i > lo {
                    assert(self.words@[i] == old_words[i - 1]);
                    assert(self.keys@[i] == old_keys[i - 1]);
                }
            }
            assert forall|w: Seq<char>| #[trigger] self.contains(w) <==> (exists|i: int| 0 <= i < old_keys.len() && (#[trigger] old_keys[i])@ == w) || w == word@ by {
                if exists|i: int| 0 <= i < old_keys.len() && (#[trigger] old_keys[i])@ == w {
                    let i = choose|i: int| 0 <= i < old_keys.len() && (#[trigger] old_keys[i])@ == w;
                    let i2 = if i < lo { i } else { i + 1 };
                    assert(self.keys@[i2] == old_keys[i]);
                }
                if w == word@ {
                    assert(self.keys@[lo as int]@ == w);
                }
                if self.contains(w) {
                    let i = choose|i: int| 0 <= i < self.keys.len() && (#[trigger] self.keys@[i])@ == w;
                    if i < lo {
                        assert(self.keys@[i] == old_keys[i]);
                    } else if i > lo {
                        assert(self.keys@[i] == old_keys[i - 1]);
                    }
                }
            }
        }
    }

    fn into_vec(self) -> (r: Vec<String>)
        requires
            self.wf(),
        ensures
            strictly_sorted(views(r@)),
            forall|w: Seq<char>| views(r@).contains(w) <==> self.contains(w),
    {
        proof {
            assert forall|w: Seq<char>| views(self.words@).contains(w) <==> self.contains(w) by {
                if views(self.words@).contains(w) {
                    let i = choose|i: int| 0 <= i < views(self.words@).len() && views(self.words@)[i] == w;
                    assert(self.words@[i]@ == self.keys@[i]@);
                }
                if self.contains(w) {
                    let i = choose|i: int| 0 <= i < self.keys.len() && (#[trigger] self.keys@[i])@ == w;
                    assert(views(self.words@)[i] == self.words@[i]@);
                }
            }
            assert forall|i: int, j: int| 0 <= i < j < views(self.words@).len() implies lex_lt(views(self.words@)[i], views(self.words@)[j]) by {
                assert(self.words@[i]@ == self.keys@[i]@);
                assert(self.words@[j]@ == self.keys@[j]@);
            }
        }
        self.words
    }
}

/// Adds to `out` every word found below `path`.
fn collect(path: &Path, out: &mut SortedWords)
    requires
        path.node.wf(),
        old(out).wf(),
    ensures
        final(out).wf(),
        forall|w: Seq<char>| #[trigger] final(out).contains(w) <==> old(out).contains(w) || reaches(*path, w),
    decreases path.remaining_letters.total(),
{
    let ghost out0 = *out;
    if path.node.is_word {
        out.insert(&path.word_buf);
    }
    let mut next: VecDeque<Path> = VecDeque::new();
    step_trie(path, &mut next);
    proof {
        assert(next@.subrange(0, 0) =~= Seq::<Path>::empty());
    }
    let mut k: usize = 0;
    while k < next.len()
        invariant
            path.node.wf(),
            out.wf(),
            k <= next@.len(),
            forall|x: int| 0 <= x < next@.len() ==> is_step(*path, #[trigger] next@[x]),
            forall|w: Seq<char>| #[trigger] out.contains(w) <==> out0.contains(w) || (path.node.is_word && w == path.word_buf@)
                || exists|j: int| 0 <= j < k && reaches(#[trigger] next@[j], w),
        decreases next@.len() - k,
    {
        let q = &next[k];
        proof {
            assert(is_step(*path, next@[k as int]));
            let (c, t) = choose|c: char, t: char| #[trigger] allowed(*path, c, t) && #[trigger] leads_to(*path, next@[k as int], c, t);
        }
        let ghost mid = *out;
        collect(q, out);
        proof {
            assert forall|w: Seq<char>| #[trigger] out.contains(w) <==> out0.contains(w) || (path.node.is_word && w == path.word_buf@)
                || exists|j: int| 0 <= j < k + 1 && reaches(#[trigger] next@[j], w) by {
                if exists|j: int| 0 <= j < k + 1 && reaches(#[trigger] next@[j], w) {
                    let j = choose|j: int| 0 <= j < k + 1 && reaches(#[trigger] next@[j], w);
                    if j < k {
                        assert(mid.contains(w));
                    }
                }
                if mid.contains(w) && !out0.contains(w) && !(path.node.is_word && w == path.word_buf@) {
                    let j = choose|j: int| 0 <= j < k && reaches(#[trigger] next@[j], w);
                    assert(0 <= j < k + 1 && reaches(next@[j], w));
                }
            }
        }
        k = k + 1;
    }
    proof {
        lemma_reaches_split(*path, next@);
    }
}

/// The words of `words` that match `pattern` as a whole, in their order.
fn keep_matching(words: Vec<String>, pattern: &WordPattern) -> (r: Vec<String>)
    requires
        strictly_sorted(views(words@)),
    ensures
        strictly_sorted(views(r@)),
        views(r@).to_set() == views(words@).to_set().filter(|w: Seq<char>| whole_match(pattern@, w)),
{
    let mut r: Vec<String> = Vec::new();
    let mut k: usize = 0;
    while k < words.len()
        invariant
            k <= words@.len(),
            strictly_sorted(views(words@)),
            strictly_sorted(views(r@)),
            forall|i: int, j: int| 0 <= i < r@.len() && k <= j < words@.len() ==> lex_lt(r@[i]@, words@[j]@),
            forall|w: Seq<char>| #[trigger] views(r@).contains(w) <==> views(words@).take(k as int).contains(w) && whole_match(pattern@, w),
        decreases words@.len() - k,
    {
        let ghost before = r@;
        if pattern.matches(words[k].as_str()) {
            r.push(words[k].clone());
        }
        proof {
            assert forall|i: int, j: int| 0 <= i < r@.len() && k + 1 <= j < words@.len() implies lex_lt(r@[i]@, words@[j]@) by {
                if i < before.len() {
                    assert(r@[i] == before[i]);
                } else {
                    assert(views(words@)[k as int] == words@[k as int]@);
                    assert(views(words@)[j] == words@[j]@);
                }
            }
            assert forall|i: int, j: int| 0 <= i < j < views(r@).len() implies lex_lt(views(r@)[i], views(r@)[j]) by {
                if j < before.len() {
                    assert(views(before)[i] == views(r@)[i]);
                    assert(views(before)[j] == views(r@)[j]);
                } else {
                    assert(r@[i] == before[i]);
                }
            }
            let ghost seen = views(words@).take(k as int);
            assert(views(words@).take(k + 1) =~= seen.push(words@[k as int]@));
            assert forall|w: Seq<char>| #[trigger] views(r@).contains(w) <==> views(words@).take(k + 1).contains(w) && whole_match(pattern@, w) by {
                lemma_push_contains(seen, words@[k as int]@, w);
                if r@.len() > before.len() {
                    assert(views(r@) =~= views(before).push(words@[k as int]@));
                    lemma_push_contains(views(before), words@[k as int]@, w);
                } else {
                    assert(views(r@) =~= views(before));
                }
            }
        }
        k = k + 1;
    }
    proof {
        assert(views(words@).take(words@.len() as int) =~= views(words@));
        assert forall|w: Seq<char>| views(r@).to_set().contains(w) <==> views(words@).to_set().filter(|w: Seq<char>| whole_match(pattern@, w)).contains(w) by {
            assert(views(r@).contains(w) <==> views(words@).contains(w) && whole_match(pattern@, w));
        }
        assert(views(r@).to_set() =~= views(words@).to_set().filter(|w: Seq<char>| whole_match(pattern@, w)));
    }
    r
}

/// The dictionary: a prefix tree of lowercase words.
pub struct WordTrie {
    root: Node,
}

impl View for WordTrie {
    type V = Set<Seq<char>>;

    closed spec fn view(&self) -> Set<Seq<char>> {
        self.root.words()
    }
}

impl WordTrie {
    #[verifier::type_invariant]
    spec fn inv(self) -> bool {
        self.root.wf()
    }

    /// The paths of the tree from its root: its shape.
    pub closed spec fn paths(self) -> Set<Seq<char>> {
        self.root.paths()
    }

    /// An empty dictionary.
    pub fn new() -> (r: Self)
        ensures
            r@ == Set::<Seq<char>>::empty(),
            r.paths() == set![Seq::<char>::empty()],
    {
        let r = WordTrie { root: Node::new() };
        proof {
            assert forall|p: Seq<char>| r.paths().contains(p) <==> set![Seq::<char>::empty()].contains(p) by {
                assert(r.root.has_path(p) <==> p.len() == 0);
                if p.len() == 0 {
                    assert(p =~= Seq::<char>::empty());
                }
            }
            assert(r.paths() =~= set![Seq::<char>::empty()]);
        }
        r
    }

    /// The root of the tree.
    pub fn root(&self) -> (r: &Node)
        ensures
            r.wf(),
            r.words() == self@,
            r.paths() == self.paths(),
    {
        proof {
            use_type_invariant(self);
        }
        &self.root
    }

    /// Inserts `word`, folded to lowercase. Existing paths are kept, and
    /// nodes are added only for the prefixes of the folded word that had
    /// none. An all-ASCII word is folded character by character.
    pub fn insert(&mut self, word: &str)
        ensures
            final(self)@ == old(self)@.insert(lowercase_of(word@)),
            final(self).paths() == old(self).paths() + prefixes(lowercase_of(word@)),
            is_ascii_text(word@) ==> final(self)@ == old(self)@.insert(ascii_lowered(word@)),
            is_ascii_text(word@) ==> final(self).paths() == old(self).paths() + prefixes(ascii_lowered(word@)),
    {
        proof {
            use_type_invariant(&*self);
        }
        let mut root = Node::new();
        std::mem::swap(&mut root, &mut self.root);
        root.append_word(word);
        self.root = root;
    }

    /// All dictionary words that can be spelled from the tokens of
    /// `letters`, each once, in lexicographic order.
    pub fn get_words(&self, letters: &str) -> (r: Vec<String>)
        ensures
            lists_sorted(r@, found_words(self@, letters@)),
    {
        proof {
            use_type_invariant(self);
        }
        let budget = to_frequency_map(letters);
        let start = self.root.start_path(budget);
        let mut out = SortedWords::new();
        let ghost empty = out;
        collect(&start, &mut out);
        let ghost filled = out;
        let r = out.into_vec();
        proof {
            assert(start.word_buf@.len() == 0);
            assert forall|w: Seq<char>| views(r@).to_set().contains(w) <==> found_words(self@, letters@).contains(w) by {
                assert(w.take(0) =~= Seq::<char>::empty());
                assert(w.skip(0) =~= w);
                assert(views(r@).to_set().contains(w) <==> views(r@).contains(w));
                assert(views(r@).contains(w) <==> filled.contains(w));
                assert(!empty.contains(w));
                assert(filled.contains(w) <==> reaches(start, w));
                assert(reaches(start, w) <==> self.root.has_word(w) && spellable(w, budget@));
                assert(self@.contains(w) <==> self.root.has_word(w));
            }
            assert(views(r@).to_set() =~= found_words(self@, letters@));
        }
        r
    }

    /// The same words as `get_words`, in lexicographic order.
    pub fn get_words_sorted(&self, letters: &str) -> (r: Vec<String>)
        ensures
            lists_sorted(r@, found_words(self@, letters@)),
    {
        self.get_words(letters)
    }
}

impl WordTrie {
    /// The words found for `letters` that match `expr` as a whole, each
    /// once, in lexicographic order. Fails with the regex error, before any
    /// search, exactly when `expr` is not a valid pattern.
    pub fn get_word_matches(&self, letters: &str, expr: &str) -> (r: Result<Vec<String>, regex::Error>)
        ensures
            r is Ok <==> regex_compiles(expr@),
            r matches Ok(v) ==> lists_sorted(v@, matching_words(self@, letters@, expr@)),
    {
        let pattern = match WordPattern::new(expr) {
            Ok(p) => p,
            Err(err) => {
                return Err(err);
            },
        };
        let words = self.get_words(letters);
        let r = keep_matching(words, &pattern);
        proof {
            assert(views(r@).to_set() =~= matching_words(self@, letters@, expr@));
        }
        Ok(r)
    }

    /// The same words as `get_word_matches`, in lexicographic order.
    pub fn get_word_matches_sorted(&self, letters: &str, expr: &str) -> (r: Result<Vec<String>, regex::Error>)
        ensures
            r is Ok <==> regex_compiles(expr@),
            r matches Ok(v) ==> lists_sorted(v@, matching_words(self@, letters@, expr@)),
    {
        self.get_word_matches(letters, expr)
    }
}

impl WordTrie {
    /// The words found for `letters`, filtered by `expr` unless `expr` is
    /// empty, each once, in lexicographic order.
    pub fn get_words_filtered(&self, letters: &str, expr: &str) -> (r: Result<Vec<String>, regex::Error>)
        ensures
            expr@.len() == 0 ==> (r matches Ok(v) && lists_sorted(v@, found_words(self@, letters@))),
            expr@.len() > 0 ==> (r is Ok <==> regex_compiles(expr@)),
            expr@.len() > 0 ==> (r matches Ok(v) ==> lists_sorted(v@, matching_words(self@, letters@, expr@))),
    {
        if expr.is_empty() {
            Ok(self.get_words(letters))
        } else {
            self.get_word_matches(letters, expr)
        }
    }
}

impl Default for WordTrie {
    fn default() -> (r: Self)
        ensures
            r@ == Set::<Seq<char>>::empty(),
            r.paths() == set![Seq::<char>::empty()],
    {
        WordTrie::new()
    }
}

} // verus!
