//! One node of the prefix tree: its children, kept in increasing order of
//! their letter, and whether the path to it spells a word.

use crate::text::{ascii_lowered, chars_of, is_ascii_text, is_prefix, lowercase_of, prefixes, to_lowercase};
use vstd::prelude::*;

verus! {

/// A node of the prefix tree. The path from the root to a node spells a
/// prefix; `is_word` marks that the prefix is a word of the dictionary.
#[derive(Debug, PartialEq, Eq)]
pub struct Node {
    /// The children, each under its letter, in strictly increasing order of
    /// the letter.
    pub children: Vec<(char, Node)>,
    pub is_word: bool,
}

impl Node {
    /// The letters of the children strictly increase, here and below.
    pub open spec fn wf(self) -> bool
        decreases self,
    {
        &&& forall|i: int, j: int|
            0 <= i < j < self.children@.len() ==> self.children@[i].0 < self.children@[j].0
        &&& forall|i: int|
            0 <= i < self.children@.len() ==> (#[trigger] self.children@[i]).1.wf()
    }

    /// There is a child under letter `c`.
    pub open spec fn has_child(self, c: char) -> bool {
        exists|i: int| 0 <= i < self.children@.len() && (#[trigger] self.children@[i]).0 == c
    }

    /// The child under letter `c` (meaningful when there is one).
    pub open spec fn child(self, c: char) -> Node {
        self.children@[choose|i: int|
            0 <= i < self.children@.len() && (#[trigger] self.children@[i]).0 == c].1
    }

    /// Following `w` from this node ends on a node that marks a word.
    pub open spec fn has_word(self, w: Seq<char>) -> bool
        decreases w.len(),
    {
        if w.len() == 0 {
            self.is_word
        } else {
            self.has_child(w[0]) && self.child(w[0]).has_word(w.drop_first())
        }
    }

    /// Following `p` from this node reaches a node.
    pub open spec fn has_path(self, p: Seq<char>) -> bool
        decreases p.len(),
    {
        if p.len() == 0 {
            true
        } else {
            self.has_child(p[0]) && self.child(p[0]).has_path(p.drop_first())
        }
    }

    /// The paths from this node to the nodes below it, itself included:
    /// the shape of the subtree.
    pub open spec fn paths(self) -> Set<Seq<char>> {
        Set::new(|p: Seq<char>| self.has_path(p))
    }

    /// The words below this node, as suffixes of its prefix.
    pub open spec fn words(self) -> Set<Seq<char>> {
        Set::new(|w: Seq<char>| self.has_word(w))
    }

    /// In a well-formed node, the entry at `k` is the child under its letter.
    pub proof fn lemma_child_at(self, k: int)
        requires
            self.wf(),
            0 <= k < self.children@.len(),
        ensures
            self.has_child(self.children@[k].0),
            self.child(self.children@[k].0) == self.children@[k].1,
            self.children@[k].1.wf(),
    {
        let c = self.children@[k].0;
        assert(self.children@[k].0 == c);
        let j = choose|i: int| 0 <= i < self.children@.len() && (#[trigger] self.children@[i]).0 == c;
        if j < k {
            assert(self.children@[j].0 < self.children@[k].0);
        } else if k < j {
            assert(self.children@[k].0 < self.children@[j].0);
        }
    }

    /// A node with no children that marks no word.
    pub fn new() -> (r: Node)
        ensures
            r.wf(),
            r.children@.len() == 0,
            !r.is_word,
            r.words() == Set::<Seq<char>>::empty(),
            forall|p: Seq<char>| #[trigger] r.has_path(p) <==> p.len() == 0,
    {
        let r = Node { children: Vec::new(), is_word: false };
        proof {
            assert forall|p: Seq<char>| #[trigger] r.has_path(p) <==> p.len() == 0 by {
                if p.len() > 0 {
                    assert(!r.has_child(p[0]));
                }
            }
            assert forall|w: Seq<char>| !r.has_word(w) by {
                if w.len() > 0 {
                    assert(!r.has_child(w[0]));
                }
            }
            assert(r.words() =~= Set::<Seq<char>>::empty());
        }
        r
    }

    /// Where letter `c` stands among the children: the number of children
    /// under a smaller letter, and whether the next one is under `c`.
    pub fn locate(&self, c: char) -> (r: (bool, usize))
        requires
            self.wf(),
        ensures
            r.1 <= self.children@.len(),
            forall|i: int| 0 <= i < r.1 ==> (#[trigger] self.children@[i]).0 < c,
            forall|i: int| r.1 <= i < self.children@.len() ==> (#[trigger] self.children@[i]).0 >= c,
            r.0 <==> self.has_child(c),
            r.0 ==> r.1 < self.children@.len() && self.children@[r.1 as int].0 == c,
    {
        let mut i: usize = 0;
        while i < self.children.len() && self.children[i].0 < c
            invariant
                self.wf(),
                i <= self.children@.len(),
                forall|j: int| 0 <= j < i ==> (#[trigger] self.children@[j]).0 < c,
            decreases self.children@.len() - i,
        {
            i = i + 1;
        }
        proof {
            if i < self.children@.len() {
                assert forall|j: int| i <= j < self.children@.len() implies (#[trigger] self.children@[j]).0 >= c by {
                    if j > i {
                        assert(self.children@[i as int].0 < self.children@[j].0);
                    }
                }
            }
        }
        let found = i < self.children.len() && self.children[i].0 == c;
        proof {
            if self.has_child(c) {
                let j = choose|j: int| 0 <= j < self.children@.len() && (#[trigger] self.children@[j]).0 == c;
                if j > i {
                    assert(self.children@[i as int].0 < self.children@[j].0);
                }
            }
            if found {
                assert(self.children@[i as int].0 == c);
            }
        }
        (found, i)
    }

    /// The child under letter `c`, if there is one.
    pub fn get_child(&self, c: char) -> (r: Option<&Node>)
        requires
            self.wf(),
        ensures
            r is Some <==> self.has_child(c),
            r matches Some(n) ==> *n == self.child(c) && n.wf(),
    {
        let (found, i) = self.locate(c);
        if found {
            proof {
                self.lemma_child_at(i as int);
            }
            Some(&self.children[i].1)
        } else {
            None
        }
    }

    /// Adds the path `w[i..]` below this node and marks its end as a word.
    fn append_chars(&mut self, w: &Vec<char>, i: usize)
        requires
            old(self).wf(),
            i <= w@.len(),
        ensures
            final(self).wf(),
            forall|s: Seq<char>|
                #[trigger] final(self).has_word(s) <==> old(self).has_word(s) || s == w@.subrange(
                    i as int,
                    w@.len() as int,
                ),
            forall|p: Seq<char>|
                #[trigger] final(self).has_path(p) <==> old(self).has_path(p) || is_prefix(
                    p,
                    w@.subrange(i as int, w@.len() as int),
                ),
        decreases w@.len() - i,
    {
        let ghost before = *self;
        if i == w.len() {
            self.is_word = true;
            proof {
                assert(w@.subrange(i as int, w@.len() as int) =~= Seq::<char>::empty());
                assert forall|s: Seq<char>|
                    #[trigger] self.has_word(s) <==> before.has_word(s) || s == w@.subrange(
                        i as int,
                        w@.len() as int,
                    ) by {
                    assert(self.children == before.children);
                    if s.len() > 0 {
                        assert(self.has_child(s[0]) == before.has_child(s[0]));
                        assert(self.child(s[0]) == before.child(s[0]));
                        assert(self.has_word(s) == before.has_word(s));
                    } else {
                        assert(s =~= w@.subrange(i as int, w@.len() as int));
                    }
                }
                assert forall|p: Seq<char>|
                    #[trigger] self.has_path(p) <==> before.has_path(p) || is_prefix(
                        p,
                        w@.subrange(i as int, w@.len() as int),
                    ) by {
                    assert(self.children == before.children);
                    if p.len() > 0 {
                        assert(self.child(p[0]) == before.child(p[0]));
                        assert(self.has_path(p) == before.has_path(p));
                    } else {
                        assert(p.take(0) =~= p);
                    }
                }
            }
        } else {
            let c = w[i];
            let (found, k) = self.locate(c);
            let ghost rest = w@.subrange(i + 1, w@.len() as int);
            proof {
                assert(w@.subrange(i as int, w@.len() as int).drop_first() =~= rest);
            }
            if found {
                proof {
                    before.lemma_child_at(k as int);
                }
                let (letter, mut child) = self.children.remove(k);
                child.append_chars(w, i + 1);
                self.children.insert(k, (letter, child));
                proof {
                    assert(self.children@ == before.children@.update(k as int, (c, child)));
                    self.lemma_replaced(before, k as int, c);
                    self.lemma_child_at(k as int);
                    self.lemma_words_after_child_change(before, c, w@.subrange(i as int, w@.len() as int), rest);
                    self.lemma_paths_after_child_change(before, c, w@.subrange(i as int, w@.len() as int), rest);
                }
            } else {
                let mut child = Node::new();
                let ghost empty = child;
                child.append_chars(w, i + 1);
                self.children.insert(k, (c, child));
                proof {
                    self.lemma_inserted(before, k as int, c);
                    self.lemma_child_at(k as int);
                    assert forall|s: Seq<char>| #[trigger] child.has_word(s) <==> s == rest by {
                        assert(!empty.words().contains(s));
                    }
                    assert forall|p: Seq<char>| #[trigger] child.has_path(p) <==> is_prefix(p, rest) by {
                        assert(empty.has_path(p) <==> p.len() == 0);
                        if p.len() == 0 {
                            assert(rest.take(0) =~= p);
                        }
                    }
                    self.lemma_words_after_child_change(before, c, w@.subrange(i as int, w@.len() as int), rest);
                    self.lemma_paths_after_child_change(before, c, w@.subrange(i as int, w@.len() as int), rest);
                }
            }
        }
    }

    /// After the entry at `k` got a new node under the same letter `c`, the
    /// node is still well formed and the other children are unchanged.
    proof fn lemma_replaced(self, before: Node, k: int, c: char)
        requires
            before.wf(),
            0 <= k < before.children@.len(),
            before.children@[k].0 == c,
            self.children@.len() == before.children@.len(),
            self.children@[k].0 == c,
            self.children@[k].1.wf(),
            forall|i: int| 0 <= i < self.children@.len() && i != k ==> self.children@[i] == before.children@[i],
            self.is_word == before.is_word,
        ensures
            self.wf(),
            forall|x: char| x != c ==> (self.has_child(x) <==> before.has_child(x)),
            forall|x: char| x != c && before.has_child(x) ==> self.child(x) == before.child(x),
            self.has_child(c),
    {
        assert forall|i: int| 0 <= i < self.children@.len() implies (#[trigger] self.children@[i]).1.wf() by {
            if i != k {
                before.lemma_child_at(i);
            }
        }
        assert(self.wf());
        assert(self.children@[k].0 == c);
        assert forall|x: char| x != c implies (self.has_child(x) <==> before.has_child(x)) by {
            if self.has_child(x) {
                let j = choose|j: int| 0 <= j < self.children@.len() && (#[trigger] self.children@[j]).0 == x;
                assert(before.children@[j].0 == x);
            }
            if before.has_child(x) {
                let j = choose|j: int| 0 <= j < before.children@.len() && (#[trigger] before.children@[j]).0 == x;
                assert(self.children@[j].0 == x);
            }
        }
        assert forall|x: char| x != c && before.has_child(x) implies self.child(x) == before.child(x) by {
            let j = choose|j: int| 0 <= j < before.children@.len() && (#[trigger] before.children@[j]).0 == x;
            before.lemma_child_at(j);
            assert(self.children@[j] == before.children@[j]);
            self.lemma_child_at(j);
        }
    }

    /// After a new entry under letter `c` was inserted at `k`, the node is
    /// still well formed and the other children are unchanged.
    proof fn lemma_inserted(self, before: Node, k: int, c: char)
        requires
            before.wf(),
            0 <= k <= before.children@.len(),
            forall|i: int| 0 <= i < k ==> (#[trigger] before.children@[i]).0 < c,
            forall|i: int| k <= i < before.children@.len() ==> (#[trigger] before.children@[i]).0 >= c,
            !before.has_child(c),
            self.children@ == before.children@.insert(k, (c, self.children@[k].1)),
            self.children@[k].1.wf(),
            self.is_word == before.is_word,
        ensures
            self.wf(),
            forall|x: char| x != c ==> (self.has_child(x) <==> before.has_child(x)),
            forall|x: char| x != c && before.has_child(x) ==> self.child(x) == before.child(x),
            self.has_child(c),
    {
        assert forall|i: int| k <= i < before.children@.len() implies (#[trigger] before.children@[i]).0 > c by {
            if before.children@[i].0 == c {
                assert(before.has_child(c));
            }
        }
        assert forall|i: int, j: int|
            0 <= i < j < self.children@.len() implies self.children@[i].0 < self.children@[j].0 by {
            if i < k && j > k {
                assert(self.children@[j] == before.children@[j - 1]);
            } else if i > k {
                assert(self.children@[i] == before.children@[i - 1]);
                assert(self.children@[j] == before.children@[j - 1]);
            } else if j < k {
            } else if i == k {
                assert(self.children@[j] == before.children@[j - 1]);
            } else {
                assert(self.children@[i] == before.children@[i]);
            }
        }
        assert forall|i: int| 0 <= i < self.children@.len() implies (#[trigger] self.children@[i]).1.wf() by {
            if i < k {
                before.lemma_child_at(i);
            } else if i > k {
                before.lemma_child_at(i - 1);
                assert(self.children@[i] == before.children@[i - 1]);
            }
        }
        assert(self.wf());
        assert(self.children@[k].0 == c);
        assert forall|x: char| x != c && before.has_child(x) implies self.has_child(x) && self.child(x) == before.child(x) by {
            let j = choose|j: int| 0 <= j < before.children@.len() && (#[trigger] before.children@[j]).0 == x;
            before.lemma_child_at(j);
            let j2 = if j < k { j } else { j + 1 };
            assert(self.children@[j2] == before.children@[j]);
            self.lemma_child_at(j2);
        }
        assert forall|x: char| x != c && self.has_child(x) implies before.has_child(x) by {
            let j = choose|j: int| 0 <= j < self.children@.len() && (#[trigger] self.children@[j]).0 == x;
            if j < k {
                assert(before.children@[j].0 == x);
            } else {
                assert(before.children@[j - 1].0 == x);
            }
        }
    }

    /// When only the child under `c` changed, and it gained exactly the word
    /// `rest`, this node gained exactly `c` followed by `rest`.
    proof fn lemma_words_after_child_change(self, before: Node, c: char, added: Seq<char>, rest: Seq<char>)
        requires
            added.len() > 0,
            added[0] == c,
            added.drop_first() == rest,
            self.is_word == before.is_word,
            forall|x: char| x != c ==> (self.has_child(x) <==> before.has_child(x)),
            forall|x: char| x != c && before.has_child(x) ==> self.child(x) == before.child(x),
            self.has_child(c),
            forall|s: Seq<char>|
                #[trigger] self.child(c).has_word(s) <==> (before.has_child(c) && before.child(c).has_word(s))
                    || s == rest,
        ensures
            forall|s: Seq<char>| #[trigger] self.has_word(s) <==> before.has_word(s) || s == added,
    {
        assert forall|s: Seq<char>| #[trigger] self.has_word(s) <==> before.has_word(s) || s == added by {
            if s.len() > 0 {
                if s[0] == c {
                    assert(self.child(c).has_word(s.drop_first()) <==> (before.has_child(c) && before.child(c).has_word(s.drop_first())) || s.drop_first() == rest);
                    if s.drop_first() == rest {
                        assert forall|j: int| 0 <= j < s.len() implies s[j] == added[j] by {
                            if j > 0 {
                                assert(s[j] == s.drop_first()[j - 1]);
                                assert(added[j] == added.drop_first()[j - 1]);
                            }
                        }
                        assert(s =~= added);
                    }
                    if s == added {
                        assert(s.drop_first() == rest);
                    }
                } else {
                    assert(s != added);
                }
            } else {
                assert(s != added);
            }
        }
    }

    /// When only the child under `c` changed, and it gained exactly the
    /// paths that are prefixes of `rest`, this node gained exactly the paths
    /// that are prefixes of `c` followed by `rest`.
    proof fn lemma_paths_after_child_change(self, before: Node, c: char, added: Seq<char>, rest: Seq<char>)
        requires
            added.len() > 0,
            added[0] == c,
            added.drop_first() == rest,
            forall|x: char| x != c ==> (self.has_child(x) <==> before.has_child(x)),
            forall|x: char| x != c && before.has_child(x) ==> self.child(x) == before.child(x),
            self.has_child(c),
            forall|p: Seq<char>|
                #[trigger] self.child(c).has_path(p) <==> (before.has_child(c) && before.child(c).has_path(p))
                    || is_prefix(p, rest),
        ensures
            forall|p: Seq<char>| #[trigger] self.has_path(p) <==> before.has_path(p) || is_prefix(p, added),
    {
        assert forall|p: Seq<char>| #[trigger] self.has_path(p) <==> before.has_path(p) || is_prefix(p, added) by {
            if p.len() == 0 {
                assert(added.take(0) =~= p);
            } else {
                let q = p.drop_first();
                if p[0] == c {
                    assert(self.child(c).has_path(q) <==> (before.has_child(c) && before.child(c).has_path(q)) || is_prefix(q, rest));
                    if is_prefix(q, rest) {
                        assert forall|j: int| 0 <= j < p.len() implies added.take(p.len() as int)[j] == p[j] by {
                            if j > 0 {
                                assert(p[j] == q[j - 1]);
                                assert(rest.take(q.len() as int)[j - 1] == q[j - 1]);
                            }
                        }
                        assert(added.take(p.len() as int) =~= p);
                    }
                    if is_prefix(p, added) {
                        assert(rest.take(q.len() as int) =~= q) by {
                            assert forall|j: int| 0 <= j < q.len() implies rest.take(q.len() as int)[j] == q[j] by {
                                assert(added.take(p.len() as int)[j + 1] == p[j + 1]);
                            }
                        }
                    }
                } else {
                    if is_prefix(p, added) {
                        assert(added.take(p.len() as int)[0] == p[0]);
                    }
                }
            }
        }
    }

    /// Adds `word`, folded to lowercase, as a path from this node and marks
    /// its end as a word. Existing paths are kept, and the only nodes added
    /// are those for the prefixes of the folded word that had none. An
    /// all-ASCII word is folded character by character.
    pub fn append_word(&mut self, word: &str)
        requires
            old(self).wf(),
        ensures
            final(self).wf(),
            final(self).words() == old(self).words().insert(lowercase_of(word@)),
            final(self).paths() == old(self).paths() + prefixes(lowercase_of(word@)),
            is_ascii_text(word@) ==> lowercase_of(word@) == ascii_lowered(word@),
    {
        let lower = to_lowercase(word);
        let chars = chars_of(lower.as_str());
        self.append_chars(&chars, 0);
        proof {
            assert(chars@.subrange(0, chars@.len() as int) =~= chars@);
            assert(final(self).words() =~= old(self).words().insert(lowercase_of(word@)));
            assert(final(self).paths() =~= old(self).paths() + prefixes(lowercase_of(word@)));
        }
    }
}

impl Default for Node {
    fn default() -> (r: Self)
        ensures
            r.wf(),
            r.children@.len() == 0,
            !r.is_word,
            r.words() == Set::<Seq<char>>::empty(),
            forall|p: Seq<char>| #[trigger] r.has_path(p) <==> p.len() == 0,
    {
        Node::new()
    }
}

} // verus!
