//! One step of the constrained search: a position in the tree together with
//! the tokens still available and the letters spelled so far.

use crate::counts::{decrement_count, LetterCounts};
use crate::node::Node;
use crate::text::{push_char, WILDCARD};
use std::collections::VecDeque;
use vstd::prelude::*;

verus! {

/// A search frontier: a node of the tree, the budget left, and the prefix
/// spelled on the way from the root to the node.
#[derive(Debug, PartialEq)]
pub struct Path<'a> {
    pub node: &'a Node,
    pub remaining_letters: LetterCounts,
    pub word_buf: String,
}

/// From `path`, letter `c` may be spelled with token `t`: the node has a
/// child under `c`, a token `t` is left, and `t` is `c` itself or the
/// wildcard.
pub open spec fn allowed(path: Path, c: char, t: char) -> bool {
    &&& path.node.has_child(c)
    &&& path.remaining_letters@.count(t) > 0
    &&& ((t == c && c != WILDCARD) || t == WILDCARD)
}

/// `next` is the frontier reached from `path` by spelling `c` with token `t`.
pub open spec fn leads_to(path: Path, next: Path, c: char, t: char) -> bool {
    &&& *next.node == path.node.child(c)
    &&& next.word_buf@ == path.word_buf@.push(c)
    &&& next.remaining_letters@ == path.remaining_letters@.remove(t)
    &&& next.remaining_letters.total() + 1 == path.remaining_letters.total()
}

/// `next` is one of the frontiers that one step from `path` reaches.
pub open spec fn is_step(path: Path, next: Path) -> bool {
    &&& next.node.wf()
    &&& exists|c: char, t: char| #[trigger] allowed(path, c, t) && #[trigger] leads_to(path, next, c, t)
}

/// Every allowed step from `path` has a frontier in `paths[from..]`.
pub open spec fn covers(path: Path, paths: Seq<Path>, from: int) -> bool {
    forall|c: char, t: char|
        #[trigger] allowed(path, c, t) ==> exists|k: int|
            from <= k < paths.len() && #[trigger] leads_to(path, paths[k], c, t)
}

/// Every frontier in `paths[from..]` is one step from `path`.
#[verifier::opaque]
spec fn all_steps(path: Path, paths: Seq<Path>, from: int) -> bool {
    forall|k: int| from <= k < paths.len() ==> is_step(path, #[trigger] paths[k])
}

/// Some frontier in `paths[from..]` is reached from `path` by `c` with `t`.
#[verifier::opaque]
spec fn has_leads(path: Path, paths: Seq<Path>, from: int, c: char, t: char) -> bool {
    exists|k: int| from <= k < paths.len() && #[trigger] leads_to(path, paths[k], c, t)
}

proof fn lemma_push_step(path: Path, paths: Seq<Path>, from: int, next: Path, c: char, t: char)
    requires
        0 <= from <= paths.len(),
        all_steps(path, paths, from),
        next.node.wf(),
        allowed(path, c, t),
        leads_to(path, next, c, t),
    ensures
        all_steps(path, paths.push(next), from),
        has_leads(path, paths.push(next), from, c, t),
        forall|c2: char, t2: char|
            has_leads(path, paths, from, c2, t2) ==> #[trigger] has_leads(path, paths.push(next), from, c2, t2),
        paths.push(next).subrange(0, from) == paths.subrange(0, from),
{
    reveal(all_steps);
    reveal(has_leads);
    let ext = paths.push(next);
    assert forall|k: int| from <= k < ext.len() implies is_step(path, #[trigger] ext[k]) by {
        if k < paths.len() {
            assert(ext[k] == paths[k]);
        } else {
            assert(ext[k] == next);
        }
    }
    assert(ext[paths.len() as int] == next);
    assert(leads_to(path, ext[paths.len() as int], c, t));
    assert forall|c2: char, t2: char|
        has_leads(path, paths, from, c2, t2) implies #[trigger] has_leads(path, ext, from, c2, t2) by {
        let k = choose|k: int| from <= k < paths.len() && #[trigger] leads_to(path, paths[k], c2, t2);
        assert(ext[k] == paths[k]);
    }
    assert(ext.subrange(0, from) =~= paths.subrange(0, from));
}

proof fn lemma_conclude(path: Path, paths: Seq<Path>, from: int)
    requires
        all_steps(path, paths, from),
        forall|c: char, t: char| #[trigger] allowed(path, c, t) ==> has_leads(path, paths, from, c, t),
    ensures
        forall|k: int| from <= k < paths.len() ==> is_step(path, #[trigger] paths[k]),
        covers(path, paths, from),
{
    reveal(all_steps);
    reveal(has_leads);
}

fn extended(word: &String, c: char) -> (r: String)
    ensures
        r@ == word@.push(c),
{
    let mut r = word.clone();
    push_char(&mut r, c);
    r
}

/// Pushes onto `search_stack` the frontiers one step below `path`: for each
/// token left, a literal letter descends to the child under that letter, and
/// a wildcard descends to every child. Each step uses up one token.
pub fn step_trie<'a>(path: &Path<'a>, search_stack: &mut VecDeque<Path<'a>>)
    requires
        path.node.wf(),
    ensures
        final(search_stack)@.len() >= old(search_stack)@.len(),
        final(search_stack)@.subrange(0, old(search_stack)@.len() as int) == old(search_stack)@,
        forall|k: int|
            old(search_stack)@.len() <= k < final(search_stack)@.len() ==> is_step(
                *path,
                #[trigger] final(search_stack)@[k],
            ),
        covers(*path, final(search_stack)@, old(search_stack)@.len() as int),
{
    let ghost start = search_stack@;
    let ghost from = start.len() as int;
    proof {
        reveal(all_steps);
        assert(search_stack@.subrange(0, from) =~= start);
    }
    let node: &'a Node = path.node;
    let letters = &path.remaining_letters;
    let tokens = letters.tokens();
    let mut i: usize = 0;
    while i < tokens.len()
        invariant
            node.wf(),
            node == path.node,
            letters == &path.remaining_letters,
            forall|c: char| tokens@.contains(c) <==> letters@.count(c) > 0,
            i <= tokens@.len(),
            search_stack@.len() >= from,
            from == start.len(),
            search_stack@.subrange(0, from) == start,
            all_steps(*path, search_stack@, from),
            forall|c: char, t: char|
                #[trigger] allowed(*path, c, t) && tokens@.take(i as int).contains(t) ==> has_leads(
                    *path,
                    search_stack@,
                    from,
                    c,
                    t,
                ),
        decreases tokens@.len() - i,
    {
        let t = tokens[i];
        let ghost before = search_stack@;
        assert(tokens@.contains(t));
        let rest = match decrement_count(letters.duplicate(), &t) {
            Ok(rest) => rest,
            Err(()) => {
                // `t` is one of the tokens left, so taking one cannot fail.
                assert(false);
                return;
            },
        };
        if t == WILDCARD {
            let mut j: usize = 0;
            while j < node.children.len()
                invariant
                    node.wf(),
                    node == path.node,
                    letters == &path.remaining_letters,
                    t == WILDCARD,
                    letters@.count(t) > 0,
                    rest@ == letters@.remove(t),
                    rest.total() + 1 == letters.total(),
                    j <= node.children@.len(),
                    from == start.len(),
                    search_stack@.len() >= from,
                    search_stack@.subrange(0, from) == start,
                    all_steps(*path, search_stack@, from),
                    forall|c: char, t2: char|
                        has_leads(*path, before, from, c, t2) ==> #[trigger] has_leads(
                            *path,
                            search_stack@,
                            from,
                            c,
                            t2,
                        ),
                    forall|x: int|
                        0 <= x < j ==> has_leads(
                            *path,
                            search_stack@,
                            from,
                            (#[trigger] node.children@[x]).0,
                            t,
                        ),
                decreases node.children@.len() - j,
            {
                let c = node.children[j].0;
                let child: &'a Node = &node.children[j].1;
                proof {
                    node.lemma_child_at(j as int);
                }
                let next = Path {
                    node: child,
                    remaining_letters: rest.duplicate(),
                    word_buf: extended(&path.word_buf, c),
                };
                let ghost mid = search_stack@;
                search_stack.push_back(next);
                proof {
                    lemma_push_step(*path, mid, from, next, c, t);
                }
                j = j + 1;
            }
            proof {
                assert forall|c: char| #[trigger] allowed(*path, c, t) implies has_leads(
                    *path,
                    search_stack@,
                    from,
                    c,
                    t,
                ) by {
                    let x = choose|x: int|
                        0 <= x < node.children@.len() && (#[trigger] node.children@[x]).0 == c;
                    assert(node.children@[x].0 == c);
                }
            }
        } else {
            match node.get_child(t) {
                Some(child) => {
                    let next = Path {
                        node: child,
                        remaining_letters: rest,
                        word_buf: extended(&path.word_buf, t),
                    };
                    search_stack.push_back(next);
                    proof {
                        lemma_push_step(*path, before, from, next, t, t);
                    }
                },
                None => {},
            }
        }
        proof {
            assert forall|c: char, t2: char|
                #[trigger] allowed(*path, c, t2) && tokens@.take(i + 1).contains(t2) implies has_leads(
                    *path,
                    search_stack@,
                    from,
                    c,
                    t2,
                ) by {
                assert(tokens@.take(i + 1) =~= tokens@.take(i as int).push(t));
                if t2 != t {
                    assert(tokens@.take(i as int).contains(t2));
                    assert(has_leads(*path, before, from, c, t2));
                } else if t != WILDCARD {
                    assert(c == t);
                }
            }
        }
        i = i + 1;
    }
    proof {
        assert(tokens@.take(tokens@.len() as int) =~= tokens@);
        lemma_conclude(*path, search_stack@, from);
        assert(search_stack@.subrange(0, from) == start);
    }
}

impl Node {
    /// The frontier at this node with budget `remaining_letters` and nothing
    /// spelled yet.
    pub fn start_path(&self, remaining_letters: LetterCounts) -> (r: Path)
        ensures
            *r.node == *self,
            r.remaining_letters == remaining_letters,
            r.word_buf@ == Seq::<char>::empty(),
    {
        Path { node: self, remaining_letters, word_buf: String::new() }
    }
}

} // verus!
