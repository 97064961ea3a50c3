//! Properties that relate several operations of the library, proved over
//! the views and spec functions that the operations' contracts use.

use crate::counts::{budget_of, spellable};
use crate::pattern::whole_match;
use crate::scoring::{pair_views, rank_lt, ranked, strictly_ranked};
use crate::text::{lemma_lex_asymmetric, lemma_lex_irreflexive, lowercase_of, WILDCARD};
use crate::word_trie::{found_words, lists_sorted, matching_words, views};
use vstd::multiset::Multiset;
use vstd::prelude::*;

verus! {

/// Inserting the same word twice leaves the dictionary, and so every query
/// result, as inserting it once does. (`WordTrie::insert` adds the word
/// folded to lowercase to the dictionary's set of words.)
pub proof fn law_insert_idempotent(dict: Set<Seq<char>>, word: Seq<char>, letters: Seq<char>)
    ensures
        dict.insert(lowercase_of(word)).insert(lowercase_of(word)) == dict.insert(lowercase_of(word)),
        found_words(dict.insert(lowercase_of(word)).insert(lowercase_of(word)), letters)
            == found_words(dict.insert(lowercase_of(word)), letters),
{
    assert(dict.insert(lowercase_of(word)).insert(lowercase_of(word)) =~= dict.insert(lowercase_of(word)));
}

/// How many times `c` occurs in `w`.
pub open spec fn occurrences(w: Seq<char>, c: char) -> nat
    decreases w.len(),
{
    if w.len() == 0 {
        0
    } else {
        (if w[0] == c {
            1nat
        } else {
            0nat
        }) + occurrences(w.drop_first(), c)
    }
}

proof fn lemma_remove_one(m: Multiset<char>, t: char)
    requires
        m.count(t) > 0,
    ensures
        m.remove(t).len() + 1 == m.len(),
        m.remove(t).count(t) + 1 == m.count(t),
        forall|x: char| x != t ==> m.remove(t).count(x) == m.count(x),
{
    assert(Multiset::singleton(t).subset_of(m)) by {
        assert forall|x: char| Multiset::singleton(t).count(x) <= m.count(x) by {
            if x != t {
                assert(Multiset::singleton(t).count(x) == 0);
            }
        }
    }
}

/// A word spelled from a budget is no longer than the budget, and uses each
/// letter no more often than its own tokens and the wildcards allow.
proof fn lemma_spellable_bounds(w: Seq<char>, m: Multiset<char>)
    requires
        spellable(w, m),
    ensures
        w.len() <= m.len(),
        forall|c: char| c != WILDCARD ==> #[trigger] occurrences(w, c) <= m.count(c) + m.count(WILDCARD),
    decreases w.len(),
{
    if w.len() > 0 {
        let c0 = w[0];
        let rest = w.drop_first();
        let t = if c0 != WILDCARD && m.count(c0) > 0 && spellable(rest, m.remove(c0)) {
            c0
        } else {
            WILDCARD
        };
        lemma_remove_one(m, t);
        lemma_spellable_bounds(rest, m.remove(t));
        assert forall|c: char| c != WILDCARD implies #[trigger] occurrences(w, c) <= m.count(c) + m.count(WILDCARD) by {
            assert(occurrences(rest, c) <= m.remove(t).count(c) + m.remove(t).count(WILDCARD));
        }
    }
}

/// Every word found for `letters` has at most as many characters as the
/// query provides tokens, and uses each letter at most as often as the query
/// provides that letter plus wildcards.
pub proof fn law_budget_soundness(dict: Set<Seq<char>>, letters: Seq<char>, w: Seq<char>)
    requires
        found_words(dict, letters).contains(w),
    ensures
        w.len() <= budget_of(letters).len(),
        forall|c: char|
            c != WILDCARD ==> #[trigger] occurrences(w, c) <= budget_of(letters).count(c) + budget_of(
                letters,
            ).count(WILDCARD),
{
    lemma_spellable_bounds(w, budget_of(letters));
}

/// The words that match a pattern are exactly the words found without it
/// that match the pattern as a whole.
pub proof fn law_pattern_filter(
    all: Seq<String>,
    matched: Seq<String>,
    dict: Set<Seq<char>>,
    letters: Seq<char>,
    pattern: Seq<char>,
)
    requires
        lists_sorted(all, found_words(dict, letters)),
        lists_sorted(matched, matching_words(dict, letters, pattern)),
    ensures
        views(matched).to_set() == views(all).to_set().filter(|w: Seq<char>| whole_match(pattern, w)),
{
}

proof fn lemma_rank_irreflexive(x: (Seq<char>, u8))
    ensures
        !rank_lt(x, x),
{
    lemma_lex_irreflexive(x.0);
}

proof fn lemma_rank_asymmetric(x: (Seq<char>, u8), y: (Seq<char>, u8))
    ensures
        !(rank_lt(x, y) && rank_lt(y, x)),
{
    lemma_lex_asymmetric(x.0, y.0);
}

/// Two sequences that both strictly increase in rank order and hold the
/// same pairs are the same sequence.
proof fn lemma_ranked_unique(a: Seq<(Seq<char>, u8)>, b: Seq<(Seq<char>, u8)>)
    requires
        strictly_ranked(a),
        strictly_ranked(b),
        a.to_set() == b.to_set(),
    ensures
        a == b,
    decreases a.len(),
{
    if a.len() == 0 {
        if b.len() > 0 {
            assert(b.to_set().contains(b[0]));
        }
        assert(a =~= b);
    } else {
        assert(a.to_set().contains(a[0]));
        assert(b.to_set().contains(a[0]));
        let j = choose|j: int| 0 <= j < b.len() && b[j] == a[0];
        assert(b.to_set().contains(b[0]));
        let i = choose|i: int| 0 <= i < a.len() && a[i] == b[0];
        if j > 0 {
            if i > 0 {
                lemma_rank_asymmetric(a[0], a[i]);
            } else {
                lemma_rank_irreflexive(b[0]);
            }
        }
        let a2 = a.drop_first();
        let b2 = b.drop_first();
        assert forall|x: (Seq<char>, u8)| a2.to_set().contains(x) <==> b2.to_set().contains(x) by {
            if a2.to_set().contains(x) {
                let k = choose|k: int| 0 <= k < a2.len() && a2[k] == x;
                assert(rank_lt(a[0], a[k + 1]));
                lemma_rank_irreflexive(x);
                assert(b.to_set().contains(x));
                let m = choose|m: int| 0 <= m < b.len() && b[m] == x;
                assert(m != 0);
                assert(b2[m - 1] == x);
            }
            if b2.to_set().contains(x) {
                let k = choose|k: int| 0 <= k < b2.len() && b2[k] == x;
                assert(rank_lt(b[0], b[k + 1]));
                lemma_rank_irreflexive(x);
                assert(a.to_set().contains(x));
                let m = choose|m: int| 0 <= m < a.len() && a[m] == x;
                assert(m != 0);
                assert(a2[m - 1] == x);
            }
        }
        assert(a2.to_set() =~= b2.to_set());
        lemma_ranked_unique(a2, b2);
        assert(a =~= b) by {
            assert forall|k: int| 0 <= k < a.len() implies a[k] == b[k] by {
                if k > 0 {
                    assert(a[k] == a2[k - 1]);
                    assert(b[k] == b2[k - 1]);
                }
            }
        }
    }
}

/// Ranking is deterministic: two rankings of the same words under the same
/// score table list the same pairs in the same order, ties included.
pub proof fn law_ranking_determinism(
    r1: Seq<(String, u8)>,
    r2: Seq<(String, u8)>,
    words: Set<Seq<char>>,
    table: Map<char, u8>,
)
    requires
        ranked(r1, words, table),
        ranked(r2, words, table),
    ensures
        pair_views(r1) == pair_views(r2),
{
    lemma_ranked_unique(pair_views(r1), pair_views(r2));
}

} // verus!
