//! The letter budget of a query: how many of each lowercase letter and how
//! many wildcards are still available.

use crate::text::{ascii_lower, chars_of, fold_char, is_ascii_text, lowercase_head, WILDCARD};
use vstd::multiset::Multiset;
use vstd::prelude::*;

verus! {

broadcast use vstd::multiset::group_multiset_properties;

/// Number of distinct tokens: the 26 lowercase letters and the wildcard.
pub const TOKEN_SLOTS: usize = 27;

/// The slot that holds the wildcard count.
pub const WILDCARD_SLOT: usize = 26;

/// A token is a lowercase ASCII letter or the wildcard.
pub open spec fn is_token(c: char) -> bool {
    ('a' <= c && c <= 'z') || c == WILDCARD
}

/// Where the count of token `c` is kept.
pub open spec fn slot_of(c: char) -> int {
    if c == WILDCARD {
        WILDCARD_SLOT as int
    } else {
        c as int - 'a' as int
    }
}

/// The token that one character of a query provides, if any: the character
/// is case folded and kept when it is then a letter or the wildcard.
pub open spec fn query_token(c: char) -> Option<char> {
    match lowercase_head(c) {
        Some(l) => if is_token(l) {
            Some(l)
        } else {
            None
        },
        None => None,
    }
}

/// The multiset of tokens that a query string provides.
pub open spec fn budget_of(letters: Seq<char>) -> Multiset<char>
    decreases letters.len(),
{
    if letters.len() == 0 {
        Multiset::empty()
    } else {
        let before = budget_of(letters.drop_last());
        match query_token(letters.last()) {
            Some(t) => before.insert(t),
            None => before,
        }
    }
}

/// The token that an ASCII character of a query provides, if any: its
/// ASCII lowercase, when that is a letter or the wildcard.
pub open spec fn ascii_token(c: char) -> Option<char> {
    if is_token(ascii_lower(c)) {
        Some(ascii_lower(c))
    } else {
        None
    }
}

/// The multiset of tokens that an all-ASCII query string provides.
pub open spec fn ascii_budget_of(letters: Seq<char>) -> Multiset<char>
    decreases letters.len(),
{
    if letters.len() == 0 {
        Multiset::empty()
    } else {
        let before = ascii_budget_of(letters.drop_last());
        match ascii_token(letters.last()) {
            Some(t) => before.insert(t),
            None => before,
        }
    }
}

/// Sum of a sequence of counts.
pub open spec fn sum_of(s: Seq<usize>) -> nat
    decreases s.len(),
{
    if s.len() == 0 {
        0
    } else {
        sum_of(s.drop_last()) + s.last() as nat
    }
}

proof fn lemma_sum_update(s: Seq<usize>, k: int, v: usize)
    requires
        0 <= k < s.len(),
    ensures
        sum_of(s.update(k, v)) + s[k] == sum_of(s) + v,
    decreases s.len(),
{
    if k < s.len() - 1 {
        lemma_sum_update(s.drop_last(), k, v);
        assert(s.update(k, v).drop_last() =~= s.drop_last().update(k, v));
    } else {
        assert(s.update(k, v).drop_last() =~= s.drop_last());
    }
}

proof fn lemma_token_set_finite()
    ensures
        Set::new(|c: char| is_token(c)).finite(),
{
    let s = set![
        'a', 'b', 'c', 'd', 'e', 'f', 'g', 'h', 'i', 'j', 'k', 'l', 'm',
        'n', 'o', 'p', 'q', 'r', 's', 't', 'u', 'v', 'w', 'x', 'y', 'z', '*',
    ];
    assert(Set::new(|c: char| is_token(c)) =~= s);
}

/// Counts of the tokens still available, one slot per token.
#[derive(Debug, PartialEq, Eq)]
pub struct LetterCounts {
    counts: Vec<usize>,
}

impl View for LetterCounts {
    type V = Multiset<char>;

    closed spec fn view(&self) -> Multiset<char> {
        Multiset::from_map(
            Map::new(|c: char| is_token(c), |c: char| self.counts@[slot_of(c)] as nat),
        )
    }
}

impl LetterCounts {
    #[verifier::type_invariant]
    spec fn inv(self) -> bool {
        self.counts.len() == TOKEN_SLOTS
    }

    /// Total number of tokens available.
    pub closed spec fn total(self) -> nat {
        sum_of(self.counts@)
    }

    proof fn lemma_count(self, c: char)
        requires
            self.counts.len() == TOKEN_SLOTS,
        ensures
            self@.count(c) == if is_token(c) {
                self.counts@[slot_of(c)] as nat
            } else {
                0
            },
    {
        lemma_token_set_finite();
    }

    /// A second budget with the same tokens.
    pub fn duplicate(&self) -> (r: Self)
        ensures
            r@ == self@,
            r.total() == self.total(),
    {
        proof {
            use_type_invariant(self);
        }
        let counts = self.counts.clone();
        assert(counts@ =~= self.counts@);
        LetterCounts { counts }
    }

    /// No tokens at all.
    pub fn new() -> (r: Self)
        ensures
            r@ == Multiset::<char>::empty(),
            r.total() == 0,
    {
        let mut counts: Vec<usize> = Vec::new();
        let mut i: usize = 0;
        while i < TOKEN_SLOTS
            invariant
                i <= TOKEN_SLOTS,
                counts.len() == i,
                forall|k: int| 0 <= k < i ==> counts@[k] == 0,
            decreases TOKEN_SLOTS - i,
        {
            counts.push(0);
            i = i + 1;
        }
        let r = LetterCounts { counts };
        proof {
            assert forall|c: char| r@.count(c) == Multiset::<char>::empty().count(c) by {
                r.lemma_count(c);
            }
            assert(r@ =~= Multiset::<char>::empty());
            assert forall|k: int| 0 <= k <= counts.len() implies sum_of(counts@.take(k)) == 0 by {
                lemma_sum_zero(counts@, k);
            }
            assert(counts@.take(TOKEN_SLOTS as int) =~= counts@);
        }
        r
    }

    /// How many of token `c` are available.
    pub fn count(&self, c: char) -> (r: usize)
        ensures
            r == self@.count(c),
    {
        proof {
            use_type_invariant(self);
            self.lemma_count(c);
        }
        match slot(c) {
            Some(k) => self.counts[k],
            None => 0,
        }
    }

    /// Sets the number of token `c` to `n`.
    pub fn set_count(&mut self, c: char, n: usize)
        requires
            is_token(c),
        ensures
            final(self)@ == old(self)@.update(c, n as nat),
            final(self).total() + old(self)@.count(c) == old(self).total() + n,
    {
        proof {
            use_type_invariant(&*self);
            self.lemma_count(c);
        }
        let k = slot(c).unwrap();
        let ghost before = *self;
        let mut counts = self.counts.clone();
        assert(counts@ =~= before.counts@);
        counts.set(k, n);
        *self = LetterCounts { counts };
        proof {
            assert forall|x: char| self@.count(x) == before@.update(c, n as nat).count(x) by {
                self.lemma_count(x);
                before.lemma_count(x);
            }
            assert(self@ =~= before@.update(c, n as nat));
            lemma_sum_update(before.counts@, k as int, n);
        }
    }

    /// Adds one token `c`.
    pub fn add_one(&mut self, c: char)
        requires
            is_token(c),
            old(self)@.count(c) < usize::MAX,
        ensures
            final(self)@ == old(self)@.insert(c),
    {
        let n = self.count(c);
        self.set_count(c, n + 1);
        proof {
            assert(old(self)@.update(c, (n + 1) as nat) =~= old(self)@.insert(c));
        }
    }

    /// The tokens with at least one left, in slot order (letters, then the
    /// wildcard).
    pub fn tokens(&self) -> (r: Vec<char>)
        ensures
            forall|c: char| r@.contains(c) <==> self@.count(c) > 0,
            r@.no_duplicates(),
    {
        proof {
            use_type_invariant(self);
        }
        let mut r: Vec<char> = Vec::new();
        let mut k: usize = 0;
        while k < TOKEN_SLOTS
            invariant
                k <= TOKEN_SLOTS,
                self.counts.len() == TOKEN_SLOTS,
                r@.no_duplicates(),
                forall|c: char| #[trigger] r@.contains(c) <==> (is_token(c) && slot_of(c) < k && self.counts@[slot_of(c)] > 0),
            decreases TOKEN_SLOTS - k,
        {
            let ghost before = r@;
            let c = token_in_slot(k);
            if self.counts[k] > 0 {
                assert(!before.contains(c));
                r.push(c);
                proof {
                    assert forall|i: int, j: int| 0 <= i < j < r@.len() implies r@[i] != r@[j] by {
                        if j == r@.len() - 1 {
                            assert(before[i] == r@[i]);
                            assert(before.contains(r@[i]));
                        }
                    }
                }
            }
            proof {
                assert forall|x: char| #[trigger] r@.contains(x) <==> (is_token(x) && slot_of(x) < k + 1 && self.counts@[slot_of(x)] > 0) by {
                    lemma_push_contains(before, c, x);
                    if is_token(x) && slot_of(x) == k {
                        lemma_slot_injective(x, c);
                    }
                }
            }
            k = k + 1;
        }
        proof {
            assert forall|c: char| r@.contains(c) <==> self@.count(c) > 0 by {
                self.lemma_count(c);
            }
        }
        r
    }
}

/// Appending `c` to `s` adds exactly `c` to what it contains.
pub proof fn lemma_push_contains<T>(s: Seq<T>, c: T, x: T)
    ensures
        s.push(c).contains(x) <==> (s.contains(x) || x == c),
{
    if s.contains(x) {
        let i = choose|i: int| 0 <= i < s.len() && s[i] == x;
        assert(s.push(c)[i] == x);
    }
    if x == c {
        assert(s.push(c)[s.len() as int] == x);
    }
    if s.push(c).contains(x) {
        let i = choose|i: int| 0 <= i < s.push(c).len() && s.push(c)[i] == x;
        if i < s.len() {
            assert(s[i] == x);
        }
    }
}

proof fn lemma_slot_injective(x: char, y: char)
    requires
        is_token(x),
        is_token(y),
        slot_of(x) == slot_of(y),
    ensures
        x == y,
{
}

proof fn lemma_sum_zero(s: Seq<usize>, k: int)
    requires
        0 <= k <= s.len(),
        forall|i: int| 0 <= i < s.len() ==> s[i] == 0,
    ensures
        sum_of(s.take(k)) == 0,
    decreases k,
{
    if k > 0 {
        lemma_sum_zero(s, k - 1);
        assert(s.take(k).drop_last() =~= s.take(k - 1));
    }
}

/// The token kept in slot `k`.
pub open spec fn token_in_slot_spec(k: int) -> char
    recommends
        0 <= k < TOKEN_SLOTS,
{
    if k == WILDCARD_SLOT {
        WILDCARD
    } else {
        (97 + k) as char
    }
}

fn token_in_slot(k: usize) -> (c: char)
    requires
        k < TOKEN_SLOTS,
    ensures
        c == token_in_slot_spec(k as int),
        is_token(c),
        slot_of(c) == k,
{
    if k == WILDCARD_SLOT {
        WILDCARD
    } else {
        (97u8 + k as u8) as char
    }
}

fn slot(c: char) -> (r: Option<usize>)
    ensures
        r is Some <==> is_token(c),
        r matches Some(k) ==> k == slot_of(c) && k < TOKEN_SLOTS,
{
    if c == WILDCARD {
        Some(WILDCARD_SLOT)
    } else if 'a' <= c && c <= 'z' {
        Some((c as u32 - 97) as usize)
    } else {
        None
    }
}

/// Whether `word` can be spelled from `budget`: each character in turn is
/// taken either from its own tokens or from a wildcard.
pub open spec fn spellable(word: Seq<char>, budget: Multiset<char>) -> bool
    decreases word.len(),
{
    if word.len() == 0 {
        true
    } else {
        let c = word[0];
        ||| (c != WILDCARD && budget.count(c) > 0 && spellable(word.drop_first(), budget.remove(c)))
        ||| (budget.count(WILDCARD) > 0 && spellable(word.drop_first(), budget.remove(WILDCARD)))
    }
}

/// Takes one token `ch` out of `counts`, or fails when none is left.
pub fn decrement_count(counts: LetterCounts, ch: &char) -> (r: Result<LetterCounts, ()>)
    ensures
        r is Ok <==> counts@.count(*ch) > 0,
        r matches Ok(rest) ==> rest@ == counts@.remove(*ch) && rest.total() + 1 == counts.total(),
{
    let n = counts.count(*ch);
    if n == 0 {
        Err(())
    } else {
        proof {
            use_type_invariant(&counts);
            counts.lemma_count(*ch);
        }
        let mut rest = counts;
        rest.set_count(*ch, n - 1);
        proof {
            assert(counts@.update(*ch, (n - 1) as nat) =~= counts@.remove(*ch));
        }
        Ok(rest)
    }
}

/// Whether `c` is a token: a lowercase ASCII letter or the wildcard.
pub fn is_token_char(c: char) -> (r: bool)
    ensures
        r == is_token(c),
{
    ('a' <= c && c <= 'z') || c == WILDCARD
}

/// The budget that a query string provides: every character is case folded
/// and counted when it is then a letter or the wildcard; anything else is
/// dropped. An all-ASCII query is folded character by character.
pub fn to_frequency_map(letters: &str) -> (r: LetterCounts)
    ensures
        r@ == budget_of(letters@),
        is_ascii_text(letters@) ==> r@ == ascii_budget_of(letters@),
{
    let chars = chars_of(letters);
    let mut r = LetterCounts::new();
    let mut i: usize = 0;
    while i < chars.len()
        invariant
            i <= chars.len(),
            chars@ == letters@,
            r@ == budget_of(chars@.take(i as int)),
            is_ascii_text(chars@.take(i as int)) ==> budget_of(chars@.take(i as int)) == ascii_budget_of(
                chars@.take(i as int),
            ),
            forall|x: char| r@.count(x) <= i,
        decreases chars.len() - i,
    {
        let c = chars[i];
        let ghost before = r@;
        proof {
            assert(chars@.take(i + 1).drop_last() =~= chars@.take(i as int));
            assert(chars@.take(i + 1).last() == c);
        }
        let folded = fold_char(c);
        proof {
            let p = chars@.take(i + 1);
            if is_ascii_text(p) {
                assert(is_ascii_text(chars@.take(i as int))) by {
                    assert forall|j: int| 0 <= j < i implies #[trigger] chars@.take(i as int)[j] <= '\u{7f}' by {
                        assert(chars@.take(i as int)[j] == p[j]);
                    }
                }
                assert(p[i as int] <= '\u{7f}');
                assert(query_token(c) == ascii_token(c));
            }
        }
        match folded {
            Some(l) => {
                if is_token_char(l) {
                    r.add_one(l);
                }
            },
            None => {},
        }
        proof {
            assert forall|x: char| r@.count(x) <= i + 1 by {
                assert(before.count(x) <= i);
            }
        }
        i = i + 1;
    }
    proof {
        assert(chars@.take(chars.len() as int) =~= chars@);
    }
    r
}

} // verus!
