use vstd::prelude::*;
use vstd::set_lib::*;
use crate::token::{lemma_token_at, lemma_token_index, token_at, Token};

verus! {

/// Whether bit `i` of `bits` is set.
pub open spec fn bit_set(bits: u16, i: u16) -> bool {
    (bits >> i) & 1u16 == 1u16
}

/// The set of all nine tokens.
pub open spec fn all_tokens() -> Set<Token> {
    Set::new(|t: Token| true)
}

/// The set of candidate values of a cell, one bit per token.
#[derive(Clone, Copy, PartialEq, Eq, Debug, Structural)]
pub struct CandidateSet {
    bits: u16,
}

impl View for CandidateSet {
    type V = Set<Token>;

    closed spec fn view(&self) -> Set<Token> {
        Set::new(|t: Token| bit_set(self.bits, t.index()))
    }
}

proof fn lemma_bit_or(a: u16, b: u16, i: u16)
    by (bit_vector)
    requires
        i < 16,
    ensures
        bit_set(a | b, i) == (bit_set(a, i) || bit_set(b, i)),
{
}

proof fn lemma_bit_and_not(a: u16, b: u16, i: u16)
    by (bit_vector)
    requires
        i < 16,
    ensures
        bit_set(a & !b, i) == (bit_set(a, i) && !bit_set(b, i)),
{
}

proof fn lemma_bit_and(a: u16, b: u16, i: u16)
    by (bit_vector)
    requires
        i < 16,
    ensures
        bit_set(a & b, i) == (bit_set(a, i) && bit_set(b, i)),
{
}

proof fn lemma_bit_one(k: u16, i: u16)
    by (bit_vector)
    requires
        k < 16,
        i < 16,
    ensures
        bit_set(1u16 << k, i) == (i == k),
{
}

proof fn lemma_bit_all(i: u16)
    by (bit_vector)
    requires
        i < 9,
    ensures
        bit_set(0x1ffu16, i),
{
}

proof fn lemma_bit_none(i: u16)
    by (bit_vector)
    requires
        i < 16,
    ensures
        !bit_set(0u16, i),
{
}

/// The nine tokens form a finite set of nine members.
pub proof fn lemma_all_tokens()
    ensures
        all_tokens().finite(),
        all_tokens().len() == 9,
{
    let s = set![Token::_1, Token::_2, Token::_3, Token::_4, Token::_5, Token::_6, Token::_7, Token::_8, Token::_9];
    assert(all_tokens() =~= s);
    assert(s.len() == 9) by {
        broadcast use group_set_properties;
    }
}

/// Any set of tokens is finite and has at most nine members.
pub proof fn lemma_token_set_finite(s: Set<Token>)
    ensures
        s.finite(),
        s.len() <= 9,
{
    lemma_all_tokens();
    lemma_len_subset(s, all_tokens());
}

/// The tokens of `s` whose position is below `i`.
spec fn members_below(s: CandidateSet, i: u16) -> Set<Token> {
    Set::new(|t: Token| bit_set(s.bits, t.index()) && t.index() < i)
}

impl CandidateSet {
    /// The set of all nine tokens.
    pub fn all() -> (r: CandidateSet)
        ensures
            r@ == all_tokens(),
    {
        let r = CandidateSet { bits: 0x1ff };
        assert forall|t: Token| #[trigger] r@.contains(t) by {
            lemma_token_index(t);
            lemma_bit_all(t.index());
        }
        assert(r@ =~= all_tokens());
        r
    }

    /// The empty set.
    pub fn empty() -> (r: CandidateSet)
        ensures
            r@ == Set::<Token>::empty(),
    {
        let r = CandidateSet { bits: 0 };
        assert forall|t: Token| !#[trigger] r@.contains(t) by {
            lemma_token_index(t);
            lemma_bit_none(t.index());
        }
        assert(r@ =~= Set::<Token>::empty());
        r
    }

    /// The set holding `t` alone.
    pub fn only(t: Token) -> (r: CandidateSet)
        ensures
            r@ == set![t],
    {
        let r = CandidateSet { bits: t.mask() };
        assert forall|u: Token| #[trigger] r@.contains(u) == (u == t) by {
            lemma_token_index(u);
            lemma_token_index(t);
            lemma_bit_one(t.index(), u.index());
        }
        assert(r@ =~= set![t]);
        r
    }

    /// Whether `t` is a member.
    pub fn contains(&self, t: Token) -> (r: bool)
        ensures
            r == self@.contains(t),
    {
        proof {
            lemma_token_index(t);
        }
        (self.bits >> t.index_exec()) & 1 == 1
    }

    /// The members of either set.
    pub fn union(&self, other: &CandidateSet) -> (r: CandidateSet)
        ensures
            r@ == self@.union(other@),
    {
        let r = CandidateSet { bits: self.bits | other.bits };
        assert forall|t: Token| #[trigger] r@.contains(t) == self@.union(other@).contains(t) by {
            lemma_token_index(t);
            lemma_bit_or(self.bits, other.bits, t.index());
        }
        assert(r@ =~= self@.union(other@));
        r
    }

    /// The members of both sets.
    pub fn intersection(&self, other: &CandidateSet) -> (r: CandidateSet)
        ensures
            r@ == self@.intersect(other@),
    {
        let r = CandidateSet { bits: self.bits & other.bits };
        assert forall|t: Token| #[trigger] r@.contains(t) == self@.intersect(other@).contains(t) by {
            lemma_token_index(t);
            lemma_bit_and(self.bits, other.bits, t.index());
        }
        assert(r@ =~= self@.intersect(other@));
        r
    }

    /// The members of `self` that are not in `other`.
    pub fn difference(&self, other: &CandidateSet) -> (r: CandidateSet)
        ensures
            r@ == self@.difference(other@),
    {
        let r = CandidateSet { bits: self.bits & !other.bits };
        assert forall|t: Token| #[trigger] r@.contains(t) == self@.difference(other@).contains(t) by {
            lemma_token_index(t);
            lemma_bit_and_not(self.bits, other.bits, t.index());
        }
        assert(r@ =~= self@.difference(other@));
        r
    }

    /// The number of members.
    pub fn len(&self) -> (r: u16)
        ensures
            r as nat == self@.len(),
            r <= 9,
    {
        let mut n: u16 = 0;
        let mut i: u16 = 0;
        proof {
            assert(members_below(*self, 0) =~= Set::<Token>::empty());
        }
        while i < 9
            invariant
                i <= 9,
                n <= i,
                n as nat == members_below(*self, i).len(),
            decreases 9 - i,
        {
            let ghost before = members_below(*self, i);
            proof {
                lemma_token_set_finite(before);
                lemma_token_at(i);
            }
            if (self.bits >> i) & 1 == 1 {
                assert(members_below(*self, (i + 1) as u16) =~= before.insert(token_at(i)));
                n = n + 1;
            } else {
                assert(members_below(*self, (i + 1) as u16) =~= before);
            }
            i = i + 1;
        }
        assert forall|t: Token| #[trigger] self@.contains(t) == members_below(*self, 9).contains(t) by {
            lemma_token_index(t);
        }
        assert(self@ =~= members_below(*self, 9));
        n
    }

    /// Whether the set has no members.
    pub fn is_empty(&self) -> (r: bool)
        ensures
            r == (self@.len() == 0),
            r == (self@ == Set::<Token>::empty()),
    {
        proof {
            lemma_token_set_finite(self@);
            if self@.len() == 0 {
                self@.lemma_len0_is_empty();
            }
        }
        self.len() == 0
    }
}

} // verus!
