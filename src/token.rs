use vstd::prelude::*;

verus! {

/// One of the nine values a cell can hold, the digits 1 to 9.
#[derive(Clone, Copy, PartialEq, Eq, Debug, Structural)]
pub enum Token {
    _1,
    _2,
    _3,
    _4,
    _5,
    _6,
    _7,
    _8,
    _9,
}

/// The token whose position among the nine values is `i` (0 for `_1`).
pub open spec fn token_at(i: u16) -> Token {
    if i == 0 {
        Token::_1
    } else if i == 1 {
        Token::_2
    } else if i == 2 {
        Token::_3
    } else if i == 3 {
        Token::_4
    } else if i == 4 {
        Token::_5
    } else if i == 5 {
        Token::_6
    } else if i == 6 {
        Token::_7
    } else if i == 7 {
        Token::_8
    } else {
        Token::_9
    }
}

impl Token {
    /// Position of the token among the nine values: the digit minus one.
    pub open spec fn index(self) -> u16 {
        match self {
            Token::_1 => 0,
            Token::_2 => 1,
            Token::_3 => 2,
            Token::_4 => 3,
            Token::_5 => 4,
            Token::_6 => 5,
            Token::_7 => 6,
            Token::_8 => 7,
            Token::_9 => 8,
        }
    }

    /// The digit that the token stands for.
    pub open spec fn digit(self) -> u8 {
        (self.index() + 1) as u8
    }

    /// The token for a digit from 1 to 9.
    pub fn from_u8(n: u8) -> (r: Token)
        requires
            1 <= n <= 9,
        ensures
            r.digit() == n,
    {
        match n {
            1 => Token::_1,
            2 => Token::_2,
            3 => Token::_3,
            4 => Token::_4,
            5 => Token::_5,
            6 => Token::_6,
            7 => Token::_7,
            8 => Token::_8,
            _ => Token::_9,
        }
    }

    /// The digit that the token stands for.
    pub fn to_u8(self) -> (r: u8)
        ensures
            r == self.digit(),
    {
        match self {
            Token::_1 => 1,
            Token::_2 => 2,
            Token::_3 => 3,
            Token::_4 => 4,
            Token::_5 => 5,
            Token::_6 => 6,
            Token::_7 => 7,
            Token::_8 => 8,
            Token::_9 => 9,
        }
    }

    /// Position of the token among the nine values.
    pub fn index_exec(self) -> (r: u16)
        ensures
            r == self.index(),
    {
        match self {
            Token::_1 => 0,
            Token::_2 => 1,
            Token::_3 => 2,
            Token::_4 => 3,
            Token::_5 => 4,
            Token::_6 => 5,
            Token::_7 => 6,
            Token::_8 => 7,
            Token::_9 => 8,
        }
    }

    /// The one-bit mask of the token: bit `index()` set.
    pub fn mask(self) -> (r: u16)
        ensures
            r == 1u16 << self.index(),
    {
        proof {
            lemma_one_bit_masks();
        }
        match self {
            Token::_1 => 1,
            Token::_2 => 2,
            Token::_3 => 4,
            Token::_4 => 8,
            Token::_5 => 16,
            Token::_6 => 32,
            Token::_7 => 64,
            Token::_8 => 128,
            Token::_9 => 256,
        }
    }
}

proof fn lemma_one_bit_masks()
    by (bit_vector)
    ensures
        1u16 << 0u16 == 1u16,
        1u16 << 1u16 == 2u16,
        1u16 << 2u16 == 4u16,
        1u16 << 3u16 == 8u16,
        1u16 << 4u16 == 16u16,
        1u16 << 5u16 == 32u16,
        1u16 << 6u16 == 64u16,
        1u16 << 7u16 == 128u16,
        1u16 << 8u16 == 256u16,
{
}

/// Positions and tokens correspond one to one.
pub proof fn lemma_token_index(t: Token)
    ensures
        t.index() < 9,
        token_at(t.index()) == t,
{
}

/// The token at a position has that position.
pub proof fn lemma_token_at(i: u16)
    requires
        i < 9,
    ensures
        token_at(i).index() == i,
{
}

} // verus!
