//! Tiles: the five suits, a tile's identity, and the order of tiles.

use std::cmp::Ordering;
use vstd::prelude::*;

verus! {

/// The category of a tile. The first three are the numbered series, in which
/// runs can be formed; the last two are the honor categories.
#[derive(Debug, Copy, Clone, PartialEq, Eq, Structural, PartialOrd, Ord, Hash)]
pub enum Suit {
    Manzu,
    Pinzu,
    Souzu,
    Kaze,
    Sangen,
}

impl Suit {
    /// Position of the suit in the order of suits.
    pub open spec fn index(self) -> int {
        match self {
            Suit::Manzu => 0,
            Suit::Pinzu => 1,
            Suit::Souzu => 2,
            Suit::Kaze => 3,
            Suit::Sangen => 4,
        }
    }

    /// Whether runs exist in this suit.
    pub open spec fn spec_is_series(self) -> bool {
        self == Suit::Manzu || self == Suit::Pinzu || self == Suit::Souzu
    }

    /// The highest rank of the suit.
    pub open spec fn max_rank(self) -> int {
        match self {
            Suit::Manzu | Suit::Pinzu | Suit::Souzu => 9,
            Suit::Kaze => 4,
            Suit::Sangen => 3,
        }
    }

    /// Position of the suit in the order of suits.
    pub fn ordinal(self) -> (r: u8)
        ensures
            r == self.index(),
    {
        match self {
            Suit::Manzu => 0,
            Suit::Pinzu => 1,
            Suit::Souzu => 2,
            Suit::Kaze => 3,
            Suit::Sangen => 4,
        }
    }

    /// Whether runs exist in this suit.
    #[verifier::when_used_as_spec(spec_is_series)]
    pub fn is_series(self) -> (r: bool)
        ensures
            r == self.spec_is_series(),
    {
        match self {
            Suit::Manzu | Suit::Pinzu | Suit::Souzu => true,
            _ => false,
        }
    }

    /// The highest rank of the suit.
    pub fn top_rank(self) -> (r: u8)
        ensures
            r == self.max_rank(),
    {
        match self {
            Suit::Manzu | Suit::Pinzu | Suit::Souzu => 9,
            Suit::Kaze => 4,
            Suit::Sangen => 3,
        }
    }
}

/// One tile. Its identity is the suit and the rank; the bonus flag rides
/// along and plays no part in equality or order.
#[derive(Debug, Copy, Clone, Eq)]
pub struct MahjongTile {
    pub suit: Suit,
    pub value: u8,
    pub is_dora: bool,
}

impl MahjongTile {
    /// The identity of the tile as one integer: tiles are equal exactly when
    /// their codes are equal, and they are ordered as their codes are.
    pub open spec fn code(self) -> int {
        self.suit.index() * 256 + self.value as int
    }

    /// Whether two tiles have the same identity.
    pub open spec fn same_kind(self, other: MahjongTile) -> bool {
        self.suit == other.suit && self.value == other.value
    }

    /// Whether the rank lies within the suit's range.
    pub open spec fn spec_well_formed(&self) -> bool {
        1 <= self.value <= self.suit.max_rank()
    }

    /// The code of the tile, by which tiles are ordered.
    pub fn sort_key(&self) -> (r: u16)
        ensures
            r == self.code(),
    {
        let s: u16 = self.suit.ordinal() as u16;
        s * 256 + self.value as u16
    }

    /// Whether the rank lies within the suit's range.
    #[verifier::when_used_as_spec(spec_well_formed)]
    pub fn well_formed(&self) -> (r: bool)
        ensures
            r == self.spec_well_formed(),
    {
        1 <= self.value && self.value <= self.suit.top_rank()
    }

    /// The same tile without the bonus flag.
    pub open spec fn spec_plain(&self) -> MahjongTile {
        MahjongTile { suit: self.suit, value: self.value, is_dora: false }
    }

    /// The same tile without the bonus flag.
    #[verifier::when_used_as_spec(spec_plain)]
    pub fn plain(&self) -> (r: MahjongTile)
        ensures
            r == self.spec_plain(),
    {
        MahjongTile { suit: self.suit, value: self.value, is_dora: false }
    }
}

/// Equal codes mean equal suit and rank.
pub proof fn lemma_code_identity(a: MahjongTile, b: MahjongTile)
    ensures
        a.code() == b.code() <==> a.same_kind(b),
{
}

impl DeepView for MahjongTile {
    type V = MahjongTile;

    open spec fn deep_view(&self) -> MahjongTile {
        *self
    }
}

impl PartialEq for MahjongTile {
    fn eq(&self, other: &Self) -> (r: bool) {
        self.suit == other.suit && self.value == other.value
    }
}

impl vstd::std_specs::cmp::PartialEqSpecImpl for MahjongTile {
    open spec fn obeys_eq_spec() -> bool {
        true
    }

    open spec fn eq_spec(&self, other: &Self) -> bool {
        self.suit == other.suit && self.value == other.value
    }
}

impl PartialOrd for MahjongTile {
    fn partial_cmp(&self, other: &Self) -> (r: Option<Ordering>) {
        let a = self.sort_key();
        let b = other.sort_key();
        if a < b {
            Some(Ordering::Less)
        } else if a == b {
            Some(Ordering::Equal)
        } else {
            Some(Ordering::Greater)
        }
    }
}

impl vstd::std_specs::cmp::PartialOrdSpecImpl for MahjongTile {
    open spec fn obeys_partial_cmp_spec() -> bool {
        true
    }

    open spec fn partial_cmp_spec(&self, other: &Self) -> Option<Ordering> {
        if self.code() < other.code() {
            Some(Ordering::Less)
        } else if self.code() == other.code() {
            Some(Ordering::Equal)
        } else {
            Some(Ordering::Greater)
        }
    }
}

} // verus!
