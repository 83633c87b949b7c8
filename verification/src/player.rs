//! The players: seats, points and the policies a player decides by.

use crate::tile::MahjongTile;
use vstd::prelude::*;

verus! {

/// The seat of a player. East is the dealer.
#[derive(Debug, Copy, Clone, PartialEq, Eq, Structural)]
pub enum SeatWind {
    East,
    South,
    West,
    North,
}

impl SeatWind {
    /// The seat that follows this one.
    pub open spec fn spec_next(self) -> SeatWind {
        match self {
            SeatWind::East => SeatWind::South,
            SeatWind::South => SeatWind::West,
            SeatWind::West => SeatWind::North,
            SeatWind::North => SeatWind::East,
        }
    }

    /// The seat that follows this one.
    #[verifier::when_used_as_spec(spec_next)]
    pub fn next(self) -> (r: SeatWind)
        ensures
            r == self.spec_next(),
    {
        match self {
            SeatWind::East => SeatWind::South,
            SeatWind::South => SeatWind::West,
            SeatWind::West => SeatWind::North,
            SeatWind::North => SeatWind::East,
        }
    }

    /// The rank of the wind tile that belongs to the seat.
    pub open spec fn spec_number(self) -> u8 {
        match self {
            SeatWind::East => 1,
            SeatWind::South => 2,
            SeatWind::West => 3,
            SeatWind::North => 4,
        }
    }

    /// The rank of the wind tile that belongs to the seat.
    #[verifier::when_used_as_spec(spec_number)]
    pub fn number(self) -> (r: u8)
        ensures
            r == self.spec_number(),
    {
        match self {
            SeatWind::East => 1,
            SeatWind::South => 2,
            SeatWind::West => 3,
            SeatWind::North => 4,
        }
    }
}

/// How a player answers a question that takes yes or no.
#[derive(Debug, Copy, Clone, PartialEq, Eq, Structural)]
pub enum CallPolicy {
    Always,
    Never,
}

/// How a player picks the tile to discard.
#[derive(Debug, Copy, Clone, PartialEq, Eq, Structural)]
pub enum DiscardPolicy {
    /// The first tile of the hand.
    First,
    /// The last of the tiles that no meld of the hand uses.
    Standard,
    /// Of the tiles that no meld uses, honors first, then tiles without a
    /// neighbor, then ends of a series.
    PinfuHunter,
}

/// What a player sees when deciding.
#[derive(Debug, Clone)]
pub struct StrategyInput {
    pub hand: Vec<MahjongTile>,
    pub discards: Vec<Vec<MahjongTile>>,
}

/// The policies of a player, one for each decision.
#[derive(Debug, Copy, Clone)]
pub struct Strategy {
    pub call_chi: CallPolicy,
    pub call_pon: CallPolicy,
    pub discard: DiscardPolicy,
    pub tsumo: CallPolicy,
    pub kan: CallPolicy,
    pub riichi: CallPolicy,
}

impl Strategy {
    /// A strategy of the given policies.
    pub fn new(
        call_chi: CallPolicy,
        call_pon: CallPolicy,
        discard: DiscardPolicy,
        tsumo: CallPolicy,
        kan: CallPolicy,
        riichi: CallPolicy,
    ) -> (r: Strategy)
        ensures
            r == (Strategy { call_chi, call_pon, discard, tsumo, kan, riichi }),
    {
        Strategy { call_chi, call_pon, discard, tsumo, kan, riichi }
    }

    /// The strategy that says yes to everything and discards the first tile.
    pub open spec fn spec_default() -> Strategy {
        Strategy {
            call_chi: CallPolicy::Always,
            call_pon: CallPolicy::Always,
            discard: DiscardPolicy::First,
            tsumo: CallPolicy::Always,
            kan: CallPolicy::Always,
            riichi: CallPolicy::Always,
        }
    }
}

impl Default for Strategy {
    fn default() -> (r: Strategy)
        ensures
            r == Strategy::spec_default(),
    {
        Strategy {
            call_chi: CallPolicy::Always,
            call_pon: CallPolicy::Always,
            discard: DiscardPolicy::First,
            tsumo: CallPolicy::Always,
            kan: CallPolicy::Always,
            riichi: CallPolicy::Always,
        }
    }
}

/// Discards the first tile, whatever the hand.
pub fn default_discard_strategy(_strategy_input: StrategyInput) -> (r: usize)
    ensures
        r == 0,
{
    0
}

/// Says yes, whatever the hand.
pub fn default_boolean_strategy(_strategy_input: StrategyInput) -> (r: bool)
    ensures
        r,
{
    true
}

/// Says no to every call, so that the hand stays closed.
pub fn never_open_hand(_strategy_input: StrategyInput) -> (r: bool)
    ensures
        !r,
{
    false
}

impl CallPolicy {
    /// The answer of the policy.
    pub open spec fn answer(self) -> bool {
        self == CallPolicy::Always
    }

    /// Decides by the policy.
    pub fn decide(self, input: StrategyInput) -> (r: bool)
        ensures
            r == self.answer(),
    {
        match self {
            CallPolicy::Always => default_boolean_strategy(input),
            CallPolicy::Never => never_open_hand(input),
        }
    }
}

/// A player: points, seat and strategy. Players are told apart by `id`.
#[derive(Debug, Clone)]
pub struct Player {
    pub points: i32,
    pub seat_wind: SeatWind,
    pub strategy: Strategy,
    pub id: usize,
}

impl Default for Player {
    fn default() -> (r: Player)
        ensures
            r.points == 25000,
            r.seat_wind == SeatWind::East,
            r.strategy == Strategy::spec_default(),
            r.id == 0,
    {
        Player { points: 25000, seat_wind: SeatWind::East, strategy: Strategy::default(), id: 0 }
    }
}

impl PartialEq for Player {
    fn eq(&self, other: &Self) -> (r: bool) {
        self.id == other.id
    }
}

impl vstd::std_specs::cmp::PartialEqSpecImpl for Player {
    open spec fn obeys_eq_spec() -> bool {
        true
    }

    open spec fn eq_spec(&self, other: &Self) -> bool {
        self.id == other.id
    }
}

impl Player {
    /// Moves the player to the next seat.
    pub fn next_wind(&mut self)
        ensures
            final(self).seat_wind == old(self).seat_wind.next(),
            final(self).points == old(self).points,
            final(self).strategy == old(self).strategy,
            final(self).id == old(self).id,
    {
        self.seat_wind = self.seat_wind.next();
    }
}

/// The final scores of the four players of one game.
pub struct GameResult {
    pub player_1_score: i32,
    pub player_2_score: i32,
    pub player_3_score: i32,
    pub player_4_score: i32,
}

} // verus!
