//! The discard strategies, and the four players of a game.

use crate::calls::{find_tile_in_hand, lemma_first_exists, lemma_first_in_range, place_or_14};
use crate::hand::{lemma_sorted_tiles, sorted_copy, sorted_tiles};
use crate::partial::{get_partial_completion, lemma_partial_completion, partial_completion};
use crate::player::{
    default_discard_strategy, CallPolicy, DiscardPolicy, Player, SeatWind, Strategy, StrategyInput,
};
use crate::tile::{MahjongTile, Suit};
use vstd::prelude::*;

verus! {

/// The tiles of the hand that no meld uses, taken from the sorted hand.
pub open spec fn loose_tiles(hand: Seq<MahjongTile>) -> Seq<MahjongTile> {
    partial_completion(sorted_tiles(hand))
}

/// The place of the tile to discard: that of the last loose tile; 13 where
/// there is none.
pub open spec fn standard_discard(hand: Seq<MahjongTile>) -> int {
    let p = loose_tiles(hand);
    if p.len() == 0 {
        13
    } else {
        place_or_14(hand, p.last())
    }
}

/// Each loose tile stands in the hand.
pub proof fn lemma_loose_tile_place(hand: Seq<MahjongTile>, j: int)
    requires
        0 <= j < loose_tiles(hand).len(),
    ensures
        0 <= place_or_14(hand, loose_tiles(hand)[j]) < hand.len(),
{
    broadcast use vstd::multiset::group_multiset_axioms;
    broadcast use vstd::seq_lib::group_to_multiset_ensures;

    let p = loose_tiles(hand);
    let x = p[j];
    lemma_sorted_tiles(hand);
    lemma_partial_completion(sorted_tiles(hand));
    assert(p.contains(x));
    assert(p.to_multiset().count(x) > 0);
    assert(hand.to_multiset().count(x) > 0);
    assert(hand.contains(x));
    let k = choose|k: int| 0 <= k < hand.len() && hand[k] == x;
    lemma_first_exists(hand, x, k);
    lemma_first_in_range(hand, x);
}

/// Discards the last of the tiles that no meld of the hand uses. The answer
/// is a place of the hand, or 13 where every tile is used.
pub fn standard_discarder(strat: StrategyInput) -> (r: usize)
    ensures
        r == standard_discard(strat.hand@),
        r < strat.hand.len() || (r == 13 && loose_tiles(strat.hand@).len() == 0),
{
    let own_hand = sorted_copy(strat.hand.as_slice());
    let partial_hand = get_partial_completion(own_hand.as_slice());
    if partial_hand.len() == 0 {
        return 13;
    }
    proof {
        lemma_loose_tile_place(strat.hand@, partial_hand.len() - 1);
    }
    find_tile_in_hand(strat.hand.as_slice(), &partial_hand[partial_hand.len() - 1])
}

/// The place of the first honor at or behind `i`.
pub open spec fn first_honor(p: Seq<MahjongTile>, i: int) -> Option<int>
    decreases p.len() - i,
{
    if i < 0 || i >= p.len() {
        None
    } else if p[i].suit == Suit::Sangen || p[i].suit == Suit::Kaze {
        Some(i)
    } else {
        first_honor(p, i + 1)
    }
}

/// The place of the first tile of rank 1 or 9 at or behind `i`.
pub open spec fn first_end(p: Seq<MahjongTile>, i: int) -> Option<int>
    decreases p.len() - i,
{
    if i < 0 || i >= p.len() {
        None
    } else if p[i].value == 1 || p[i].value == 9 {
        Some(i)
    } else {
        first_end(p, i + 1)
    }
}

/// The place of the first tile at or behind `i`, the last tile aside, that
/// the next tile does not follow in rank; a tile and the one that follows
/// it are passed over together.
pub open spec fn first_lonely(p: Seq<MahjongTile>, i: int) -> Option<int>
    decreases p.len() - i,
{
    if i < 0 || i >= p.len() - 1 {
        None
    } else if p[i].value + 1 == p[i + 1].value && p[i].suit == p[i + 1].suit {
        first_lonely(p, i + 2)
    } else {
        Some(i)
    }
}

/// The loose tile to discard: the only one; else the first honor; else the
/// first tile without a follower; else the first tile of rank 1 or 9; else
/// the last.
pub open spec fn pinfu_choice(p: Seq<MahjongTile>) -> MahjongTile {
    if p.len() == 1 {
        p[0]
    } else if first_honor(p, 0) is Some {
        p[first_honor(p, 0).unwrap()]
    } else if first_lonely(p, 0) is Some {
        p[first_lonely(p, 0).unwrap()]
    } else if first_end(p, 0) is Some {
        p[first_end(p, 0).unwrap()]
    } else {
        p.last()
    }
}

/// The place of the tile to discard: that of the loose tile chosen; 13
/// where there is no loose tile.
pub open spec fn pinfu_discard(hand: Seq<MahjongTile>) -> int {
    let p = loose_tiles(hand);
    if p.len() == 0 {
        13
    } else {
        place_or_14(hand, pinfu_choice(p))
    }
}

/// The place of the first honor.
fn find_honor(p: &Vec<MahjongTile>) -> (r: Option<usize>)
    ensures
        match r {
            Some(i) => first_honor(p@, 0) == Some(i as int) && i < p.len(),
            None => first_honor(p@, 0) is None,
        },
{
    let mut i: usize = 0;
    while i < p.len()
        invariant
            i <= p.len(),
            first_honor(p@, 0) == first_honor(p@, i as int),
        decreases p.len() - i,
    {
        if p[i].suit == Suit::Sangen || p[i].suit == Suit::Kaze {
            return Some(i);
        }
        i += 1;
    }
    None
}

/// The place of the first tile of rank 1 or 9.
fn find_end(p: &Vec<MahjongTile>) -> (r: Option<usize>)
    ensures
        match r {
            Some(i) => first_end(p@, 0) == Some(i as int) && i < p.len(),
            None => first_end(p@, 0) is None,
        },
{
    let mut i: usize = 0;
    while i < p.len()
        invariant
            i <= p.len(),
            first_end(p@, 0) == first_end(p@, i as int),
        decreases p.len() - i,
    {
        if p[i].value == 1 || p[i].value == 9 {
            return Some(i);
        }
        i += 1;
    }
    None
}

/// The place of the first tile, the last aside, without a follower.
fn find_lonely(p: &Vec<MahjongTile>) -> (r: Option<usize>)
    requires
        p.len() >= 1,
    ensures
        match r {
            Some(i) => first_lonely(p@, 0) == Some(i as int) && i < p.len(),
            None => first_lonely(p@, 0) is None,
        },
{
    let mut i: usize = 0;
    while i < p.len() - 1
        invariant
            p.len() >= 1,
            first_lonely(p@, 0) == first_lonely(p@, i as int),
        decreases p.len() - i,
    {
        if p[i].value < 255 && p[i].value + 1 == p[i + 1].value && p[i].suit == p[i + 1].suit {
            i += 2;
        } else {
            return Some(i);
        }
    }
    None
}

/// Discards with a closed hand of runs in mind: of the tiles that no meld
/// uses, an honor first, then a tile without a follower, then a tile of
/// rank 1 or 9. The answer is a place of the hand, or 13 where every tile
/// is used.
pub fn pinfu_hunter(strat: StrategyInput) -> (r: usize)
    ensures
        r == pinfu_discard(strat.hand@),
        r < strat.hand.len() || (r == 13 && loose_tiles(strat.hand@).len() == 0),
{
    let own_hand = sorted_copy(strat.hand.as_slice());
    let partial_hand = get_partial_completion(own_hand.as_slice());
    let hand = strat.hand.as_slice();
    if partial_hand.len() == 0 {
        return 13;
    }
    let mut chosen: usize = partial_hand.len() - 1;
    if partial_hand.len() == 1 {
        chosen = 0;
    } else if let Some(i) = find_honor(&partial_hand) {
        chosen = i;
    } else if let Some(i) = find_lonely(&partial_hand) {
        chosen = i;
    } else if let Some(i) = find_end(&partial_hand) {
        chosen = i;
    }
    proof {
        lemma_loose_tile_place(strat.hand@, chosen as int);
    }
    find_tile_in_hand(hand, &partial_hand[chosen])
}

impl DiscardPolicy {
    /// The place of the tile that the policy discards.
    pub open spec fn choice(self, hand: Seq<MahjongTile>) -> int {
        match self {
            DiscardPolicy::First => 0,
            DiscardPolicy::Standard => standard_discard(hand),
            DiscardPolicy::PinfuHunter => pinfu_discard(hand),
        }
    }

    /// Decides by the policy.
    pub fn decide(self, input: StrategyInput) -> (r: usize)
        ensures
            r == self.choice(input.hand@),
    {
        match self {
            DiscardPolicy::First => default_discard_strategy(input),
            DiscardPolicy::Standard => standard_discarder(input),
            DiscardPolicy::PinfuHunter => pinfu_hunter(input),
        }
    }
}

/// The player of one of the four seats, with 25000 points.
pub open spec fn seated(id: int, seat: SeatWind, discard: DiscardPolicy) -> Player {
    Player {
        points: 25000,
        seat_wind: seat,
        strategy: Strategy {
            call_chi: CallPolicy::Never,
            call_pon: CallPolicy::Never,
            discard,
            tsumo: CallPolicy::Always,
            kan: CallPolicy::Always,
            riichi: CallPolicy::Always,
        },
        id: id as usize,
    }
}

/// A player with 25000 points who calls no tiles.
fn seat_player(id: usize, seat: SeatWind, discard: DiscardPolicy) -> (p: Player)
    ensures
        p == seated(id as int, seat, discard),
{
    let strategy = Strategy::new(
        CallPolicy::Never,
        CallPolicy::Never,
        discard,
        CallPolicy::Always,
        CallPolicy::Always,
        CallPolicy::Always,
    );
    Player { points: 25000, seat_wind: seat, strategy, id }
}

/// The four players of a game, in the order of their seats. None of them
/// calls tiles; the second discards as `pinfu_hunter` does, the others as
/// `standard_discarder` does.
pub fn initialize_players() -> (players: Vec<Player>)
    ensures
        players@ == seq![
            seated(1, SeatWind::East, DiscardPolicy::Standard),
            seated(2, SeatWind::South, DiscardPolicy::PinfuHunter),
            seated(3, SeatWind::West, DiscardPolicy::Standard),
            seated(4, SeatWind::North, DiscardPolicy::Standard),
        ],
{
    let mut players: Vec<Player> = Vec::new();
    players.push(seat_player(1, SeatWind::East, DiscardPolicy::Standard));
    players.push(seat_player(2, SeatWind::South, DiscardPolicy::PinfuHunter));
    players.push(seat_player(3, SeatWind::West, DiscardPolicy::Standard));
    players.push(seat_player(4, SeatWind::North, DiscardPolicy::Standard));
    assert(players@ =~= seq![
        seated(1, SeatWind::East, DiscardPolicy::Standard),
        seated(2, SeatWind::South, DiscardPolicy::PinfuHunter),
        seated(3, SeatWind::West, DiscardPolicy::Standard),
        seated(4, SeatWind::North, DiscardPolicy::Standard),
    ]);
    players
}

} // verus!
