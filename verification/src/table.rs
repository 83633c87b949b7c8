//! The tiles on the table: the wall, the hands dealt from it, and the bonus
//! indicator.

use crate::tile::{MahjongTile, Suit};
use rand::seq::SliceRandom;
use vstd::prelude::*;

verus! {

/// The wall that is left to draw from, then the four hands.
pub type Hands = (
    Vec<MahjongTile>,
    Vec<MahjongTile>,
    Vec<MahjongTile>,
    Vec<MahjongTile>,
    Vec<MahjongTile>,
);

/// The tiles of the four players: the closed hand, the open melds and the
/// discards of each.
#[derive(Debug, Clone)]
pub struct PlayerTiles {
    pub hand: Vec<Vec<MahjongTile>>,
    pub open_hand: Vec<Vec<MahjongTile>>,
    pub discards: Vec<Vec<MahjongTile>>,
}

/// The tiles that belong to no player.
#[derive(Debug, Clone)]
pub struct BoardTiles {
    pub wall: Vec<MahjongTile>,
    pub wall_dead: Vec<MahjongTile>,
    pub dora_indicators: Vec<MahjongTile>,
    pub dora_index: usize,
}

/// Four empty lists of tiles.
pub open spec fn four_empty(lists: Seq<Seq<MahjongTile>>) -> bool {
    lists.len() == 4 && forall|i: int| 0 <= i < 4 ==> (#[trigger] lists[i]).len() == 0
}

/// Four empty lists of tiles.
fn empty_lists() -> (r: Vec<Vec<MahjongTile>>)
    ensures
        four_empty(r.deep_view()),
{
    let mut r: Vec<Vec<MahjongTile>> = Vec::new();
    r.push(Vec::new());
    r.push(Vec::new());
    r.push(Vec::new());
    r.push(Vec::new());
    assert forall|i: int| 0 <= i < 4 implies (#[trigger] r.deep_view()[i]).len() == 0 by {
        assert(r.deep_view()[i] =~= r@[i]@);
    }
    r
}

impl Default for PlayerTiles {
    fn default() -> (r: Self)
        ensures
            four_empty(r.hand.deep_view()),
            four_empty(r.open_hand.deep_view()),
            four_empty(r.discards.deep_view()),
    {
        PlayerTiles { hand: empty_lists(), open_hand: empty_lists(), discards: empty_lists() }
    }
}

/// The four copies of each tile of a suit, ascending.
pub open spec fn suit_set(suit: Suit) -> Seq<MahjongTile> {
    Seq::new(
        (suit.max_rank() * 4) as nat,
        |i: int| MahjongTile { suit, value: (i / 4 + 1) as u8, is_dora: false },
    )
}

/// The full set of 136 tiles, ascending.
pub open spec fn full_set() -> Seq<MahjongTile> {
    suit_set(Suit::Manzu) + suit_set(Suit::Pinzu) + suit_set(Suit::Souzu) + suit_set(Suit::Kaze)
        + suit_set(Suit::Sangen)
}

/// How often a tile occurs among the first `n` tiles of the set of its
/// suit: the four copies of a rank stand together, in the order of the
/// ranks.
proof fn lemma_suit_set_count(suit: Suit, t: MahjongTile, n: int)
    requires
        0 <= n <= suit.max_rank() * 4,
    ensures
        suit_set(suit).take(n).to_multiset().count(t) == (if t.suit == suit && !t.is_dora && 4 * (
        t.value - 1) < n && t.value >= 1 {
            if n - 4 * (t.value - 1) < 4 {
                n - 4 * (t.value - 1)
            } else {
                4
            }
        } else {
            0
        }),
    decreases n,
{
    broadcast use vstd::multiset::group_multiset_axioms;
    broadcast use vstd::seq_lib::group_to_multiset_ensures;

    let s = suit_set(suit);
    if n == 0 {
        assert(s.take(0).to_multiset().len() == 0);
        assert(s.take(0).to_multiset().count(t) <= s.take(0).to_multiset().len());
    } else {
        lemma_suit_set_count(suit, t, n - 1);
        assert(s.take(n) =~= s.take(n - 1).push(s[n - 1]));
        let x = s[n - 1];
        assert(x == MahjongTile { suit, value: ((n - 1) / 4 + 1) as u8, is_dora: false });
    }
}

/// The full set holds each tile with a rank of its suit four times, without
/// the bonus flag, and nothing else.
pub proof fn lemma_full_set(t: MahjongTile)
    ensures
        full_set().len() == 136,
        full_set().to_multiset().count(t) == (if t.well_formed() && !t.is_dora {
            4nat
        } else {
            0nat
        }),
{
    broadcast use vstd::multiset::group_multiset_axioms;

    let a = suit_set(Suit::Manzu);
    let b = suit_set(Suit::Pinzu);
    let c = suit_set(Suit::Souzu);
    let d = suit_set(Suit::Kaze);
    let e = suit_set(Suit::Sangen);
    lemma_suit_set_count(Suit::Manzu, t, 36);
    lemma_suit_set_count(Suit::Pinzu, t, 36);
    lemma_suit_set_count(Suit::Souzu, t, 36);
    lemma_suit_set_count(Suit::Kaze, t, 16);
    lemma_suit_set_count(Suit::Sangen, t, 12);
    assert(a.take(36) =~= a);
    assert(b.take(36) =~= b);
    assert(c.take(36) =~= c);
    assert(d.take(16) =~= d);
    assert(e.take(12) =~= e);
    vstd::seq_lib::lemma_multiset_commutative(a, b);
    vstd::seq_lib::lemma_multiset_commutative(a + b, c);
    vstd::seq_lib::lemma_multiset_commutative(a + b + c, d);
    vstd::seq_lib::lemma_multiset_commutative(a + b + c + d, e);
}

/// Puts the four copies of each tile of the suit behind the tiles.
fn push_suit(tiles: &mut Vec<MahjongTile>, suit: Suit)
    ensures
        final(tiles)@ == old(tiles)@ + suit_set(suit),
{
    let count: u8 = suit.top_rank() * 4;
    let mut i: u8 = 0;
    assert(tiles@ =~= old(tiles)@ + suit_set(suit).take(0));
    while i < count
        invariant
            i <= count,
            count == suit.max_rank() * 4,
            tiles@ == old(tiles)@ + suit_set(suit).take(i as int),
        decreases count - i,
    {
        let t = MahjongTile { suit, value: i / 4 + 1, is_dora: false };
        tiles.push(t);
        assert(suit_set(suit).take(i + 1) =~= suit_set(suit).take(i as int).push(t));
        assert(tiles@ =~= old(tiles)@ + suit_set(suit).take(i + 1));
        i += 1;
    }
    assert(suit_set(suit).take(count as int) =~= suit_set(suit));
}

/// The full set of tiles in ascending order.
pub fn ordered_tiles() -> (tiles: Vec<MahjongTile>)
    ensures
        tiles@ == full_set(),
        tiles.len() == 136,
{
    let mut tiles: Vec<MahjongTile> = Vec::new();
    push_suit(&mut tiles, Suit::Manzu);
    push_suit(&mut tiles, Suit::Pinzu);
    push_suit(&mut tiles, Suit::Souzu);
    push_suit(&mut tiles, Suit::Kaze);
    push_suit(&mut tiles, Suit::Sangen);
    assert(tiles@ =~= full_set());
    tiles
}

/// The random number generator of `rand`, of which nothing is known here.
#[verifier::external_type_specification]
#[verifier::external_body]
pub struct ExThreadRng(rand::rngs::ThreadRng);

/// `rand::thread_rng` hands out the generator of the current thread.
/// Nothing is claimed of it.
pub assume_specification[ rand::thread_rng ]() -> (rng: rand::rngs::ThreadRng);

/// Calls `SliceRandom::shuffle` on the tiles. Trusted: the tiles are the
/// same afterwards, in some order.
#[verifier::external_body]
fn shuffle_tiles(tiles: &mut Vec<MahjongTile>, rng: &mut rand::rngs::ThreadRng)
    ensures
        final(tiles)@.to_multiset() == old(tiles)@.to_multiset(),
{
    tiles.shuffle(rng);
}

/// Parts the tiles into the wall, the dead wall and the bonus indicators:
/// the last ten are the indicators, the four before them the dead wall.
pub fn split_wall(tiles: Vec<MahjongTile>) -> (res: (
    Vec<MahjongTile>,
    Vec<MahjongTile>,
    Vec<MahjongTile>,
))
    requires
        tiles.len() >= 14,
    ensures
        res.0@ == tiles@.subrange(0, tiles.len() - 14),
        res.1@ == tiles@.subrange(tiles.len() - 14, tiles.len() - 10),
        res.2@ == tiles@.subrange(tiles.len() - 10, tiles.len() as int),
{
    let mut wall = tiles;
    let at = wall.len() - 14;
    let mut wall_dead = wall.split_off(at);
    let dora_indicators = wall_dead.split_off(4);
    assert(wall_dead@ =~= tiles@.subrange(tiles.len() - 14, tiles.len() - 10));
    assert(dora_indicators@ =~= tiles@.subrange(tiles.len() - 10, tiles.len() as int));
    (wall, wall_dead, dora_indicators)
}

/// A shuffled full set of tiles, parted into the wall of 122 tiles, the dead
/// wall of 4 and the 10 bonus indicators. Together they hold each tile with
/// a rank of its suit four times, without the bonus flag, and nothing else.
pub fn initialize_wall() -> (res: (Vec<MahjongTile>, Vec<MahjongTile>, Vec<MahjongTile>))
    ensures
        res.0.len() == 122,
        res.1.len() == 4,
        res.2.len() == 10,
        (res.0@ + res.1@ + res.2@).to_multiset() == full_set().to_multiset(),
        forall|t: MahjongTile|
            #[trigger] (res.0@ + res.1@ + res.2@).to_multiset().count(t) == (if t.well_formed()
                && !t.is_dora {
                4nat
            } else {
                0nat
            }),
{
    proof {
        assert forall|t: MahjongTile|
            #[trigger] full_set().to_multiset().count(t) == (if t.well_formed() && !t.is_dora {
                4nat
            } else {
                0nat
            }) by {
            lemma_full_set(t);
        }
    }
    let mut tiles = ordered_tiles();
    let mut rng = rand::thread_rng();
    shuffle_tiles(&mut tiles, &mut rng);
    proof {
        broadcast use vstd::seq_lib::group_to_multiset_ensures;

        assert(tiles@.len() == tiles@.to_multiset().len());
        assert(full_set().len() == full_set().to_multiset().len());
    }
    let ghost all = tiles@;
    let res = split_wall(tiles);
    assert(res.0@ + res.1@ + res.2@ =~= all);
    res
}

/// Deals four hands of thirteen tiles from the end of the wall: the first
/// hand is the last thirteen tiles, the second the thirteen before them, and
/// so on.
pub fn draw_hands(wall: Vec<MahjongTile>) -> (res: Hands)
    requires
        wall.len() >= 52,
    ensures
        res.0@ == wall@.subrange(0, wall.len() - 52),
        res.1@ == wall@.subrange(wall.len() - 13, wall.len() as int),
        res.2@ == wall@.subrange(wall.len() - 26, wall.len() - 13),
        res.3@ == wall@.subrange(wall.len() - 39, wall.len() - 26),
        res.4@ == wall@.subrange(wall.len() - 52, wall.len() - 39),
{
    let mut rest = wall;
    let n = rest.len();
    let a = rest.split_off(n - 13);
    let b = rest.split_off(n - 26);
    let c = rest.split_off(n - 39);
    let d = rest.split_off(n - 52);
    assert(a@ =~= wall@.subrange(wall.len() - 13, wall.len() as int));
    assert(b@ =~= wall@.subrange(wall.len() - 26, wall.len() - 13));
    assert(c@ =~= wall@.subrange(wall.len() - 39, wall.len() - 26));
    assert(d@ =~= wall@.subrange(wall.len() - 52, wall.len() - 39));
    assert(rest@ =~= wall@.subrange(0, wall.len() - 52));
    (rest, a, b, c, d)
}

/// Moves the last tile of `hand_from` to the end of `hand_to`; nothing
/// happens where `hand_from` is empty.
pub fn draw_tile(hand_from: &mut Vec<MahjongTile>, hand_to: &mut Vec<MahjongTile>)
    ensures
        old(hand_from).len() == 0 ==> final(hand_from)@ == old(hand_from)@ && final(hand_to)@
            == old(hand_to)@,
        old(hand_from).len() > 0 ==> final(hand_from)@ == old(hand_from)@.drop_last()
            && final(hand_to)@ == old(hand_to)@.push(old(hand_from)@.last()),
{
    if let Some(tile) = hand_from.pop() {
        hand_to.push(tile);
    }
}

/// Moves the tile at `tile_index` of `hand_from` to the end of `hand_to`.
pub fn move_tile(
    hand_from: &mut Vec<MahjongTile>,
    hand_to: &mut Vec<MahjongTile>,
    tile_index: usize,
)
    requires
        tile_index < old(hand_from).len(),
    ensures
        final(hand_from)@ == old(hand_from)@.remove(tile_index as int),
        final(hand_to)@ == old(hand_to)@.push(old(hand_from)@[tile_index as int]),
{
    let tile = hand_from.remove(tile_index);
    hand_to.push(tile);
}


/// The tile with the bonus flag set where it is of the given kind.
pub open spec fn flagged(t: MahjongTile, suit: Suit, value: u8) -> MahjongTile {
    if t.suit == suit && t.value == value {
        MahjongTile { suit: t.suit, value: t.value, is_dora: true }
    } else {
        t
    }
}

/// The tiles with the bonus flag set on those of the given kind.
pub open spec fn flagged_all(tiles: Seq<MahjongTile>, suit: Suit, value: u8) -> Seq<MahjongTile> {
    Seq::new(tiles.len(), |i: int| flagged(tiles[i], suit, value))
}

/// Sets the bonus flag on the tiles of the given kind.
pub fn change_dora_bool(tile_list: &mut [MahjongTile], dora_suit: Suit, dora_value: u8)
    ensures
        final(tile_list)@ == flagged_all(old(tile_list)@, dora_suit, dora_value),
{
    let mut i: usize = 0;
    while i < tile_list.len()
        invariant
            i <= tile_list.len(),
            tile_list.len() == old(tile_list).len(),
            forall|k: int| 0 <= k < i ==> #[trigger] tile_list@[k] == flagged(
                old(tile_list)@[k],
                dora_suit,
                dora_value,
            ),
            forall|k: int| i <= k < tile_list.len() ==> #[trigger] tile_list@[k] == old(
                tile_list,
            )@[k],
        decreases tile_list.len() - i,
    {
        let t = tile_list[i];
        if t.suit == dora_suit && t.value == dora_value {
            tile_list[i] = MahjongTile { suit: t.suit, value: t.value, is_dora: true };
        }
        i += 1;
    }
    assert(tile_list@ =~= flagged_all(old(tile_list)@, dora_suit, dora_value));
}

/// The lists with the bonus flag set on the tiles of the given kind in the
/// first four of them.
pub open spec fn flagged_lists(lists: Seq<Seq<MahjongTile>>, suit: Suit, value: u8) -> Seq<
    Seq<MahjongTile>,
> {
    Seq::new(
        lists.len(),
        |i: int|
            if i < 4 {
                flagged_all(lists[i], suit, value)
            } else {
                lists[i]
            },
    )
}

/// Sets the bonus flag on the tiles of the given kind in the first four lists.
fn flag_lists(lists: &mut Vec<Vec<MahjongTile>>, suit: Suit, value: u8)
    ensures
        final(lists).deep_view() == flagged_lists(old(lists).deep_view(), suit, value),
{
    let ghost before = lists.deep_view();
    let mut i: usize = 0;
    while i < lists.len() && i < 4
        invariant
            i <= lists.len(),
            i <= 4,
            lists.len() == before.len(),
            forall|k: int| 0 <= k < i ==> (#[trigger] lists@[k])@ == flagged_all(
                before[k],
                suit,
                value,
            ),
            forall|k: int| i <= k < lists.len() ==> (#[trigger] lists@[k])@ == before[k],
        decreases lists.len() - i,
    {
        let mut list: Vec<MahjongTile> = Vec::new();
        std::mem::swap(&mut list, &mut lists[i]);
        change_dora_bool(list.as_mut_slice(), suit, value);
        lists[i] = list;
        i += 1;
    }
    proof {
        assert forall|k: int| 0 <= k < lists.len() implies lists.deep_view()[k] == flagged_lists(
            before,
            suit,
            value,
        )[k] by {
            assert(lists.deep_view()[k] =~= lists@[k]@);
        }
        assert(lists.deep_view() =~= flagged_lists(before, suit, value));
    }
}

/// The kind of the bonus tile that an indicator points to: the next rank
/// of its suit, the first rank behind the last.
pub open spec fn bonus_rank(indicator: MahjongTile) -> u8 {
    (indicator.value as int % indicator.suit.max_rank() + 1) as u8
}

/// Turns the current indicator up: sets the bonus flag on each tile of the
/// kind it points to, in the walls and the indicators and in the closed and
/// open hands of the four players.
pub fn flip_dora_indicator(board_tiles: &mut BoardTiles, player_tiles: &mut PlayerTiles)
    requires
        old(board_tiles).dora_index < old(board_tiles).dora_indicators.len(),
    ensures
        final(board_tiles).dora_index == old(board_tiles).dora_index,
        final(board_tiles).wall@ == flagged_all(
            old(board_tiles).wall@,
            old(board_tiles).dora_indicators@[old(board_tiles).dora_index as int].suit,
            bonus_rank(old(board_tiles).dora_indicators@[old(board_tiles).dora_index as int]),
        ),
        final(board_tiles).wall_dead@ == flagged_all(
            old(board_tiles).wall_dead@,
            old(board_tiles).dora_indicators@[old(board_tiles).dora_index as int].suit,
            bonus_rank(old(board_tiles).dora_indicators@[old(board_tiles).dora_index as int]),
        ),
        final(board_tiles).dora_indicators@ == flagged_all(
            old(board_tiles).dora_indicators@,
            old(board_tiles).dora_indicators@[old(board_tiles).dora_index as int].suit,
            bonus_rank(old(board_tiles).dora_indicators@[old(board_tiles).dora_index as int]),
        ),
        final(player_tiles).hand.deep_view() == flagged_lists(
            old(player_tiles).hand.deep_view(),
            old(board_tiles).dora_indicators@[old(board_tiles).dora_index as int].suit,
            bonus_rank(old(board_tiles).dora_indicators@[old(board_tiles).dora_index as int]),
        ),
        final(player_tiles).open_hand.deep_view() == flagged_lists(
            old(player_tiles).open_hand.deep_view(),
            old(board_tiles).dora_indicators@[old(board_tiles).dora_index as int].suit,
            bonus_rank(old(board_tiles).dora_indicators@[old(board_tiles).dora_index as int]),
        ),
        final(player_tiles).discards == old(player_tiles).discards,
{
    let indicator = board_tiles.dora_indicators[board_tiles.dora_index];
    let suit = indicator.suit;
    let value: u8 = indicator.value % suit.top_rank() + 1;
    change_dora_bool(board_tiles.wall.as_mut_slice(), suit, value);
    change_dora_bool(board_tiles.wall_dead.as_mut_slice(), suit, value);
    change_dora_bool(board_tiles.dora_indicators.as_mut_slice(), suit, value);
    flag_lists(&mut player_tiles.hand, suit, value);
    flag_lists(&mut player_tiles.open_hand, suit, value);
}

} // verus!
