//! One turn of a round: draw, win or discard, and the call on the discard.

use crate::calls::{
    can_pon, lemma_first_in_range, lemma_without_first_len, remove_pon_tiles, without_first,
};
use crate::complete::{is_complete, is_complete_hand};
use crate::hand::{bag, lemma_sorted_tiles, sort_tiles, sorted_tiles};
use crate::melds::lemma_melds_view;
use crate::player::{DiscardPolicy, Player, SeatWind, StrategyInput};
use crate::score::{
    draw_payment, hand_value, is_waiting, scoring_tenpai, scoring_tsumo, seats_move_after_draw,
    settled, tsumo_payment, waiting_count,
};
use crate::strategy::{loose_tiles, pinfu_choice};
use crate::table::{
    bonus_rank, draw_hands, flagged_all, flip_dora_indicator, BoardTiles, PlayerTiles,
};
use crate::tile::MahjongTile;
use vstd::prelude::*;
use vstd::slice::slice_to_vec;

verus! {

/// The tiles of the players as sequences.
pub struct Seats {
    pub hand: Seq<Seq<MahjongTile>>,
    pub open_hand: Seq<Seq<MahjongTile>>,
    pub discards: Seq<Seq<MahjongTile>>,
}

impl View for PlayerTiles {
    type V = Seats;

    open spec fn view(&self) -> Seats {
        Seats {
            hand: self.hand.deep_view(),
            open_hand: self.open_hand.deep_view(),
            discards: self.discards.deep_view(),
        }
    }
}

impl Seats {
    /// Four players, with a hand, open melds and discards each.
    pub open spec fn four(self) -> bool {
        self.hand.len() == 4 && self.open_hand.len() == 4 && self.discards.len() == 4
    }

    /// The seats with the hand of one player replaced.
    pub open spec fn with_hand(self, at: int, hand: Seq<MahjongTile>) -> Seats {
        Seats { hand: self.hand.update(at, hand), open_hand: self.open_hand, discards: self.discards }
    }

    /// The seats after the player at `at` has discarded the tile at `idx`.
    pub open spec fn after_discard(self, at: int, idx: int) -> Seats {
        Seats {
            hand: self.hand.update(at, self.hand[at].remove(idx)),
            open_hand: self.open_hand,
            discards: self.discards.update(at, self.discards[at].push(self.hand[at][idx])),
        }
    }

    /// The first player from `from` on, the one at `current` aside, whose
    /// hand holds two tiles of the kind of `tile`.
    pub open spec fn caller(self, tile: MahjongTile, current: int, from: int) -> Option<int>
        decreases 4 - from,
    {
        if from < 0 || from >= 4 {
            None
        } else if from != current && bag(self.hand[from]).count(tile.code()) >= 2 {
            Some(from)
        } else {
            self.caller(tile, current, from + 1)
        }
    }

    /// The seats after the player at `at` has called `tile` for a triplet:
    /// the hand is sorted and gives two tiles of the kind, and three tiles
    /// go to the open melds.
    pub open spec fn after_pon(self, at: int, tile: MahjongTile) -> Seats {
        Seats {
            hand: self.hand.update(
                at,
                without_first(without_first(sorted_tiles(self.hand[at]), tile), tile),
            ),
            open_hand: self.open_hand.update(at, self.open_hand[at].push(tile).push(tile).push(tile)),
            discards: self.discards,
        }
    }

    /// The seats after the call on the tile that the player at `current`
    /// discarded, where calls are made.
    pub open spec fn after_call(self, tile: MahjongTile, current: int, calls: bool) -> Seats {
        match self.caller(tile, current, 0) {
            Some(i) => if calls {
                self.after_pon(i, tile)
            } else {
                self
            },
            None => self,
        }
    }
}

/// The view of lists of which one was replaced.
proof fn lemma_lists_update(
    lists: &Vec<Vec<MahjongTile>>,
    before: Seq<Seq<MahjongTile>>,
    old_lists: Seq<Vec<MahjongTile>>,
    at: int,
)
    requires
        0 <= at < old_lists.len(),
        before.len() == old_lists.len(),
        forall|k: int| 0 <= k < old_lists.len() ==> #[trigger] before[k] == old_lists[k]@,
        lists@ == old_lists.update(at, lists@[at]),
    ensures
        lists.deep_view() == before.update(at, lists@[at]@),
{
    lemma_melds_view(lists);
    assert(lists.deep_view() =~= before.update(at, lists@[at]@));
}

/// Sorts the hand of the player at `at`.
fn sort_hand(tiles: &mut PlayerTiles, at: usize)
    requires
        at < old(tiles)@.hand.len(),
    ensures
        final(tiles)@ == old(tiles)@.with_hand(at as int, sorted_tiles(old(tiles)@.hand[at as int])),
{
    let ghost before = tiles.hand.deep_view();
    let ghost old_lists = tiles.hand@;
    proof {
        lemma_melds_view(&tiles.hand);
    }
    let mut hand: Vec<MahjongTile> = Vec::new();
    std::mem::swap(&mut hand, &mut tiles.hand[at]);
    sort_tiles(&mut hand);
    tiles.hand[at] = hand;
    proof {
        assert(tiles.hand@ =~= old_lists.update(at as int, tiles.hand@[at as int]));
        lemma_lists_update(&tiles.hand, before, old_lists, at as int);
    }
}

/// Puts the tile behind the list at `at`.
fn push_tile(lists: &mut Vec<Vec<MahjongTile>>, at: usize, tile: MahjongTile)
    requires
        at < old(lists).len(),
    ensures
        final(lists).len() == old(lists).len(),
        final(lists).deep_view() == old(lists).deep_view().update(
            at as int,
            old(lists).deep_view()[at as int].push(tile),
        ),
{
    let ghost before = lists.deep_view();
    let ghost old_lists = lists@;
    proof {
        lemma_melds_view(lists);
    }
    let mut list: Vec<MahjongTile> = Vec::new();
    std::mem::swap(&mut list, &mut lists[at]);
    list.push(tile);
    lists[at] = list;
    proof {
        assert(lists@ =~= old_lists.update(at as int, lists@[at as int]));
        lemma_lists_update(lists, before, old_lists, at as int);
    }
}

/// Takes the tile at `idx` out of the list at `at`.
fn take_tile(lists: &mut Vec<Vec<MahjongTile>>, at: usize, idx: usize) -> (tile: MahjongTile)
    requires
        at < old(lists).len(),
        idx < old(lists)@[at as int].len(),
    ensures
        tile == old(lists).deep_view()[at as int][idx as int],
        final(lists).len() == old(lists).len(),
        final(lists).deep_view() == old(lists).deep_view().update(
            at as int,
            old(lists).deep_view()[at as int].remove(idx as int),
        ),
{
    let ghost before = lists.deep_view();
    let ghost old_lists = lists@;
    proof {
        lemma_melds_view(lists);
    }
    let mut list: Vec<MahjongTile> = Vec::new();
    std::mem::swap(&mut list, &mut lists[at]);
    let tile = list.remove(idx);
    lists[at] = list;
    proof {
        assert(lists@ =~= old_lists.update(at as int, lists@[at as int]));
        lemma_lists_update(lists, before, old_lists, at as int);
    }
    tile
}

/// Moves the tile at `idx` of the hand of the player at `at` to the
/// discards of that player.
pub fn discard_tile(tiles: &mut PlayerTiles, at: usize, idx: usize) -> (tile: MahjongTile)
    requires
        old(tiles)@.four(),
        at < 4,
        idx < old(tiles)@.hand[at as int].len(),
    ensures
        tile == old(tiles)@.hand[at as int][idx as int],
        final(tiles)@ == old(tiles)@.after_discard(at as int, idx as int),
{
    proof {
        lemma_melds_view(&tiles.hand);
    }
    let tile = take_tile(&mut tiles.hand, at, idx);
    push_tile(&mut tiles.discards, at, tile);
    tile
}

/// The first player, the one at `current` aside, whose hand holds two
/// tiles of the kind of `tile`.
fn find_caller(tiles: &PlayerTiles, tile: &MahjongTile, current: usize) -> (r: Option<usize>)
    requires
        tiles@.four(),
    ensures
        match r {
            Some(i) => i < 4 && tiles@.caller(*tile, current as int, 0) == Some(i as int),
            None => tiles@.caller(*tile, current as int, 0) is None,
        },
{
    proof {
        lemma_melds_view(&tiles.hand);
    }
    let mut i: usize = 0;
    while i < 4
        invariant
            i <= 4,
            tiles@.four(),
            forall|k: int| 0 <= k < 4 ==> #[trigger] tiles.hand.deep_view()[k] == tiles.hand@[k]@,
            tiles@.caller(*tile, current as int, 0) == tiles@.caller(*tile, current as int, i as int),
        decreases 4 - i,
    {
        if i != current && can_pon(tiles.hand[i].as_slice(), tile) {
            return Some(i);
        }
        i += 1;
    }
    None
}

/// Lets the first player who can, the one at `current` aside, call the
/// discarded tile for a triplet, where calls are made.
pub fn call_discard(tiles: &mut PlayerTiles, tile: MahjongTile, current: usize, calls: bool)
    requires
        old(tiles)@.four(),
    ensures
        final(tiles)@ == old(tiles)@.after_call(tile, current as int, calls),
{
    let found = find_caller(tiles, &tile, current);
    if let Some(i) = found {
        if calls {
            let ghost before = tiles.hand.deep_view();
            let ghost old_lists = tiles.hand@;
            proof {
                lemma_melds_view(&tiles.hand);
            }
            let mut hand: Vec<MahjongTile> = Vec::new();
            std::mem::swap(&mut hand, &mut tiles.hand[i]);
            sort_tiles(&mut hand);
            remove_pon_tiles(&mut hand, &tile);
            tiles.hand[i] = hand;
            proof {
                assert(tiles.hand@ =~= old_lists.update(i as int, tiles.hand@[i as int]));
                lemma_lists_update(&tiles.hand, before, old_lists, i as int);
            }
            push_tile(&mut tiles.open_hand, i, tile);
            push_tile(&mut tiles.open_hand, i, tile);
            push_tile(&mut tiles.open_hand, i, tile);
            assert(tiles@.open_hand =~= old(tiles)@.after_pon(i as int, tile).open_hand);
        }
    }
}


/// How a turn ended.
#[derive(Debug, Copy, Clone, PartialEq, Eq, Structural)]
pub enum TurnOutcome {
    /// The player discarded; the next player is to move.
    Continue,
    /// The wall was empty: the round is drawn and settled.
    Draw,
    /// The player won on the drawn tile: the round is settled.
    Win,
    /// The player's policy named a place that the hand does not have;
    /// nothing was discarded.
    NoDiscard,
}

/// A copy of the lists.
fn copy_lists(lists: &Vec<Vec<MahjongTile>>) -> (r: Vec<Vec<MahjongTile>>)
    ensures
        r.deep_view() == lists.deep_view(),
{
    let mut r: Vec<Vec<MahjongTile>> = Vec::new();
    let mut i: usize = 0;
    while i < lists.len()
        invariant
            i <= lists.len(),
            r.len() == i,
            forall|k: int| 0 <= k < i ==> (#[trigger] r@[k])@ == lists@[k]@,
        decreases lists.len() - i,
    {
        r.push(slice_to_vec(lists[i].as_slice()));
        i += 1;
    }
    proof {
        lemma_melds_view(&r);
        lemma_melds_view(lists);
        assert(r.deep_view() =~= lists.deep_view());
    }
    r
}

/// What the player at `at` sees.
fn input_for(tiles: &PlayerTiles, at: usize) -> (input: StrategyInput)
    requires
        at < tiles@.hand.len(),
    ensures
        input.hand@ == tiles@.hand[at as int],
{
    proof {
        lemma_melds_view(&tiles.hand);
    }
    StrategyInput {
        hand: slice_to_vec(tiles.hand[at].as_slice()),
        discards: copy_lists(&tiles.discards),
    }
}

/// The players after a drawn round with the given hands.
pub open spec fn players_after_draw(hands: Seq<Seq<MahjongTile>>, players: Seq<Player>) -> Seq<
    Player,
> {
    Seq::new(
        players.len(),
        |i: int|
            settled(
                players[i],
                if i < 4 {
                    draw_payment(waiting_count(hands, 4), is_waiting(hands[i]))
                } else {
                    0
                },
                seats_move_after_draw(hands, players),
            ),
    )
}

/// The players after the player at `winner` has won by a drawn tile with
/// the given hand.
pub open spec fn players_after_win(
    hand: Seq<MahjongTile>,
    closed: bool,
    players: Seq<Player>,
    winner: int,
) -> Seq<Player> {
    let me = players[winner];
    Seq::new(
        players.len(),
        |i: int|
            settled(
                players[i],
                tsumo_payment(
                    hand_value(hand, closed, true, me.seat_wind),
                    i,
                    winner,
                    me.seat_wind == SeatWind::East,
                    players[i].seat_wind,
                ),
                me.seat_wind != SeatWind::East,
            ),
    )
}

/// A round as it stands: the wall, the tiles of the players, the players.
pub struct RoundState {
    pub wall: Seq<MahjongTile>,
    pub seats: Seats,
    pub players: Seq<Player>,
}

/// What one turn of the player at `current` makes of a round, and how the
/// turn ends.
///
/// The hand is sorted first. Where the wall is empty, the round is drawn
/// and settled. Else the player draws the last tile of the wall; wins on it
/// where the hand is complete and the player's policy says so; and else
/// discards the tile that the policy names, which the first of the others
/// who can may call for a triplet, where the player's policy for calls
/// says so. Where the policy names a place that the hand does not have,
/// nothing is discarded.
pub open spec fn turn_result(state: RoundState, current: int) -> (RoundState, TurnOutcome) {
    let sorted = sorted_tiles(state.seats.hand[current]);
    let s0 = state.seats.with_hand(current, sorted);
    let me = state.players[current];
    if state.wall.len() == 0 {
        (
            RoundState {
                wall: state.wall,
                seats: s0,
                players: players_after_draw(s0.hand, state.players),
            },
            TurnOutcome::Draw,
        )
    } else {
        let h1 = sorted.push(state.wall.last());
        let s1 = s0.with_hand(current, h1);
        let idx = me.strategy.discard.choice(h1);
        let wall = state.wall.drop_last();
        if is_complete_hand(h1) && me.strategy.tsumo.answer() {
            (
                RoundState {
                    wall,
                    seats: s1,
                    players: players_after_win(
                        h1,
                        s1.open_hand[current].len() == 0,
                        state.players,
                        current,
                    ),
                },
                TurnOutcome::Win,
            )
        } else if idx >= h1.len() {
            (RoundState { wall, seats: s1, players: state.players }, TurnOutcome::NoDiscard)
        } else {
            (
                RoundState {
                    wall,
                    seats: s1.after_discard(current, idx).after_call(
                        h1[idx],
                        current,
                        me.strategy.call_pon.answer(),
                    ),
                    players: state.players,
                },
                TurnOutcome::Continue,
            )
        }
    }
}

/// The seat that moves after the seat at `current`.
pub open spec fn next_seat(current: int) -> int {
    if current >= 3 {
        0
    } else {
        current + 1
    }
}

/// What the turns of a round make of it, the player at `current` moving
/// first and the others in the order of the seats, until a turn ends the
/// round; and how that turn ends.
pub open spec fn round_result(state: RoundState, current: int) -> (RoundState, TurnOutcome)
    decreases state.wall.len(),
{
    let after = turn_result(state, current);
    if state.wall.len() > 0 && after.1 == TurnOutcome::Continue {
        round_result(
            RoundState {
                wall: state.wall.drop_last(),
                seats: after.0.seats,
                players: after.0.players,
            },
            next_seat(current),
        )
    } else {
        after
    }
}

/// One turn of the player at `current`: see `turn_result`.
pub fn take_turn(
    board_tiles: &mut BoardTiles,
    player_tiles: &mut PlayerTiles,
    players: &mut Vec<Player>,
    current: usize,
) -> (out: TurnOutcome)
    requires
        current < 4,
        old(players).len() == 4,
        old(player_tiles)@.four(),
        4 * old(player_tiles)@.hand[current as int].len() + 54 <= i32::MAX,
        forall|i: int|
            0 <= i < 4 ==> i32::MIN + 48000 <= (#[trigger] old(players)@[i]).points <= i32::MAX
                - 48000,
    ensures
        final(board_tiles).wall_dead == old(board_tiles).wall_dead,
        final(board_tiles).dora_indicators == old(board_tiles).dora_indicators,
        final(board_tiles).dora_index == old(board_tiles).dora_index,
        (
            RoundState {
                wall: final(board_tiles).wall@,
                seats: final(player_tiles)@,
                players: final(players)@,
            },
            out,
        ) == turn_result(
            RoundState {
                wall: old(board_tiles).wall@,
                seats: old(player_tiles)@,
                players: old(players)@,
            },
            current as int,
        ),
{
    let ghost state = RoundState {
        wall: board_tiles.wall@,
        seats: player_tiles@,
        players: players@,
    };
    sort_hand(player_tiles, current);
    proof {
        lemma_melds_view(&player_tiles.hand);
        lemma_melds_view(&player_tiles.open_hand);
        lemma_sorted_tiles(old(player_tiles)@.hand[current as int]);
    }
    if board_tiles.wall.len() == 0 {
        scoring_tenpai(player_tiles, players);
        assert(players@ =~= players_after_draw(player_tiles@.hand, state.players));
        return TurnOutcome::Draw;
    }
    let drawn = board_tiles.wall.pop().unwrap();
    push_tile(&mut player_tiles.hand, current, drawn);
    proof {
        lemma_melds_view(&player_tiles.hand);
        lemma_melds_view(&player_tiles.open_hand);
    }
    let strategy = players[current].strategy;
    let hand = slice_to_vec(player_tiles.hand[current].as_slice());
    if is_complete(hand.as_slice()) && strategy.tsumo.decide(input_for(player_tiles, current)) {
        scoring_tsumo(player_tiles, players, current);
        assert(players@ =~= players_after_win(
            hand@,
            player_tiles@.open_hand[current as int].len() == 0,
            state.players,
            current as int,
        ));
        return TurnOutcome::Win;
    }
    let idx = strategy.discard.decide(input_for(player_tiles, current));
    if idx >= hand.len() {
        return TurnOutcome::NoDiscard;
    }
    let tile = discard_tile(player_tiles, current, idx);
    let calls = strategy.call_pon.decide(input_for(player_tiles, current));
    call_discard(player_tiles, tile, current, calls);
    TurnOutcome::Continue
}

/// The place that a policy names is not negative.
proof fn lemma_choice_in_range(policy: DiscardPolicy, hand: Seq<MahjongTile>)
    ensures
        policy.choice(hand) >= 0,
{
    let p = loose_tiles(hand);
    if p.len() > 0 {
        lemma_first_in_range(hand, p.last());
        lemma_first_in_range(hand, pinfu_choice(p));
    }
}

/// A turn that ends in a discard leaves no hand larger than it was.
proof fn lemma_hands_do_not_grow(state: RoundState, current: int, i: int)
    requires
        state.seats.four(),
        state.players.len() == 4,
        0 <= current < 4,
        0 <= i < 4,
        turn_result(state, current).1 == TurnOutcome::Continue,
    ensures
        state.wall.len() > 0,
        turn_result(state, current).0.seats.four(),
        turn_result(state, current).0.seats.hand[i].len() <= state.seats.hand[i].len(),
{
    let sorted = sorted_tiles(state.seats.hand[current]);
    lemma_sorted_tiles(state.seats.hand[current]);
    let h1 = sorted.push(state.wall.last());
    let s1 = state.seats.with_hand(current, sorted).with_hand(current, h1);
    let me = state.players[current];
    let idx = me.strategy.discard.choice(h1);
    lemma_choice_in_range(me.strategy.discard, h1);
    let s2 = s1.after_discard(current, idx);
    let tile = h1[idx];
    let calls = me.strategy.call_pon.answer();
    let s3 = s2.after_call(tile, current, calls);
    assert(turn_result(state, current).0.seats == s3);
    assert(s2.hand[current].len() == state.seats.hand[current].len());
    if i != current {
        assert(s2.hand[i] == state.seats.hand[i]);
    }
    lemma_caller_in_range(s2, tile, current, 0);
    match s2.caller(tile, current, 0) {
        Some(c) => {
            lemma_sorted_tiles(s2.hand[c]);
            lemma_without_first_len(sorted_tiles(s2.hand[c]), tile);
            lemma_without_first_len(without_first(sorted_tiles(s2.hand[c]), tile), tile);
            if calls {
                assert(s3 == s2.after_pon(c, tile));
                if i != c {
                    assert(s3.hand[i] == s2.hand[i]);
                }
            }
        },
        None => {},
    }
}

/// The caller is one of the four players, and not the one who discarded.
proof fn lemma_caller_in_range(s: Seats, tile: MahjongTile, current: int, from: int)
    requires
        0 <= from,
    ensures
        match s.caller(tile, current, from) {
            Some(c) => from <= c < 4 && c != current,
            None => true,
        },
    decreases 4 - from,
{
    if from < 4 {
        lemma_caller_in_range(s, tile, current, from + 1);
    }
}

/// Plays a round from the turn of the player at `first` until a turn ends
/// it, and says how that turn ended: see `round_result`. The answer is
/// never `Continue`.
pub fn play_round(
    board_tiles: &mut BoardTiles,
    player_tiles: &mut PlayerTiles,
    players: &mut Vec<Player>,
    first: usize,
) -> (out: TurnOutcome)
    requires
        first < 4,
        old(players).len() == 4,
        old(player_tiles)@.four(),
        forall|i: int|
            0 <= i < 4 ==> 4 * (#[trigger] old(player_tiles)@.hand[i]).len() + 54 <= i32::MAX,
        forall|i: int|
            0 <= i < 4 ==> i32::MIN + 48000 <= (#[trigger] old(players)@[i]).points <= i32::MAX
                - 48000,
    ensures
        out != TurnOutcome::Continue,
        final(board_tiles).wall_dead == old(board_tiles).wall_dead,
        final(board_tiles).dora_indicators == old(board_tiles).dora_indicators,
        final(board_tiles).dora_index == old(board_tiles).dora_index,
        (
            RoundState {
                wall: final(board_tiles).wall@,
                seats: final(player_tiles)@,
                players: final(players)@,
            },
            out,
        ) == round_result(
            RoundState {
                wall: old(board_tiles).wall@,
                seats: old(player_tiles)@,
                players: old(players)@,
            },
            first as int,
        ),
{
    let ghost start = RoundState {
        wall: board_tiles.wall@,
        seats: player_tiles@,
        players: players@,
    };
    let mut current = first;
    loop
        invariant
            current < 4,
            players.len() == 4,
            player_tiles@.four(),
            start == (RoundState {
                wall: old(board_tiles).wall@,
                seats: old(player_tiles)@,
                players: old(players)@,
            }),
            board_tiles.wall_dead == old(board_tiles).wall_dead,
            board_tiles.dora_indicators == old(board_tiles).dora_indicators,
            board_tiles.dora_index == old(board_tiles).dora_index,
            forall|i: int| 0 <= i < 4 ==> 4 * (#[trigger] player_tiles@.hand[i]).len() + 54 <= i32::MAX,
            forall|i: int|
                0 <= i < 4 ==> i32::MIN + 48000 <= (#[trigger] players@[i]).points <= i32::MAX
                    - 48000,
            round_result(start, first as int) == round_result(
                RoundState { wall: board_tiles.wall@, seats: player_tiles@, players: players@ },
                current as int,
            ),
        decreases board_tiles.wall.len(),
    {
        let ghost before = RoundState {
            wall: board_tiles.wall@,
            seats: player_tiles@,
            players: players@,
        };
        let out = take_turn(board_tiles, player_tiles, players, current);
        proof {
            let after = turn_result(before, current as int);
            assert(after.0.wall == board_tiles.wall@);
            assert(after.0.seats == player_tiles@);
            assert(after.0.players == players@);
        }
        if out != TurnOutcome::Continue {
            proof {
                let after = turn_result(before, current as int);
                assert(round_result(before, current as int) == after);
                let now = RoundState {
                    wall: board_tiles.wall@,
                    seats: player_tiles@,
                    players: players@,
                };
                assert(after.0 == now);
            }
            return out;
        }
        proof {
            assert forall|i: int| 0 <= i < 4 implies 4 * (#[trigger] player_tiles@.hand[i]).len()
                + 54 <= i32::MAX by {
                lemma_hands_do_not_grow(before, current as int, i);
            }
            lemma_hands_do_not_grow(before, current as int, 0);
            assert(board_tiles.wall@ == before.wall.drop_last());
            assert(players@ == before.players);
        }
        current = if current >= 3 { 0 } else { current + 1 };
    }
}

/// Whether one of the first four players has fewer than no points, which
/// ends the game.
pub open spec fn someone_bust(players: Seq<Player>, n: int) -> bool
    decreases n,
{
    n > 0 && (someone_bust(players, n - 1) || (n - 1 < players.len() && players[n - 1].points < 0))
}

/// Whether one of the first four players has fewer than no points.
pub fn any_bust(players: &Vec<Player>) -> (r: bool)
    ensures
        r == someone_bust(players@, 4),
{
    let mut r = false;
    let mut n: usize = 0;
    while n < 4
        invariant
            n <= 4,
            r == someone_bust(players@, n as int),
        decreases 4 - n,
    {
        if n < players.len() && players[n].points < 0 {
            r = true;
        }
        n += 1;
    }
    r
}

/// The hand dealt to the player at `i`: thirteen tiles from the end of the
/// wall, the first player's last, with the bonus flags set and sorted.
pub open spec fn dealt_hand(wall: Seq<MahjongTile>, indicator: MahjongTile, i: int) -> Seq<
    MahjongTile,
> {
    sorted_tiles(
        flagged_all(
            wall.subrange(wall.len() - 13 * (i + 1), wall.len() - 13 * i),
            indicator.suit,
            bonus_rank(indicator),
        ),
    )
}

/// Sets a round up: deals the four hands from the end of the wall, turns
/// the first indicator up and sorts the hands.
pub fn deal_round(
    wall: Vec<MahjongTile>,
    wall_dead: Vec<MahjongTile>,
    dora_indicators: Vec<MahjongTile>,
) -> (res: (BoardTiles, PlayerTiles))
    requires
        wall.len() >= 52,
        dora_indicators.len() > 0,
    ensures
        res.0.dora_index == 0,
        res.0.wall@ == flagged_all(
            wall@.subrange(0, wall.len() - 52),
            dora_indicators@[0].suit,
            bonus_rank(dora_indicators@[0]),
        ),
        res.0.wall_dead@ == flagged_all(
            wall_dead@,
            dora_indicators@[0].suit,
            bonus_rank(dora_indicators@[0]),
        ),
        res.0.dora_indicators@ == flagged_all(
            dora_indicators@,
            dora_indicators@[0].suit,
            bonus_rank(dora_indicators@[0]),
        ),
        res.1@.four(),
        forall|i: int|
            0 <= i < 4 ==> #[trigger] res.1@.hand[i] == dealt_hand(wall@, dora_indicators@[0], i),
        forall|i: int| 0 <= i < 4 ==> (#[trigger] res.1@.open_hand[i]).len() == 0,
        forall|i: int| 0 <= i < 4 ==> (#[trigger] res.1@.discards[i]).len() == 0,
{
    let ghost indicator = dora_indicators@[0];
    let (rest, a, b, c, d) = draw_hands(wall);
    let mut hands: Vec<Vec<MahjongTile>> = Vec::new();
    hands.push(a);
    hands.push(b);
    hands.push(c);
    hands.push(d);
    let mut player_tiles = PlayerTiles::default();
    player_tiles.hand = hands;
    let mut board_tiles = BoardTiles { wall: rest, wall_dead, dora_indicators, dora_index: 0 };
    proof {
        lemma_melds_view(&player_tiles.hand);
    }
    let ghost dealt = player_tiles@;
    flip_dora_indicator(&mut board_tiles, &mut player_tiles);
    let ghost flipped = player_tiles@;
    proof {
        lemma_melds_view(&player_tiles.discards);
        assert(player_tiles@.discards == dealt.discards);
    }
    sort_hand(&mut player_tiles, 0);
    sort_hand(&mut player_tiles, 1);
    sort_hand(&mut player_tiles, 2);
    sort_hand(&mut player_tiles, 3);
    proof {
        assert forall|i: int| 0 <= i < 4 implies #[trigger] player_tiles@.hand[i] == dealt_hand(
            wall@,
            indicator,
            i,
        ) by {
            assert(flipped.hand[i] == flagged_all(
                dealt.hand[i],
                indicator.suit,
                bonus_rank(indicator),
            ));
        }
        assert forall|i: int| 0 <= i < 4 implies (#[trigger] player_tiles@.open_hand[i]).len()
            == 0 by {
            assert(flipped.open_hand[i].len() == dealt.open_hand[i].len());
        }
    }
    (board_tiles, player_tiles)
}

} // verus!
