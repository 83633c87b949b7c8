//! Points: the value of a winning hand.

use crate::complete::{check_tenpai, probes, waits_in};
use crate::decompose::{
    all_melds, construct_unique_meld_set, has_standard_decomposition, is_unique_meld_set,
    lemma_decomposition_len, lemma_unique_meld_set, same_melds,
};
use crate::melds::{
    candidate_sets, find_pairs_melds, is_meld, is_pair, is_run, is_triplet, lemma_melds_view,
    lemma_same_tiles_chain, same_tiles, tiles_match,
};
use crate::player::{GameResult, Player, SeatWind};
use crate::table::PlayerTiles;
use crate::tile::{MahjongTile, Suit};
use vstd::arithmetic::power2::{lemma2_to64, lemma_pow2, pow2};
use vstd::arithmetic::power::{lemma_pow_increases, lemma_pow_positive, pow};
use vstd::prelude::*;

verus! {

/// The number plus `step - 1`, cut down to a multiple of `step` towards
/// zero. For a number that is not negative this is the next multiple of
/// `step` that is not below it.
pub open spec fn rounded_up(number: int, step: int) -> int {
    let n = number + step - 1;
    if n >= 0 {
        n / step * step
    } else {
        -((-n) / step * step)
    }
}

/// Rounds up to a multiple of 100.
pub fn round_up_to_100(number: i32) -> (r: i32)
    requires
        number <= i32::MAX - 99,
    ensures
        r == rounded_up(number as int, 100),
        number >= 0 ==> r % 100 == 0 && number <= r < number + 100,
{
    (number + 99) / 100 * 100
}

/// Rounds up to a multiple of 10.
pub fn round_up_to_10(number: i32) -> (r: i32)
    requires
        number <= i32::MAX - 9,
    ensures
        r == rounded_up(number as int, 10),
        number >= 0 ==> r % 10 == 0 && number <= r < number + 10,
{
    (number + 9) / 10 * 10
}

/// The highest value of a hand with the given number of doublings.
pub open spec fn limit(han: nat) -> int {
    if han <= 5 {
        2000
    } else if han <= 7 {
        3000
    } else if han <= 10 {
        4000
    } else if han <= 12 {
        6000
    } else {
        8000
    }
}

/// The fee doubled `doublings` times, or the limit for `han` where that is
/// more than 2000.
pub open spec fn capped(fee: int, doublings: nat, han: nat) -> int {
    let raw = fee * pow2(doublings);
    if raw > 2000 {
        limit(han)
    } else {
        raw
    }
}

/// Calls `num_traits::pow`, which raises `base` to the power `exp` by
/// repeated squaring. Trusted: the result is that power; no product on the
/// way is larger than it, so none overflows where it fits.
#[verifier::external_body]
fn power(base: i32, exp: usize) -> (r: i32)
    requires
        base >= 1,
        pow(base as int, exp as nat) <= i32::MAX,
    ensures
        r == pow(base as int, exp as nat),
{
    num_traits::pow(base, exp)
}

/// The highest value of a hand with the given number of doublings.
fn limit_for(han: usize) -> (r: i32)
    ensures
        r == limit(han as nat),
{
    if han <= 5 {
        2000
    } else if han <= 7 {
        3000
    } else if han <= 10 {
        4000
    } else if han <= 12 {
        6000
    } else {
        8000
    }
}

/// The value of a hand from its fee and its doublings.
pub fn capped_score(fee: i32, doublings: usize, han: usize) -> (r: i32)
    requires
        fee >= 1,
        2 <= doublings,
    ensures
        r == capped(fee as int, doublings as nat, han as nat),
        1 <= r <= 8000,
{
    proof {
        lemma2_to64();
        lemma_pow2(doublings as nat);
        lemma_pow2(2);
        lemma_pow2(16);
        lemma_pow_positive(2, doublings as nat);
        lemma_pow_increases(2, 2, doublings as nat);
    }
    if fee > 500 {
        assert(fee * pow2(doublings as nat) > 2000) by (nonlinear_arith)
            requires
                fee > 500,
                pow2(doublings as nat) >= 4,
        ;
        return limit_for(han);
    }
    if doublings > 16 {
        proof {
            lemma_pow_increases(2, 16, doublings as nat);
        }
        assert(fee * pow2(doublings as nat) > 2000) by (nonlinear_arith)
            requires
                fee >= 1,
                pow2(doublings as nat) >= 65536,
        ;
        return limit_for(han);
    }
    proof {
        lemma_pow_increases(2, doublings as nat, 16);
    }
    let factor = power(2, doublings);
    assert(fee * factor <= 500 * 65536) by (nonlinear_arith)
        requires
            1 <= fee <= 500,
            1 <= factor <= 65536,
    ;
    assert(fee * factor >= 1) by (nonlinear_arith)
        requires
            1 <= fee,
            1 <= factor,
    ;
    let raw = fee * factor;
    if raw > 2000 {
        limit_for(han)
    } else {
        raw
    }
}

/// How many of the first `n` tiles carry the bonus flag.
pub open spec fn dora_count(hand: Seq<MahjongTile>, n: int) -> nat
    decreases n,
{
    if n <= 0 {
        0
    } else {
        dora_count(hand, n - 1) + (if hand[n - 1].is_dora { 1nat } else { 0nat })
    }
}

/// A dragon, or the wind of the seat: a triplet of it doubles the value.
pub open spec fn is_value_tile(t: MahjongTile, seat: SeatWind) -> bool {
    t.suit == Suit::Sangen || (t.suit == Suit::Kaze && t.value == seat.number())
}

/// An honor, or the first or the last rank of a series.
pub open spec fn is_outer_tile(t: MahjongTile) -> bool {
    t.suit == Suit::Sangen || t.suit == Suit::Kaze || t.value == 1 || t.value == 9
}

/// The fee that a meld adds: 2 for a pair of value tiles, 8 for a triplet
/// of outer tiles, 4 for another triplet.
pub open spec fn meld_fee(m: Seq<MahjongTile>, seat: SeatWind) -> int {
    if is_pair(m) {
        if is_value_tile(m[0], seat) {
            2
        } else {
            0
        }
    } else if is_triplet(m) {
        if is_outer_tile(m[0]) {
            8
        } else {
            4
        }
    } else {
        0
    }
}

/// Whether the meld doubles the value: a triplet of value tiles.
pub open spec fn meld_doubles(m: Seq<MahjongTile>, seat: SeatWind) -> bool {
    is_triplet(m) && is_value_tile(m[0], seat)
}

/// Whether the winning tile completed the meld in a way that adds 2 to the
/// fee: as one of the pair, in the middle of a run, or at the inner end of
/// a run that begins with 1 or ends with 9.
pub open spec fn narrow_wait(m: Seq<MahjongTile>, w: MahjongTile) -> bool {
    (is_pair(m) && m[0].same_kind(w)) || (is_run(m) && (m[1].same_kind(w) || (m[0].same_kind(w)
        && w.value == 7) || (m[2].same_kind(w) && w.value == 3)))
}

/// Whether the winning tile completed the run at an end that was open.
pub open spec fn open_wait(m: Seq<MahjongTile>, w: MahjongTile) -> bool {
    is_run(m) && ((m[0].same_kind(w) && w.value != 7) || (m[2].same_kind(w) && w.value != 3))
}

/// Whether a later meld holds the same tiles as the meld at `i`.
pub open spec fn has_later_twin(d: Seq<Seq<MahjongTile>>, i: int) -> bool {
    exists|j: int| i < j < d.len() && same_tiles(d[i], #[trigger] d[j])
}

/// What the first `n` melds add up to.
pub struct Tally {
    pub fee: int,
    pub doubling_melds: nat,
    pub triplets: nat,
    pub narrow: bool,
    pub open: bool,
    pub twins: nat,
}

/// The tally of the first `n` melds of `d`.
pub open spec fn tally(d: Seq<Seq<MahjongTile>>, seat: SeatWind, w: MahjongTile, n: int) -> Tally
    decreases n,
{
    if n <= 0 {
        Tally { fee: 0, doubling_melds: 0, triplets: 0, narrow: false, open: false, twins: 0 }
    } else {
        let prev = tally(d, seat, w, n - 1);
        let m = d[n - 1];
        Tally {
            fee: prev.fee + meld_fee(m, seat),
            doubling_melds: prev.doubling_melds + (if meld_doubles(m, seat) { 1nat } else { 0nat }),
            triplets: prev.triplets + (if is_triplet(m) { 1nat } else { 0nat }),
            narrow: prev.narrow || narrow_wait(m, w),
            open: prev.open || open_wait(m, w),
            twins: prev.twins + (if has_later_twin(d, n - 1) { 1nat } else { 0nat }),
        }
    }
}

/// The value of a hand from the tally of its melds.
pub open spec fn value_of(t: Tally, doras: nat, closed: bool, tsumo: bool) -> int {
    let fee0 = t.fee + (if closed && !tsumo { 30int } else { 20int });
    let han0 = doras + (if closed && tsumo { 1nat } else { 0nat }) + t.doubling_melds + (if t.triplets
        >= 3 { 2nat } else { 0nat }) + (if closed { t.twins } else { 0nat });
    let pinfu = t.open && fee0 == 20;
    let han = han0 + (if pinfu { 1nat } else { 0nat });
    let fee1 = fee0 + (if !pinfu && t.narrow { 2int } else { 0int });
    let fee2 = fee1 + (if !pinfu && tsumo { 2int } else { 0int });
    capped(rounded_up(fee2, 10), 2 + han, han)
}

/// The value of a hand with the melds `d`, won on the tile `w`.
pub open spec fn value_with(
    d: Seq<Seq<MahjongTile>>,
    w: MahjongTile,
    doras: nat,
    closed: bool,
    tsumo: bool,
    seat: SeatWind,
) -> int {
    value_of(tally(d, seat, w, d.len() as int), doras, closed, tsumo)
}

/// The value of a winning hand. A hand that holds fewer than two triplets
/// and runs counts as seven pairs, with a fee of 25 and two doublings more;
/// another hand is valued by its canonical decomposition and its last tile,
/// the tile it was won on.
pub open spec fn hand_value(
    hand: Seq<MahjongTile>,
    closed: bool,
    tsumo: bool,
    seat: SeatWind,
) -> int {
    let doras = dora_count(hand, hand.len() as int);
    if candidate_sets(hand).len() < 2 {
        let han = doras + (if closed && tsumo { 1nat } else { 0nat });
        capped(25, 4 + han, han)
    } else {
        let d = choose|d: Seq<Seq<MahjongTile>>| is_unique_meld_set(d, hand);
        value_with(d, hand.last(), doras, closed, tsumo, seat)
    }
}

/// Melds of the same tiles have their twins at the same places.
proof fn lemma_twin_same(d: Seq<Seq<MahjongTile>>, e: Seq<Seq<MahjongTile>>, i: int)
    requires
        same_melds(d, e),
        0 <= i < d.len(),
        has_later_twin(d, i),
    ensures
        has_later_twin(e, i),
{
    let j = choose|j: int| i < j < d.len() && same_tiles(d[i], #[trigger] d[j]);
    assert(same_tiles(d[i], e[i]));
    assert(same_tiles(d[j], e[j]));
    lemma_same_tiles_chain(d[i], d[j], e[j]);
    lemma_same_tiles_chain(d[i], e[i], e[i]);
    lemma_same_tiles_chain(e[i], d[i], e[j]);
}

/// Holding the same melds goes both ways.
proof fn lemma_same_melds_sym(d: Seq<Seq<MahjongTile>>, e: Seq<Seq<MahjongTile>>)
    requires
        same_melds(d, e),
    ensures
        same_melds(e, d),
{
    assert forall|i: int| 0 <= i < e.len() implies same_tiles(#[trigger] e[i], d[i]) by {
        assert(same_tiles(d[i], e[i]));
        lemma_same_tiles_chain(d[i], e[i], e[i]);
    }
}

/// The tally does not tell melds of the same tiles apart.
proof fn lemma_tally_same(
    d: Seq<Seq<MahjongTile>>,
    e: Seq<Seq<MahjongTile>>,
    seat: SeatWind,
    w: MahjongTile,
    n: int,
)
    requires
        same_melds(d, e),
        0 <= n <= d.len(),
    ensures
        tally(d, seat, w, n) == tally(e, seat, w, n),
    decreases n,
{
    if n > 0 {
        lemma_tally_same(d, e, seat, w, n - 1);
        let a = d[n - 1];
        let b = e[n - 1];
        assert(same_tiles(a, b));
        if a.len() >= 1 {
            assert(a[0].same_kind(b[0]));
        }
        if a.len() >= 2 {
            assert(a[1].same_kind(b[1]));
        }
        if a.len() >= 3 {
            assert(a[2].same_kind(b[2]));
        }
        lemma_same_melds_sym(d, e);
        if has_later_twin(d, n - 1) {
            lemma_twin_same(d, e, n - 1);
        }
        if has_later_twin(e, n - 1) {
            lemma_twin_same(e, d, n - 1);
        }
    }
}


/// How many tiles of the hand carry the bonus flag.
fn count_doras(hand: &[MahjongTile]) -> (r: usize)
    ensures
        r == dora_count(hand@, hand.len() as int),
        r <= hand.len(),
{
    let mut count: usize = 0;
    let mut n: usize = 0;
    while n < hand.len()
        invariant
            n <= hand.len(),
            count == dora_count(hand@, n as int),
            count <= n,
        decreases hand.len() - n,
    {
        if hand[n].is_dora {
            count += 1;
        }
        n += 1;
    }
    count
}

/// Whether the tile is a dragon or the wind of the seat.
fn value_tile(t: &MahjongTile, seat: SeatWind) -> (r: bool)
    ensures
        r == is_value_tile(*t, seat),
{
    t.suit == Suit::Sangen || (t.suit == Suit::Kaze && t.value == seat.number())
}

/// Whether the tile is an honor, or the first or last rank of a series.
fn outer_tile(t: &MahjongTile) -> (r: bool)
    ensures
        r == is_outer_tile(*t),
{
    t.suit == Suit::Sangen || t.suit == Suit::Kaze || t.value == 1 || t.value == 9
}

/// Whether a later meld holds the same tiles as the meld at `i`.
fn twin_follows(melds: &Vec<Vec<MahjongTile>>, i: usize) -> (r: bool)
    requires
        i < melds.len(),
    ensures
        r == has_later_twin(melds.deep_view(), i as int),
{
    proof {
        lemma_melds_view(melds);
    }
    let mut j: usize = i + 1;
    while j < melds.len()
        invariant
            i < j <= melds.len(),
            forall|k: int| 0 <= k < melds.len() ==> #[trigger] melds.deep_view()[k] == melds@[k]@,
            forall|k: int|
                i < k < j ==> !same_tiles(melds.deep_view()[i as int], #[trigger] melds.deep_view()[k]),
        decreases melds.len() - j,
    {
        if tiles_match(&melds[i], &melds[j]) {
            assert(same_tiles(melds.deep_view()[i as int], melds.deep_view()[j as int]));
            return true;
        }
        j += 1;
    }
    false
}

/// The tally of `n` melds is bounded by `n`.
proof fn lemma_tally_bounds(d: Seq<Seq<MahjongTile>>, seat: SeatWind, w: MahjongTile, n: int)
    requires
        0 <= n,
    ensures
        0 <= tally(d, seat, w, n).fee <= 8 * n,
        tally(d, seat, w, n).doubling_melds <= n,
        tally(d, seat, w, n).triplets <= n,
        tally(d, seat, w, n).twins <= n,
    decreases n,
{
    if n > 0 {
        lemma_tally_bounds(d, seat, w, n - 1);
    }
}

/// What the melds add up to, as numbers of the machine.
struct Counted {
    fee: i32,
    doubling_melds: usize,
    triplets: usize,
    narrow: bool,
    open: bool,
    twins: usize,
}

impl Counted {
    /// The counts are those of the tally.
    spec fn matches(self, t: Tally) -> bool {
        &&& self.fee == t.fee
        &&& self.doubling_melds == t.doubling_melds
        &&& self.triplets == t.triplets
        &&& self.narrow == t.narrow
        &&& self.open == t.open
        &&& self.twins == t.twins
    }
}

/// Tallies the melds.
fn count_melds(melds: &Vec<Vec<MahjongTile>>, seat: SeatWind, w: &MahjongTile) -> (c: Counted)
    requires
        all_melds(melds.deep_view()),
        8 * melds.len() <= i32::MAX,
    ensures
        c.matches(tally(melds.deep_view(), seat, *w, melds.len() as int)),
{
    let ghost d = melds.deep_view();
    let mut c = Counted {
        fee: 0,
        doubling_melds: 0,
        triplets: 0,
        narrow: false,
        open: false,
        twins: 0,
    };
    let mut n: usize = 0;
    proof {
        lemma_melds_view(melds);
    }
    while n < melds.len()
        invariant
            n <= melds.len(),
            d == melds.deep_view(),
            all_melds(d),
            8 * melds.len() <= i32::MAX,
            forall|k: int| 0 <= k < melds.len() ==> #[trigger] d[k] == melds@[k]@,
            c.matches(tally(d, seat, *w, n as int)),
        decreases melds.len() - n,
    {
        proof {
            lemma_tally_bounds(d, seat, *w, n as int);
            assert(is_meld(d[n as int]));
        }
        let m = &melds[n];
        if m.len() == 2 {
            if value_tile(&m[0], seat) {
                c.fee += 2;
            }
            if m[0] == *w {
                c.narrow = true;
            }
        } else if m[0] == m[1] {
            c.triplets += 1;
            if outer_tile(&m[0]) {
                c.fee += 8;
            } else {
                c.fee += 4;
            }
            if value_tile(&m[0], seat) {
                c.doubling_melds += 1;
            }
        } else {
            if m[1] == *w || (m[0] == *w && w.value == 7) || (m[2] == *w && w.value == 3) {
                c.narrow = true;
            }
            if (m[0] == *w && w.value != 7) || (m[2] == *w && w.value != 3) {
                c.open = true;
            }
        }
        if twin_follows(melds, n) {
            c.twins += 1;
        }
        n += 1;
    }
    c
}

/// The value of a hand from the tally of its melds.
fn value_from(c: &Counted, doras: usize, closed: bool, tsumo: bool, Ghost(t): Ghost<Tally>) -> (r:
    i32)
    requires
        c.matches(t),
        0 <= t.fee <= i32::MAX - 50,
        doras + t.doubling_melds + t.twins + 10 <= usize::MAX,
    ensures
        r == value_of(t, doras as nat, closed, tsumo),
        1 <= r <= 8000,
{
    let mut han: usize = doras;
    if closed && tsumo {
        han += 1;
    }
    let mut fee: i32 = c.fee + (if closed && !tsumo { 30 } else { 20 });
    han += c.doubling_melds;
    if c.triplets >= 3 {
        han += 2;
    }
    if closed {
        han += c.twins;
    }
    let pinfu = c.open && fee == 20;
    if pinfu {
        han += 1;
    } else if c.narrow {
        fee += 2;
    }
    if !pinfu && tsumo {
        fee += 2;
    }
    let fee = round_up_to_10(fee);
    capped_score(fee, 2 + han, han)
}

/// The value does not tell the canonical decompositions of a hand apart.
proof fn lemma_value_unique(
    d: Seq<Seq<MahjongTile>>,
    hand: Seq<MahjongTile>,
    doras: nat,
    closed: bool,
    tsumo: bool,
    seat: SeatWind,
)
    requires
        is_unique_meld_set(d, hand),
    ensures
        value_with(d, hand.last(), doras, closed, tsumo, seat) == value_with(
            choose|e: Seq<Seq<MahjongTile>>| is_unique_meld_set(e, hand),
            hand.last(),
            doras,
            closed,
            tsumo,
            seat,
        ),
{
    let chosen = choose|e: Seq<Seq<MahjongTile>>| is_unique_meld_set(e, hand);
    lemma_unique_meld_set(d, hand, chosen, hand);
    lemma_tally_same(d, chosen, seat, hand.last(), d.len() as int);
}

/// The value of a winning hand: see `hand_value`.
///
/// The hand holds fewer than two triplets and runs, or it has a
/// decomposition with exactly one pair. `open_hand` is empty where the
/// hand is closed; `tsumo` says that the winning tile was drawn.
pub fn calculate_hand_score(
    hand: &[MahjongTile],
    open_hand: &[MahjongTile],
    tsumo: bool,
    seat_wind: &SeatWind,
) -> (r: i32)
    requires
        candidate_sets(hand@).len() >= 2 ==> has_standard_decomposition(hand@),
        4 * hand.len() + 50 <= i32::MAX,
    ensures
        r == hand_value(hand@, open_hand@.len() == 0, tsumo, *seat_wind),
        1 <= r <= 8000,
{
    let closed = open_hand.len() == 0;
    let seat = *seat_wind;
    let (sets, _) = find_pairs_melds(hand);
    assert(sets.deep_view().len() == sets.len());
    let doras = count_doras(hand);
    if sets.len() < 2 {
        let han: usize = if closed && tsumo { doras + 1 } else { doras };
        return capped_score(25, 4 + han, han);
    }
    let melds = construct_unique_meld_set(hand);
    let ghost d = melds.deep_view();
    let winning = hand[hand.len() - 1];
    let ghost t = tally(d, seat, winning, d.len() as int);
    proof {
        lemma_decomposition_len(d, hand@);
        lemma_tally_bounds(d, seat, winning, d.len() as int);
        lemma_value_unique(d, hand@, doras as nat, closed, tsumo, seat);
    }
    let c = count_melds(&melds, seat, &winning);
    value_from(&c, doras, closed, tsumo, Ghost(t))
}


/// Whether the hand is one tile from complete.
pub open spec fn is_waiting(hand: Seq<MahjongTile>) -> bool {
    waits_in(hand, probes(hand)).len() > 0
}

/// How many of the first `n` hands are one tile from complete.
pub open spec fn waiting_count(hands: Seq<Seq<MahjongTile>>, n: int) -> int
    decreases n,
{
    if n <= 0 {
        0
    } else {
        waiting_count(hands, n - 1) + (if is_waiting(hands[n - 1]) { 1int } else { 0int })
    }
}

/// What a player gets at a draw where `ready` of the four hands are one
/// tile from complete: those that are share 3000 points, which the others
/// pay in equal parts; nothing moves where none or all are.
pub open spec fn draw_payment(ready: int, waiting: bool) -> int {
    if ready <= 0 || ready >= 4 {
        0
    } else if waiting {
        3000int / ready
    } else if ready == 3 {
        -3000
    } else if ready == 2 {
        -1500
    } else {
        -1000
    }
}

/// Whether one of the first `n` players is the dealer with a hand that is
/// one tile from complete.
pub open spec fn dealer_waits(hands: Seq<Seq<MahjongTile>>, players: Seq<Player>, n: int) -> bool
    decreases n,
{
    n > 0 && (dealer_waits(hands, players, n - 1) || (n - 1 < players.len() && is_waiting(
        hands[n - 1],
    ) && players[n - 1].seat_wind == SeatWind::East))
}

/// Whether the seats move on after a draw: they stay where all four hands
/// are waiting, and where the dealer's hand is.
pub open spec fn seats_move_after_draw(
    hands: Seq<Seq<MahjongTile>>,
    players: Seq<Player>,
) -> bool {
    let ready = waiting_count(hands, 4);
    ready != 4 && !(ready != 0 && dealer_waits(hands, players, 4))
}

/// The player with the points changed by `gain` and, where `move_seat`
/// holds, on the next seat.
pub open spec fn settled(p: Player, gain: int, move_seat: bool) -> Player {
    Player {
        points: (p.points + gain) as i32,
        seat_wind: if move_seat { p.seat_wind.next() } else { p.seat_wind },
        strategy: p.strategy,
        id: p.id,
    }
}

/// Changes the points of the player at `i` by `gain` and moves the player to
/// the next seat where `move_seat` holds.
fn settle(players: &mut Vec<Player>, i: usize, gain: i32, move_seat: bool)
    requires
        i < old(players).len(),
        i32::MIN <= old(players)@[i as int].points + gain <= i32::MAX,
    ensures
        final(players)@ == old(players)@.update(
            i as int,
            settled(old(players)@[i as int], gain as int, move_seat),
        ),
{
    let p = &players[i];
    let seat = if move_seat { p.seat_wind.next() } else { p.seat_wind };
    let q = Player { points: p.points + gain, seat_wind: seat, strategy: p.strategy, id: p.id };
    players[i] = q;
}

/// Settles a draw: the players whose hands are one tile from complete share
/// 3000 points paid by the others, and the seats move on unless the dealer's
/// hand or all four hands are waiting. Only the first four players take
/// part in the payments.
pub fn scoring_tenpai(player_tiles: &mut PlayerTiles, players: &mut Vec<Player>)
    requires
        old(player_tiles).hand.len() >= 4,
        forall|i: int|
            0 <= i < old(players).len() ==> i32::MIN + 3000 <= (#[trigger] old(players)@[i]).points
                <= i32::MAX - 3000,
    ensures
        *final(player_tiles) == *old(player_tiles),
        final(players).len() == old(players).len(),
        forall|i: int|
            0 <= i < old(players).len() ==> #[trigger] final(players)@[i] == settled(
                old(players)@[i],
                if i < 4 {
                    draw_payment(
                        waiting_count(old(player_tiles).hand.deep_view(), 4),
                        is_waiting(old(player_tiles).hand.deep_view()[i]),
                    )
                } else {
                    0
                },
                seats_move_after_draw(old(player_tiles).hand.deep_view(), old(players)@),
            ),
{
    let ghost hands = player_tiles.hand.deep_view();
    proof {
        lemma_melds_view(&player_tiles.hand);
    }
    let mut ready: i32 = 0;
    let mut flags: Vec<bool> = Vec::new();
    let mut dealer_ready = false;
    let mut i: usize = 0;
    while i < 4
        invariant
            i <= 4,
            player_tiles.hand.len() >= 4,
            hands == player_tiles.hand.deep_view(),
            forall|k: int| 0 <= k < player_tiles.hand.len() ==> #[trigger] hands[k]
                == player_tiles.hand@[k]@,
            ready == waiting_count(hands, i as int),
            0 <= ready <= i,
            flags.len() == i,
            forall|k: int| 0 <= k < i ==> flags@[k] == is_waiting(#[trigger] hands[k]),
            dealer_ready == dealer_waits(hands, players@, i as int),
        decreases 4 - i,
    {
        let (waiting, _) = check_tenpai(player_tiles.hand[i].as_slice());
        if waiting {
            ready += 1;
            if i < players.len() && players[i].seat_wind == SeatWind::East {
                dealer_ready = true;
            }
        }
        flags.push(waiting);
        i += 1;
    }
    let move_seats = ready != 4 && !(ready != 0 && dealer_ready);
    let mut n: usize = 0;
    while n < players.len()
        invariant
            n <= players.len(),
            players.len() == old(players).len(),
            flags.len() == 4,
            0 <= ready <= 4,
            ready == waiting_count(hands, 4),
            forall|k: int| 0 <= k < 4 ==> flags@[k] == is_waiting(#[trigger] hands[k]),
            forall|k: int| n <= k < players.len() ==> #[trigger] players@[k] == old(players)@[k],
            forall|k: int|
                0 <= k < old(players).len() ==> i32::MIN + 3000 <= (#[trigger] old(
                    players,
                )@[k]).points <= i32::MAX - 3000,
            forall|k: int|
                0 <= k < n ==> #[trigger] players@[k] == settled(
                    old(players)@[k],
                    if k < 4 {
                        draw_payment(ready as int, is_waiting(hands[k]))
                    } else {
                        0
                    },
                    move_seats,
                ),
        decreases players.len() - n,
    {
        let mut gain: i32 = 0;
        if n < 4 && ready != 0 && ready != 4 {
            if flags[n] {
                gain = 3000 / ready;
            } else if ready == 3 {
                gain = -3000;
            } else if ready == 2 {
                gain = -1500;
            } else {
                gain = -1000;
            }
        }
        settle(players, n, gain, move_seats);
        n += 1;
    }
}

/// What the player at `index` gets when the player at `winner` wins by
/// drawing a hand worth `base`: the dealer and a winner who deals pay and
/// get double. Only the first four players take part.
pub open spec fn tsumo_payment(
    base: int,
    index: int,
    winner: int,
    dealer_wins: bool,
    seat: SeatWind,
) -> int {
    if index >= 4 {
        0
    } else if index == winner {
        if dealer_wins {
            3 * rounded_up(2 * base, 100)
        } else {
            rounded_up(2 * base, 100) + 2 * rounded_up(base, 100)
        }
    } else if dealer_wins || seat == SeatWind::East {
        -rounded_up(2 * base, 100)
    } else {
        -rounded_up(base, 100)
    }
}

/// Settles a win by a drawn tile: the winner is paid the value of the hand
/// by the others, and the seats move on unless the dealer won.
pub fn scoring_tsumo(
    player_tiles: &mut PlayerTiles,
    players: &mut Vec<Player>,
    winning_player_index: usize,
)
    requires
        winning_player_index < old(players).len(),
        winning_player_index < old(player_tiles).hand.len(),
        winning_player_index < old(player_tiles).open_hand.len(),
        candidate_sets(old(player_tiles).hand@[winning_player_index as int]@).len() >= 2
            ==> has_standard_decomposition(old(player_tiles).hand@[winning_player_index as int]@),
        4 * old(player_tiles).hand@[winning_player_index as int].len() + 50 <= i32::MAX,
        forall|i: int|
            0 <= i < old(players).len() ==> i32::MIN + 48000 <= (#[trigger] old(
                players,
            )@[i]).points <= i32::MAX - 48000,
    ensures
        *final(player_tiles) == *old(player_tiles),
        final(players).len() == old(players).len(),
        forall|i: int|
            0 <= i < old(players).len() ==> #[trigger] final(players)@[i] == settled(
                old(players)@[i],
                tsumo_payment(
                    hand_value(
                        old(player_tiles).hand@[winning_player_index as int]@,
                        old(player_tiles).open_hand@[winning_player_index as int]@.len() == 0,
                        true,
                        old(players)@[winning_player_index as int].seat_wind,
                    ),
                    i,
                    winning_player_index as int,
                    old(players)@[winning_player_index as int].seat_wind == SeatWind::East,
                    old(players)@[i].seat_wind,
                ),
                old(players)@[winning_player_index as int].seat_wind != SeatWind::East,
            ),
{
    let seat = players[winning_player_index].seat_wind;
    let dealer_wins = seat == SeatWind::East;
    let base = calculate_hand_score(
        player_tiles.hand[winning_player_index].as_slice(),
        player_tiles.open_hand[winning_player_index].as_slice(),
        true,
        &seat,
    );
    let double = round_up_to_100(2 * base);
    let single = round_up_to_100(base);
    let mut n: usize = 0;
    while n < players.len()
        invariant
            n <= players.len(),
            players.len() == old(players).len(),
            1 <= base <= 8000,
            double == rounded_up(2 * base, 100),
            single == rounded_up(base as int, 100),
            0 <= double <= 16100,
            0 <= single <= 8100,
            forall|k: int| n <= k < players.len() ==> #[trigger] players@[k] == old(players)@[k],
            forall|k: int|
                0 <= k < old(players).len() ==> i32::MIN + 48000 <= (#[trigger] old(
                    players,
                )@[k]).points <= i32::MAX - 48000,
            forall|k: int|
                0 <= k < n ==> #[trigger] players@[k] == settled(
                    old(players)@[k],
                    tsumo_payment(
                        base as int,
                        k,
                        winning_player_index as int,
                        dealer_wins,
                        old(players)@[k].seat_wind,
                    ),
                    !dealer_wins,
                ),
        decreases players.len() - n,
    {
        let mut gain: i32 = 0;
        if n < 4 {
            if n == winning_player_index {
                if dealer_wins {
                    gain = 3 * double;
                } else {
                    gain = double + 2 * single;
                }
            } else if dealer_wins || players[n].seat_wind == SeatWind::East {
                gain = -double;
            } else {
                gain = -single;
            }
        }
        settle(players, n, gain, !dealer_wins);
        n += 1;
    }
}


/// How many of the first `n` players come before the player at `k` in the
/// final ranking: those with more points, and those with as many points
/// that sit before the player.
pub open spec fn ahead_of(players: Seq<Player>, k: int, n: int) -> int
    decreases n,
{
    if n <= 0 {
        0
    } else {
        ahead_of(players, k, n - 1) + (if players[n - 1].points > players[k].points || (players[n
            - 1].points == players[k].points && n - 1 < k) {
            1int
        } else {
            0int
        })
    }
}

/// The final score of the player at `k`: the points and the bonus of the
/// rank, which is 15000 for the first and 10000 less for each rank below.
pub open spec fn final_score(players: Seq<Player>, k: int) -> int {
    players[k].points + 15000 - 10000 * ahead_of(players, k, players.len() as int)
}

/// How many players come before the player at `k` in the final ranking.
fn rank_of(players: &Vec<Player>, k: usize) -> (r: i32)
    requires
        k < players.len(),
        players.len() == 4,
    ensures
        r == ahead_of(players@, k as int, 4),
        0 <= r <= 4,
{
    let mut r: i32 = 0;
    let mut n: usize = 0;
    while n < 4
        invariant
            n <= 4,
            k < 4,
            players.len() == 4,
            r == ahead_of(players@, k as int, n as int),
            0 <= r <= n,
        decreases 4 - n,
    {
        if players[n].points > players[k].points || (players[n].points == players[k].points && n
            < k) {
            r += 1;
        }
        n += 1;
    }
    r
}

/// The final score of the player at `k`.
fn score_of(players: &Vec<Player>, k: usize) -> (r: i32)
    requires
        k < players.len(),
        players.len() == 4,
        i32::MIN + 25000 <= players@[k as int].points <= i32::MAX - 15000,
    ensures
        r == final_score(players@, k as int),
{
    let rank = rank_of(players, k);
    players[k].points + (15000 - 10000 * rank)
}

/// The final scores of a game of four players: the points of each with the
/// bonus of the rank added.
pub fn game_result(players: &Vec<Player>) -> (res: GameResult)
    requires
        players.len() == 4,
        forall|i: int|
            0 <= i < 4 ==> i32::MIN + 25000 <= (#[trigger] players@[i]).points <= i32::MAX - 15000,
    ensures
        res.player_1_score == final_score(players@, 0),
        res.player_2_score == final_score(players@, 1),
        res.player_3_score == final_score(players@, 2),
        res.player_4_score == final_score(players@, 3),
{
    GameResult {
        player_1_score: score_of(players, 0),
        player_2_score: score_of(players, 1),
        player_3_score: score_of(players, 2),
        player_4_score: score_of(players, 3),
    }
}

} // verus!
