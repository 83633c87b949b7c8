//! Looking tiles up in a hand, and the calls on a discarded tile.

use crate::decompose::position_of;
use crate::hand::{bag, lemma_bag_contains, lemma_bag_push, lemma_bag_remove};
use crate::tile::{lemma_code_identity, MahjongTile};
use vstd::prelude::*;
use vstd::std_specs::cmp::PartialEqSpec;

verus! {

/// The place of the first tile of `s` of the kind of `x`.
pub open spec fn first_equal(s: Seq<MahjongTile>, x: MahjongTile) -> Option<int>
    decreases s.len(),
{
    if s.len() == 0 {
        None
    } else if s[0].same_kind(x) {
        Some(0)
    } else {
        match first_equal(s.drop_first(), x) {
            Some(i) => Some(i + 1),
            None => None,
        }
    }
}

/// Whether the tiles of `sub` can be taken out of `sup` one after the other,
/// each time the first tile of the kind wanted.
pub open spec fn covers(sup: Seq<MahjongTile>, sub: Seq<MahjongTile>) -> bool
    decreases sub.len(),
{
    if sub.len() == 0 {
        true
    } else {
        match first_equal(sup, sub[0]) {
            Some(i) => covers(sup.remove(i), sub.drop_first()),
            None => false,
        }
    }
}

/// The place of the first item of `s` that equals `x`.
pub open spec fn first_match<T: PartialEq>(s: Seq<T>, x: T) -> Option<int>
    decreases s.len(),
{
    if s.len() == 0 {
        None
    } else if s[0].eq_spec(&x) {
        Some(0)
    } else {
        match first_match(s.drop_first(), x) {
            Some(i) => Some(i + 1),
            None => None,
        }
    }
}

/// Whether the items of `sub` can be taken out of `sup` one after the other,
/// each time the first item that equals the one wanted.
pub open spec fn holds_all<T: PartialEq>(sup: Seq<T>, sub: Seq<T>) -> bool
    decreases sub.len(),
{
    if sub.len() == 0 {
        true
    } else {
        match first_match(sup, sub[0]) {
            Some(i) => holds_all(sup.remove(i), sub.drop_first()),
            None => false,
        }
    }
}

/// The items of `sup` at the places `at`.
pub open spec fn chosen<T>(sup: Seq<T>, at: Seq<usize>) -> Seq<T> {
    Seq::new(at.len(), |j: int| sup[at[j] as int])
}

/// The first place of an item that equals `x` is where none stands before
/// it.
proof fn lemma_first_match<T: PartialEq>(s: Seq<T>, x: T, i: int)
    requires
        0 <= i <= s.len(),
        forall|k: int| 0 <= k < i ==> !(#[trigger] s[k]).eq_spec(&x),
        i < s.len() ==> s[i].eq_spec(&x),
    ensures
        first_match(s, x) == (if i < s.len() { Some(i) } else { None }),
    decreases s.len(),
{
    if s.len() > 0 && i > 0 {
        let t = s.drop_first();
        assert forall|k: int| 0 <= k < i - 1 implies !(#[trigger] t[k]).eq_spec(&x) by {
            assert(t[k] == s[k + 1]);
        }
        if i < s.len() {
            assert(t[i - 1] == s[i]);
        }
        lemma_first_match(t, x, i - 1);
    }
}

/// Among tiles, to equal is to be of the same kind.
pub proof fn lemma_first_match_of_tiles(s: Seq<MahjongTile>, x: MahjongTile)
    ensures
        first_match(s, x) == first_equal(s, x),
    decreases s.len(),
{
    if s.len() > 0 {
        lemma_first_match_of_tiles(s.drop_first(), x);
    }
}

/// Among tiles, items are taken out by kind.
pub proof fn lemma_holds_all_of_tiles(sup: Seq<MahjongTile>, sub: Seq<MahjongTile>)
    ensures
        holds_all(sup, sub) == covers(sup, sub),
    decreases sub.len(),
{
    if sub.len() > 0 {
        lemma_first_match_of_tiles(sup, sub[0]);
        match first_equal(sup, sub[0]) {
            Some(i) => {
                lemma_holds_all_of_tiles(sup.remove(i), sub.drop_first());
            },
            None => {},
        }
    }
}

/// The first place of a tile of the kind is where none stands before it.
proof fn lemma_first_equal(s: Seq<MahjongTile>, x: MahjongTile, i: int)
    requires
        0 <= i <= s.len(),
        forall|k: int| 0 <= k < i ==> !(#[trigger] s[k]).same_kind(x),
        i < s.len() ==> s[i].same_kind(x),
    ensures
        first_equal(s, x) == (if i < s.len() { Some(i) } else { None }),
    decreases s.len(),
{
    if s.len() > 0 && i > 0 {
        let t = s.drop_first();
        assert forall|k: int| 0 <= k < i - 1 implies !(#[trigger] t[k]).same_kind(x) by {
            assert(t[k] == s[k + 1]);
        }
        if i < s.len() {
            assert(t[i - 1] == s[i]);
        }
        lemma_first_equal(t, x, i - 1);
    }
}

/// The first place of a kind lies within the tiles.
pub proof fn lemma_first_in_range(s: Seq<MahjongTile>, t: MahjongTile)
    ensures
        match first_equal(s, t) {
            Some(i) => 0 <= i < s.len() && s[i].same_kind(t),
            None => true,
        },
    decreases s.len(),
{
    if s.len() > 0 {
        lemma_first_in_range(s.drop_first(), t);
        match first_equal(s.drop_first(), t) {
            Some(i) => {
                assert(s.drop_first()[i] == s[i + 1]);
            },
            None => {},
        }
    }
}

/// Tiles that hold a tile of a kind have a first place of that kind.
pub proof fn lemma_first_exists(s: Seq<MahjongTile>, t: MahjongTile, k: int)
    requires
        0 <= k < s.len(),
        s[k].same_kind(t),
    ensures
        first_equal(s, t) is Some,
    decreases s.len(),
{
    if !s[0].same_kind(t) {
        assert(s.drop_first()[k - 1] == s[k]);
        lemma_first_exists(s.drop_first(), t, k - 1);
    }
}

/// Taking a tile out leaves no more tiles than there were, and only tiles
/// that were there.
pub proof fn lemma_without_first_len(s: Seq<MahjongTile>, t: MahjongTile)
    ensures
        without_first(s, t).len() <= s.len(),
        without_first(s, t).to_multiset().subset_of(s.to_multiset()),
{
    broadcast use vstd::multiset::group_multiset_axioms;
    broadcast use vstd::seq_lib::group_to_multiset_ensures;

    lemma_first_in_range(s, t);
}

/// Tiles can be taken out of others exactly when the others hold each kind
/// at least as often.
pub proof fn lemma_covers(sup: Seq<MahjongTile>, sub: Seq<MahjongTile>)
    ensures
        covers(sup, sub) <==> bag(sub).subset_of(bag(sup)),
    decreases sub.len(),
{
    broadcast use vstd::multiset::group_multiset_axioms;

    if sub.len() == 0 {
        assert forall|c: int| bag(sub).count(c) == 0 by {
            lemma_bag_contains(sub, c);
        }
    } else {
        let x = sub[0];
        let c = x.code();
        let rest = sub.drop_first();
        lemma_bag_remove(sub, 0);
        assert(sub.remove(0) =~= rest);
        lemma_first_in_range(sup, x);
        match first_equal(sup, x) {
            Some(i) => {
                lemma_code_identity(sup[i], x);
                lemma_bag_remove(sup, i);
                lemma_covers(sup.remove(i), rest);
                if covers(sup, sub) {
                    assert forall|v: int| bag(sub).count(v) <= bag(sup).count(v) by {
                        assert(bag(rest).count(v) <= bag(sup.remove(i)).count(v));
                    }
                }
                if bag(sub).subset_of(bag(sup)) {
                    assert forall|v: int| bag(rest).count(v) <= bag(sup.remove(i)).count(v) by {
                        assert(bag(sub).count(v) <= bag(sup).count(v));
                    }
                }
            },
            None => {
                if bag(sub).subset_of(bag(sup)) {
                    assert(bag(sub).count(c) >= 1);
                    lemma_bag_contains(sup, c);
                    let k = choose|k: int| 0 <= k < sup.len() && #[trigger] sup[k].code() == c;
                    lemma_code_identity(sup[k], x);
                    lemma_first_exists(sup, x, k);
                }
            },
        }
    }
}

/// Whether `subset` can be taken out of `superset` item by item, an item
/// of `superset` serving once. Among tiles, items are taken out by kind,
/// and it is so exactly when `superset` holds each kind at least as often
/// as `subset`: see `covers` and `lemma_covers`.
pub fn is_subset<T: PartialEq + Clone>(superset: &[T], subset: &[T]) -> (r: bool)
    ensures
        T::obeys_eq_spec() ==> r == holds_all(superset@, subset@),
{
    let mut left: Vec<usize> = Vec::new();
    let mut n: usize = 0;
    while n < superset.len()
        invariant
            n <= superset.len(),
            left.len() == n,
            forall|j: int| 0 <= j < n ==> left@[j] == j,
        decreases superset.len() - n,
    {
        left.push(n);
        n += 1;
    }
    assert(chosen(superset@, left@) =~= superset@);
    assert(subset@.skip(0) =~= subset@);
    let mut k: usize = 0;
    while k < subset.len()
        invariant
            k <= subset.len(),
            forall|j: int| 0 <= j < left.len() ==> (#[trigger] left@[j]) < superset.len(),
            T::obeys_eq_spec() ==> holds_all(superset@, subset@) == holds_all(
                chosen(superset@, left@),
                subset@.skip(k as int),
            ),
        decreases subset.len() - k,
    {
        let ghost cur = chosen(superset@, left@);
        let ghost rest = subset@.skip(k as int);
        let mut j: usize = 0;
        let mut found = false;
        while j < left.len()
            invariant_except_break
                j <= left.len(),
                !found,
                T::obeys_eq_spec() ==> forall|q: int|
                    0 <= q < j ==> !(#[trigger] cur[q]).eq_spec(&subset@[k as int]),
            invariant
                k < subset.len(),
                cur == chosen(superset@, left@),
                forall|q: int| 0 <= q < left.len() ==> (#[trigger] left@[q]) < superset.len(),
            ensures
                j <= left.len(),
                found ==> j < left.len(),
                T::obeys_eq_spec() ==> forall|q: int|
                    0 <= q < j ==> !(#[trigger] cur[q]).eq_spec(&subset@[k as int]),
                T::obeys_eq_spec() && found ==> cur[j as int].eq_spec(&subset@[k as int]),
                !found ==> j == left.len(),
            decreases left.len() - j,
        {
            if superset[left[j]] == subset[k] {
                found = true;
                break;
            }
            j += 1;
        }
        proof {
            assert(rest[0] == subset@[k as int]);
            assert(rest.drop_first() =~= subset@.skip(k + 1));
            if T::obeys_eq_spec() {
                lemma_first_match(cur, subset@[k as int], j as int);
            }
        }
        if !found {
            return false;
        }
        left.remove(j);
        assert(chosen(superset@, left@) =~= cur.remove(j as int));
        k += 1;
    }
    true
}

/// The place of the first tile of the hand of the kind of `tile`; 14 where
/// the hand holds no such tile.
pub open spec fn place_or_14(hand: Seq<MahjongTile>, tile: MahjongTile) -> int {
    match first_equal(hand, tile) {
        Some(i) => i,
        None => 14,
    }
}

/// The place of the first tile of the hand that equals `tile`; 14 where the
/// hand holds no such tile.
pub fn find_tile_in_hand(hand: &[MahjongTile], tile: &MahjongTile) -> (r: usize)
    ensures
        r == place_or_14(hand@, *tile),
{
    let mut i: usize = 0;
    while i < hand.len()
        invariant
            i <= hand.len(),
            forall|k: int| 0 <= k < i ==> !(#[trigger] hand@[k]).same_kind(*tile),
        decreases hand.len() - i,
    {
        if *tile == hand[i] {
            proof {
                lemma_first_equal(hand@, *tile, i as int);
            }
            return i;
        }
        i += 1;
    }
    proof {
        lemma_first_equal(hand@, *tile, i as int);
    }
    14
}

/// The tiles without the first one of the kind of `t`.
pub open spec fn without_first(s: Seq<MahjongTile>, t: MahjongTile) -> Seq<MahjongTile> {
    match first_equal(s, t) {
        Some(i) => s.remove(i),
        None => s,
    }
}

/// Takes the first tile of the kind of `tile` out of the deck, if there is one.
pub fn remove_first(deck: &mut Vec<MahjongTile>, tile: &MahjongTile)
    ensures
        final(deck)@ == without_first(old(deck)@, *tile),
{
    match position_of(deck, tile.suit, tile.value) {
        Some(i) => {
            proof {
                lemma_first_equal(deck@, *tile, i as int);
            }
            deck.remove(i);
        },
        None => {
            proof {
                lemma_first_equal(deck@, *tile, deck@.len() as int);
            }
        },
    }
}

/// Takes the first two tiles of the kind of `card_to_remove` out of the
/// deck, or the one that there is.
pub fn remove_pon_tiles(deck: &mut Vec<MahjongTile>, card_to_remove: &MahjongTile)
    ensures
        final(deck)@ == without_first(without_first(old(deck)@, *card_to_remove), *card_to_remove),
{
    remove_first(deck, card_to_remove);
    remove_first(deck, card_to_remove);
}

/// Whether the hand holds at least two tiles of the kind of `tile`, so that
/// the tile can be called for a triplet.
pub fn can_pon(hand: &[MahjongTile], tile: &MahjongTile) -> (r: bool)
    ensures
        r == (bag(hand@).count(tile.code()) >= 2),
{
    let mut count: usize = 0;
    let mut n: usize = 0;
    proof {
        assert(hand@.take(0) =~= Seq::<MahjongTile>::empty());
        crate::hand::lemma_bag_len(hand@.take(0));
        broadcast use vstd::multiset::group_multiset_axioms;

        assert(bag(hand@.take(0)).count(tile.code()) <= bag(hand@.take(0)).len());
    }
    while n < hand.len()
        invariant
            n <= hand.len(),
            count <= n,
            count == bag(hand@.take(n as int)).count(tile.code()),
        decreases hand.len() - n,
    {
        proof {
            broadcast use vstd::multiset::group_multiset_axioms;

            assert(hand@.take(n + 1) =~= hand@.take(n as int).push(hand@[n as int]));
            lemma_bag_push(hand@.take(n as int), hand@[n as int]);
            lemma_code_identity(hand@[n as int], *tile);
        }
        if hand[n] == *tile {
            count += 1;
        }
        n += 1;
    }
    assert(hand@.take(n as int) =~= hand@);
    count >= 2
}

/// Whether the rank stands among the ranks of the suit of `tile` in the hand
/// with `tile` added.
pub open spec fn rank_present(hand: Seq<MahjongTile>, tile: MahjongTile, rank: int) -> bool {
    rank == tile.value || exists|i: int|
        0 <= i < hand.len() && (#[trigger] hand[i]).suit == tile.suit && hand[i].value == rank
}

/// Whether the hand holds two tiles of the suit of `tile` with another rank.
pub open spec fn two_others(hand: Seq<MahjongTile>, tile: MahjongTile) -> bool {
    exists|i: int, j: int|
        0 <= i < j < hand.len() && (#[trigger] hand[i]).suit == tile.suit && hand[i].value
            != tile.value && (#[trigger] hand[j]).suit == tile.suit && hand[j].value != tile.value
}

/// Whether the tile can be called for a run: its suit is a series, the hand
/// holds two tiles of the suit with another rank, and three consecutive ranks
/// stand among the ranks of the suit in the hand with the tile added.
pub open spec fn chi_possible(hand: Seq<MahjongTile>, tile: MahjongTile) -> bool {
    &&& tile.suit.is_series()
    &&& two_others(hand, tile)
    &&& exists|v: int|
        0 <= v <= 253 && #[trigger] rank_present(hand, tile, v) && rank_present(hand, tile, v + 1)
            && rank_present(hand, tile, v + 2)
}

/// Whether the rank stands among the ranks of the suit of `tile` in the hand
/// with `tile` added.
fn has_rank(hand: &[MahjongTile], tile: &MahjongTile, rank: u8) -> (r: bool)
    ensures
        r == rank_present(hand@, *tile, rank as int),
{
    if rank == tile.value {
        return true;
    }
    let mut i: usize = 0;
    while i < hand.len()
        invariant
            i <= hand.len(),
            forall|k: int|
                0 <= k < i ==> !((#[trigger] hand@[k]).suit == tile.suit && hand@[k].value == rank),
        decreases hand.len() - i,
    {
        if hand[i].suit == tile.suit && hand[i].value == rank {
            return true;
        }
        i += 1;
    }
    false
}

/// Whether the hand holds two tiles of the suit of `tile` with another rank.
fn has_two_others(hand: &[MahjongTile], tile: &MahjongTile) -> (r: bool)
    ensures
        r == two_others(hand@, *tile),
{
    let mut first: Option<usize> = None;
    let mut i: usize = 0;
    while i < hand.len()
        invariant
            i <= hand.len(),
            match first {
                Some(f) => f < i && hand@[f as int].suit == tile.suit && hand@[f as int].value
                    != tile.value && forall|k: int|
                    0 <= k < i && k != f ==> !((#[trigger] hand@[k]).suit == tile.suit
                        && hand@[k].value != tile.value),
                None => forall|k: int|
                    0 <= k < i ==> !((#[trigger] hand@[k]).suit == tile.suit && hand@[k].value
                        != tile.value),
            },
        decreases hand.len() - i,
    {
        if hand[i].suit == tile.suit && hand[i].value != tile.value {
            match first {
                Some(f) => {
                    return true;
                },
                None => {
                    first = Some(i);
                },
            }
        }
        i += 1;
    }
    false
}

/// Whether the tile can be called for a run.
pub fn can_chi(hand: &[MahjongTile], tile: &MahjongTile) -> (r: bool)
    ensures
        r == chi_possible(hand@, *tile),
{
    if !tile.suit.is_series() {
        return false;
    }
    if !has_two_others(hand, tile) {
        return false;
    }
    let mut v: u8 = 0;
    while v <= 253
        invariant
            v <= 254,
            tile.suit.is_series(),
            two_others(hand@, *tile),
            forall|w: int|
                0 <= w < v ==> !(#[trigger] rank_present(hand@, *tile, w) && rank_present(
                    hand@,
                    *tile,
                    w + 1,
                ) && rank_present(hand@, *tile, w + 2)),
        decreases 254 - v,
    {
        if has_rank(hand, tile, v) && has_rank(hand, tile, v + 1) && has_rank(hand, tile, v + 2) {
            assert(rank_present(hand@, *tile, v as int) && rank_present(hand@, *tile, v + 1)
                && rank_present(hand@, *tile, v + 2));
            return true;
        }
        v += 1;
    }
    false
}

} // verus!
