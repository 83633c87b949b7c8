//! Complete hands, and the tiles that a hand is waiting for.

use crate::candidates::{lemma_candidates, lemma_place, lemma_second_place};
use crate::decompose::{
    cover, decompose, has_standard_decomposition, is_standard_decomposition, lemma_cover_find,
    lemma_cover_includes, lemma_meld_bag,
};
use crate::hand::{
    ascending, bag, lemma_bag_contains, lemma_bag_len, lemma_bag_push, lemma_bag_remove,
    lemma_sorted_tiles, sort_tiles, sorted_copy, sorted_tiles,
};
use crate::melds::{
    candidate_sets, find_pairs_melds, is_meld, is_set, lemma_same_tiles_chain, same_tiles,
};
use crate::tile::{lemma_code_identity, MahjongTile};
use vstd::prelude::*;
use vstd::slice::slice_to_vec;

verus! {

/// The hand is seven pairs of seven different tiles.
pub open spec fn is_seven_pairs(hand: Seq<MahjongTile>) -> bool {
    hand.len() == 14 && forall|c: int| bag(hand).count(c) == 0 || bag(hand).count(c) == 2
}

/// Whether the hand is complete: it can be decomposed into melds with
/// exactly one pair, or it is seven pairs and holds fewer than two triplets
/// and runs.
pub open spec fn is_complete_hand(hand: Seq<MahjongTile>) -> bool {
    has_standard_decomposition(hand) || (candidate_sets(hand).len() < 2 && is_seven_pairs(hand))
}

/// A hand holds fewer than two triplets and runs exactly when all the
/// triplets and runs that its tiles can form hold the same tiles.
pub proof fn lemma_fewer_than_two_sets(hand: Seq<MahjongTile>)
    ensures
        candidate_sets(hand).len() < 2 <==> forall|a: Seq<MahjongTile>, b: Seq<MahjongTile>|
            is_set(a) && bag(a).subset_of(bag(hand)) && is_set(b) && bag(b).subset_of(bag(hand))
                ==> same_tiles(a, b),
{
    let list = candidate_sets(hand);
    lemma_candidates(hand);
    if list.len() < 2 {
        assert forall|a: Seq<MahjongTile>, b: Seq<MahjongTile>|
            is_set(a) && bag(a).subset_of(bag(hand)) && is_set(b) && bag(b).subset_of(
                bag(hand),
            ) implies same_tiles(a, b) by {
            let i = choose|i: int| 0 <= i < list.len() && same_tiles(#[trigger] list[i], a);
            let j = choose|j: int| 0 <= j < list.len() && same_tiles(#[trigger] list[j], b);
            lemma_same_tiles_chain(list[0], a, a);
            lemma_same_tiles_chain(a, list[0], b);
        }
    } else {
        let a = list[0];
        let b = list[1];
        assert(is_set(a) && bag(a).subset_of(bag(hand)));
        assert(is_set(b) && bag(b).subset_of(bag(hand)));
        assert(!same_tiles(a, b));
    }
}

/// Whether a hand is complete depends on the tiles that it holds alone, not
/// on their order nor on their bonus flags.
pub proof fn lemma_complete_of_tiles(h1: Seq<MahjongTile>, h2: Seq<MahjongTile>)
    requires
        bag(h1) == bag(h2),
    ensures
        is_complete_hand(h1) == is_complete_hand(h2),
{
    lemma_bag_len(h1);
    lemma_bag_len(h2);
    lemma_fewer_than_two_sets(h1);
    lemma_fewer_than_two_sets(h2);
    if has_standard_decomposition(h1) {
        let d = choose|d: Seq<Seq<MahjongTile>>| is_standard_decomposition(d, h1);
        assert(is_standard_decomposition(d, h2));
    }
    if has_standard_decomposition(h2) {
        let d = choose|d: Seq<Seq<MahjongTile>>| is_standard_decomposition(d, h2);
        assert(is_standard_decomposition(d, h1));
    }
}

/// A tile completes a hand whatever its bonus flag.
pub proof fn lemma_plain_completes(hand: Seq<MahjongTile>, t: MahjongTile)
    ensures
        is_complete_hand(hand.push(t)) == is_complete_hand(hand.push(t.plain())),
{
    lemma_bag_push(hand, t);
    lemma_bag_push(hand, t.plain());
    lemma_complete_of_tiles(hand.push(t), hand.push(t.plain()));
}

/// The ascending tiles are pairs of different tiles, one after the other.
pub open spec fn pairs_only(s: Seq<MahjongTile>) -> bool
    decreases s.len(),
{
    s.len() == 0 || (s.len() >= 2 && s[0].same_kind(s[1]) && (s.len() == 2 || !s[1].same_kind(
        s[2],
    )) && pairs_only(s.skip(2)))
}

/// The tiles are the first two and the others, which ascend if all do.
proof fn lemma_skip_two(s: Seq<MahjongTile>)
    requires
        s.len() >= 2,
    ensures
        bag(s) == bag(s.skip(2)).insert(s[1].code()).insert(s[0].code()),
        ascending(s) ==> ascending(s.skip(2)),
{
    broadcast use vstd::multiset::group_multiset_axioms;

    let r1 = s.remove(0);
    lemma_bag_remove(s, 0);
    lemma_bag_remove(r1, 0);
    assert(r1.remove(0) =~= s.skip(2));
    assert(r1[0] == s[1]);
    assert(bag(s) =~= bag(s.skip(2)).insert(s[1].code()).insert(s[0].code()));
    if ascending(s) {
        let r = s.skip(2);
        assert forall|a: int, b: int| 0 <= a <= b < r.len() implies r[a].code() <= r[b].code() by {
            assert(r[a] == s[a + 2]);
            assert(r[b] == s[b + 2]);
        }
    }
}

/// Ascending tiles are pairs of different tiles exactly when each tile
/// occurs twice among them.
proof fn lemma_pairs_only(s: Seq<MahjongTile>)
    requires
        ascending(s),
    ensures
        pairs_only(s) <==> forall|c: int| bag(s).count(c) == 0 || bag(s).count(c) == 2,
    decreases s.len(),
{
    broadcast use vstd::multiset::group_multiset_axioms;

    if s.len() == 0 {
        assert forall|c: int| bag(s).count(c) == 0 by {
            lemma_bag_contains(s, c);
        }
    } else if s.len() == 1 {
        lemma_bag_remove(s, 0);
        assert(bag(s).count(s[0].code()) == 1) by {
            lemma_bag_contains(s.remove(0), s[0].code());
        }
    } else {
        let c0 = s[0].code();
        let r = s.skip(2);
        lemma_skip_two(s);
        lemma_pairs_only(r);
        lemma_code_identity(s[0], s[1]);
        lemma_bag_contains(r, c0);
        if s.len() > 2 {
            lemma_code_identity(s[1], s[2]);
            assert(r[0] == s[2]);
        }
        // how often the first tile occurs behind the first two
        if s.len() > 2 && s[2].code() == c0 {
            assert(r[0].code() == c0);
            assert(bag(r).count(c0) > 0);
        } else {
            assert forall|k: int| 0 <= k < r.len() implies (#[trigger] r[k]).code() != c0 by {
                assert(r[k] == s[k + 2]);
                assert(s[2].code() <= s[k + 2].code());
            }
            assert(bag(r).count(c0) == 0);
        }
        if pairs_only(s) {
            assert forall|c: int| bag(s).count(c) == 0 || bag(s).count(c) == 2 by {
                assert(bag(r).count(c) == 0 || bag(r).count(c) == 2);
            }
        }
        if forall|c: int| bag(s).count(c) == 0 || bag(s).count(c) == 2 {
            assert(bag(s).count(c0) == 2);
            if s[1].code() != c0 {
                assert(s[1].code() > c0);
                assert(bag(s).count(s[1].code()) == 2);
                assert(false);
            }
            assert forall|c: int| bag(r).count(c) == 0 || bag(r).count(c) == 2 by {
                assert(bag(s).count(c) == 0 || bag(s).count(c) == 2);
            }
        }
    }
}

/// Whether the ascending tiles are pairs of different tiles.
fn check_pairs_only(s: &Vec<MahjongTile>) -> (r: bool)
    ensures
        r == pairs_only(s@),
{
    let mut i: usize = 0;
    assert(s@.skip(0) =~= s@);
    while i < s.len()
        invariant
            i <= s.len(),
            pairs_only(s@) == pairs_only(s@.skip(i as int)),
        decreases s.len() - i,
    {
        let ghost r = s@.skip(i as int);
        assert(r[0] == s@[i as int]);
        if s.len() - i < 2 {
            return false;
        }
        assert(r[1] == s@[i + 1]);
        if s[i] != s[i + 1] {
            return false;
        }
        if s.len() - i > 2 {
            assert(r[2] == s@[i + 2]);
            if s[i + 1] == s[i + 2] {
                return false;
            }
        }
        assert(r.skip(2) =~= s@.skip(i + 2));
        i += 2;
    }
    assert(s@.skip(i as int).len() == 0);
    true
}

/// Whether the hand is complete.
pub fn is_complete(hand: &[MahjongTile]) -> (r: bool)
    ensures
        r == is_complete_hand(hand@),
{
    let all = decompose(hand);
    if all.len() > 0 {
        return true;
    }
    if hand.len() != 14 {
        return false;
    }
    let (sets, _) = find_pairs_melds(hand);
    assert(sets.deep_view().len() == sets.len());
    if sets.len() >= 2 {
        return false;
    }
    let sorted = sorted_copy(hand);
    proof {
        lemma_pairs_only(sorted@);
    }
    check_pairs_only(&sorted)
}


/// The tile one rank below, where the suit is a series and that rank exists.
pub open spec fn lower_neighbor(t: MahjongTile) -> Option<MahjongTile> {
    if t.suit.is_series() && 2 <= t.value <= 10 {
        Some(MahjongTile { suit: t.suit, value: (t.value - 1) as u8, is_dora: false })
    } else {
        None
    }
}

/// The tile one rank above, where the suit is a series and that rank exists.
pub open spec fn upper_neighbor(t: MahjongTile) -> Option<MahjongTile> {
    if t.suit.is_series() && t.value <= 8 {
        Some(MahjongTile { suit: t.suit, value: (t.value + 1) as u8, is_dora: false })
    } else {
        None
    }
}

/// Whether the list holds a tile of the kind of `t`.
pub open spec fn holds_kind(list: Seq<MahjongTile>, t: MahjongTile) -> bool {
    exists|i: int| 0 <= i < list.len() && (#[trigger] list[i]).same_kind(t)
}

/// The list with `t` behind it, unless it holds a tile of that kind.
pub open spec fn add_kind(list: Seq<MahjongTile>, t: MahjongTile) -> Seq<MahjongTile> {
    if holds_kind(list, t) {
        list
    } else {
        list.push(t)
    }
}

/// The list with the tile behind it, where there is one and the list does
/// not hold its kind.
pub open spec fn add_neighbor(list: Seq<MahjongTile>, t: Option<MahjongTile>) -> Seq<MahjongTile> {
    match t {
        Some(n) => add_kind(list, n),
        None => list,
    }
}

/// The tiles to try as the fourteenth: for each tile of the hand, in the
/// order of the hand, its lower neighbor, its upper neighbor and the tile
/// itself, each kind once.
pub open spec fn probes(hand: Seq<MahjongTile>) -> Seq<MahjongTile>
    decreases hand.len(),
{
    if hand.len() == 0 {
        hand
    } else {
        let t = hand.last();
        add_kind(
            add_neighbor(add_neighbor(probes(hand.drop_last()), lower_neighbor(t)), upper_neighbor(t)),
            t.plain(),
        )
    }
}

/// Whether a tile of the hand has the kind of `t` or has `t` as a neighbor.
pub open spec fn reachable(hand: Seq<MahjongTile>, t: MahjongTile) -> bool {
    exists|k: int|
        0 <= k < hand.len() && ((#[trigger] hand[k]).same_kind(t) || lower_neighbor(hand[k])
            == Some(t.plain()) || upper_neighbor(hand[k]) == Some(t.plain()))
}

/// Those of `cands` that complete the hand, in their order.
pub open spec fn waits_in(hand: Seq<MahjongTile>, cands: Seq<MahjongTile>) -> Seq<MahjongTile>
    decreases cands.len(),
{
    if cands.len() == 0 {
        cands
    } else if is_complete_hand(hand.push(cands.last())) {
        waits_in(hand, cands.drop_last()).push(cands.last())
    } else {
        waits_in(hand, cands.drop_last())
    }
}

/// The kinds that a list holds after a tile was added by kind.
proof fn lemma_add_kind(list: Seq<MahjongTile>, t: MahjongTile, x: MahjongTile)
    ensures
        holds_kind(add_kind(list, t), x) <==> holds_kind(list, x) || t.same_kind(x),
{
    let r = add_kind(list, t);
    if holds_kind(r, x) {
        let i = choose|i: int| 0 <= i < r.len() && (#[trigger] r[i]).same_kind(x);
        if i < list.len() {
            assert(list[i].same_kind(x));
        }
    }
    if holds_kind(list, x) {
        let i = choose|i: int| 0 <= i < list.len() && (#[trigger] list[i]).same_kind(x);
        assert(r[i].same_kind(x));
    }
    if t.same_kind(x) {
        if holds_kind(list, t) {
            let i = choose|i: int| 0 <= i < list.len() && (#[trigger] list[i]).same_kind(t);
            assert(r[i].same_kind(x));
        } else {
            assert(r[list.len() as int].same_kind(x));
        }
    }
}

/// No kind stands twice in a list to which tiles were added by kind.
pub open spec fn distinct_kinds(list: Seq<MahjongTile>) -> bool {
    forall|i: int, j: int|
        0 <= i < j < list.len() ==> !(#[trigger] list[i]).same_kind(#[trigger] list[j])
}

/// No tile of the list carries the bonus flag.
pub open spec fn all_plain(list: Seq<MahjongTile>) -> bool {
    forall|i: int| 0 <= i < list.len() ==> !(#[trigger] list[i]).is_dora
}

/// Adding by kind keeps the kinds distinct and the tiles plain.
proof fn lemma_add_kind_keeps(list: Seq<MahjongTile>, t: MahjongTile)
    requires
        distinct_kinds(list),
        all_plain(list),
        !t.is_dora,
    ensures
        distinct_kinds(add_kind(list, t)),
        all_plain(add_kind(list, t)),
{
    let r = add_kind(list, t);
    if !holds_kind(list, t) {
        assert forall|i: int, j: int| 0 <= i < j < r.len() implies !(#[trigger] r[i]).same_kind(
            #[trigger] r[j],
        ) by {
            if j == list.len() {
                assert(r[i] == list[i]);
                if list[i].same_kind(t) {
                    assert(holds_kind(list, t));
                }
            }
        }
    }
}

/// The tiles to try hold each kind once, carry no bonus flag, and are the
/// kinds of the tiles of the hand and of their neighbors.
pub proof fn lemma_probes(hand: Seq<MahjongTile>)
    ensures
        distinct_kinds(probes(hand)),
        all_plain(probes(hand)),
        forall|t: MahjongTile| holds_kind(probes(hand), t) <==> reachable(hand, t),
    decreases hand.len(),
{
    if hand.len() == 0 {
    } else {
        let t = hand.last();
        let before = probes(hand.drop_last());
        let below = add_neighbor(before, lower_neighbor(t));
        let beside = add_neighbor(below, upper_neighbor(t));
        let after = add_kind(beside, t.plain());
        lemma_probes(hand.drop_last());
        if lower_neighbor(t) is Some {
            lemma_add_kind_keeps(before, lower_neighbor(t).unwrap());
        }
        if upper_neighbor(t) is Some {
            lemma_add_kind_keeps(below, upper_neighbor(t).unwrap());
        }
        lemma_add_kind_keeps(beside, t.plain());
        assert forall|x: MahjongTile| holds_kind(probes(hand), x) <==> reachable(hand, x) by {
            if lower_neighbor(t) is Some {
                lemma_add_kind(before, lower_neighbor(t).unwrap(), x);
            }
            if upper_neighbor(t) is Some {
                lemma_add_kind(below, upper_neighbor(t).unwrap(), x);
            }
            lemma_add_kind(beside, t.plain(), x);
            let last = hand.len() - 1;
            let here = t.same_kind(x) || lower_neighbor(t) == Some(x.plain()) || upper_neighbor(t)
                == Some(x.plain());
            assert(holds_kind(after, x) <==> holds_kind(before, x) || here);
            if reachable(hand, x) {
                let k = choose|k: int|
                    0 <= k < hand.len() && ((#[trigger] hand[k]).same_kind(x) || lower_neighbor(
                        hand[k],
                    ) == Some(x.plain()) || upper_neighbor(hand[k]) == Some(x.plain()));
                if k < last {
                    assert(hand.drop_last()[k] == hand[k]);
                    assert(reachable(hand.drop_last(), x));
                }
            }
            if reachable(hand.drop_last(), x) {
                let k = choose|k: int|
                    0 <= k < hand.drop_last().len() && ((#[trigger] hand.drop_last()[k]).same_kind(
                        x,
                    ) || lower_neighbor(hand.drop_last()[k]) == Some(x.plain()) || upper_neighbor(
                        hand.drop_last()[k],
                    ) == Some(x.plain()));
                assert(hand[k] == hand.drop_last()[k]);
            }
            if here {
                assert(hand[last] == t);
            }
        }
    }
}

/// A tile is kept exactly when it stands among the candidates and completes
/// the hand.
proof fn lemma_waits_member(hand: Seq<MahjongTile>, cands: Seq<MahjongTile>, x: MahjongTile)
    ensures
        waits_in(hand, cands).contains(x) <==> cands.contains(x) && is_complete_hand(hand.push(x)),
    decreases cands.len(),
{
    if cands.len() > 0 {
        let c0 = cands.drop_last();
        let w0 = waits_in(hand, c0);
        let w = waits_in(hand, cands);
        let last = cands.last();
        lemma_waits_member(hand, c0, x);
        if w.contains(x) {
            let i = choose|i: int| 0 <= i < w.len() && w[i] == x;
            if i < w0.len() {
                assert(w0[i] == x);
                assert(w0.contains(x));
                assert(c0.contains(x));
                let k = choose|k: int| 0 <= k < c0.len() && c0[k] == x;
                assert(cands[k] == x);
            } else {
                assert(cands[cands.len() - 1] == x);
            }
        }
        if cands.contains(x) && is_complete_hand(hand.push(x)) {
            let k = choose|k: int| 0 <= k < cands.len() && cands[k] == x;
            if k < cands.len() - 1 {
                assert(c0[k] == x);
                assert(c0.contains(x));
                assert(w0.contains(x));
                let i = choose|i: int| 0 <= i < w0.len() && w0[i] == x;
                assert(w[i] == x);
            } else {
                assert(w[w.len() - 1] == x);
            }
        }
    }
}

/// What `waits_in` keeps.
pub proof fn lemma_waits_in(hand: Seq<MahjongTile>, cands: Seq<MahjongTile>)
    ensures
        forall|x: MahjongTile|
            #![trigger waits_in(hand, cands).contains(x)]
            waits_in(hand, cands).contains(x) <==> cands.contains(x) && is_complete_hand(
                hand.push(x),
            ),
        distinct_kinds(cands) ==> distinct_kinds(waits_in(hand, cands)),
        waits_in(hand, cands).len() <= cands.len(),
    decreases cands.len(),
{
    assert forall|x: MahjongTile|
        #![trigger waits_in(hand, cands).contains(x)]
        waits_in(hand, cands).contains(x) <==> cands.contains(x) && is_complete_hand(
            hand.push(x),
        ) by {
        lemma_waits_member(hand, cands, x);
    }
    if cands.len() > 0 {
        let c0 = cands.drop_last();
        let w0 = waits_in(hand, c0);
        let w = waits_in(hand, cands);
        lemma_waits_in(hand, c0);
        if distinct_kinds(cands) {
            assert forall|i: int, j: int| 0 <= i < j < c0.len() implies !(#[trigger] c0[i]).same_kind(
                #[trigger] c0[j],
            ) by {
                assert(c0[i] == cands[i]);
                assert(c0[j] == cands[j]);
            }
            assert forall|i: int, j: int| 0 <= i < j < w.len() implies !(#[trigger] w[i]).same_kind(
                #[trigger] w[j],
            ) by {
                if j == w0.len() {
                    assert(w[i] == w0[i]);
                    assert(w0.contains(w0[i]));
                    lemma_waits_member(hand, c0, w0[i]);
                    let k = choose|k: int| 0 <= k < c0.len() && c0[k] == w0[i];
                    assert(cands[k] == w0[i]);
                    assert(cands[cands.len() - 1] == w[j]);
                }
            }
        }
    }
}

/// A tile of the hand of the kind of `t`, or next to it, makes `t` reachable.
proof fn lemma_reach(hand: Seq<MahjongTile>, t: MahjongTile, k: int)
    requires
        t.well_formed(),
        0 <= k < hand.len(),
        hand[k].same_kind(t) || (t.suit.is_series() && hand[k].suit == t.suit && (hand[k].value
            == t.value + 1 || hand[k].value + 1 == t.value)),
    ensures
        reachable(hand, t),
{
    if hand[k].same_kind(t) {
    } else if hand[k].value == t.value + 1 {
        assert(lower_neighbor(hand[k]) == Some(t.plain()));
    } else {
        assert(upper_neighbor(hand[k]) == Some(t.plain()));
    }
}

/// How often the tiles of a meld occur in it.
proof fn lemma_meld_counts(m: Seq<MahjongTile>, p: int, q: int)
    requires
        is_meld(m),
        0 <= p < m.len(),
        0 <= q < m.len(),
        p != q,
    ensures
        bag(m).count(m[q].code()) >= 1,
        m[q].code() == m[p].code() ==> bag(m).count(m[p].code()) >= 2,
{
    broadcast use vstd::multiset::group_multiset_axioms;

    lemma_meld_bag(m);
}

/// A tile that stands in a meld of the hand with it added is reachable.
proof fn lemma_partner(hand: Seq<MahjongTile>, t: MahjongTile, m: Seq<MahjongTile>, p: int)
    requires
        t.well_formed(),
        is_meld(m),
        0 <= p < m.len(),
        m[p].code() == t.code(),
        bag(m).subset_of(bag(hand.push(t))),
    ensures
        reachable(hand, t),
{
    let c = t.code();
    let q = if p == 1 { 0int } else { 1int };
    let o = m[q];
    lemma_meld_counts(m, p, q);
    lemma_bag_push(hand, t);
    assert(bag(hand).count(o.code()) >= 1) by {
        broadcast use vstd::multiset::group_multiset_axioms;

    }
    let k = lemma_place(hand, o.code());
    lemma_code_identity(hand[k], o);
    lemma_code_identity(m[p], t);
    lemma_code_identity(m[0], m[1]);
    if m.len() == 3 {
        lemma_code_identity(m[0], m[2]);
    }
    lemma_reach(hand, t, k);
}

/// A tile that completes the hand has the kind of a tile of the hand or is
/// the neighbor of one.
pub proof fn lemma_completing_tile_reachable(hand: Seq<MahjongTile>, t: MahjongTile)
    requires
        t.well_formed(),
        is_complete_hand(hand.push(t)),
    ensures
        reachable(hand, t),
{
    let c = t.code();
    let full = hand.push(t);
    lemma_bag_push(hand, t);
    if has_standard_decomposition(full) {
        let d = choose|d: Seq<Seq<MahjongTile>>| is_standard_decomposition(d, full);
        assert(cover(d).count(c) > 0) by {
            broadcast use vstd::multiset::group_multiset_axioms;

        }
        let at = lemma_cover_find(d, c);
        assert(is_meld(d[at.0]));
        lemma_cover_includes(d, at.0);
        lemma_partner(hand, t, d[at.0], at.1);
    } else {
        assert(bag(full).count(c) == 0 || bag(full).count(c) == 2);
        assert(bag(hand).count(c) == 1) by {
            broadcast use vstd::multiset::group_multiset_axioms;

        }
        let k = lemma_place(hand, c);
        lemma_code_identity(hand[k], t);
        lemma_reach(hand, t, k);
    }
}

/// Whether the list holds a tile of the kind of `t`.
pub fn contains_kind(list: &Vec<MahjongTile>, t: &MahjongTile) -> (r: bool)
    ensures
        r == holds_kind(list@, *t),
{
    let mut i: usize = 0;
    while i < list.len()
        invariant
            i <= list.len(),
            forall|k: int| 0 <= k < i ==> !(#[trigger] list@[k]).same_kind(*t),
        decreases list.len() - i,
    {
        if list[i] == *t {
            return true;
        }
        i += 1;
    }
    false
}

/// Puts the tile behind the list, unless the list holds a tile of that kind.
fn push_kind(list: &mut Vec<MahjongTile>, t: MahjongTile)
    ensures
        final(list)@ == add_kind(old(list)@, t),
{
    if !contains_kind(list, &t) {
        list.push(t);
    }
}

/// The tiles to try as the fourteenth tile of the hand: the kinds of its
/// tiles and of their neighbors, each once and without the bonus flag. No
/// neighbor lies outside the ranks of its suit.
pub fn wait_candidates(hand: &[MahjongTile]) -> (out: Vec<MahjongTile>)
    ensures
        out@ == probes(hand@),
        distinct_kinds(out@),
        all_plain(out@),
        forall|t: MahjongTile| holds_kind(out@, t) <==> reachable(hand@, t),
{
    let mut out: Vec<MahjongTile> = Vec::new();
    let mut n: usize = 0;
    while n < hand.len()
        invariant
            n <= hand.len(),
            out@ == probes(hand@.take(n as int)),
        decreases hand.len() - n,
    {
        let t = hand[n];
        proof {
            assert(hand@.take(n + 1).drop_last() =~= hand@.take(n as int));
            assert(hand@.take(n + 1).last() == t);
        }
        if t.suit.is_series() {
            if 2 <= t.value && t.value <= 10 {
                push_kind(&mut out, MahjongTile { suit: t.suit, value: t.value - 1, is_dora: false });
            }
            if t.value <= 8 {
                push_kind(&mut out, MahjongTile { suit: t.suit, value: t.value + 1, is_dora: false });
            }
        }
        push_kind(&mut out, t.plain());
        n += 1;
    }
    proof {
        assert(hand@.take(n as int) =~= hand@);
        lemma_probes(hand@);
    }
    out
}

/// The tiles that complete the hand, in the order in which the hand leads
/// to them, and whether there is any.
///
/// Each tile of the result completes the hand, and each tile with a rank of
/// its suit that completes the hand is in the result, without the bonus
/// flag.
pub fn find_wait(hand: &[MahjongTile]) -> (res: (bool, Vec<MahjongTile>))
    ensures
        res.1@ == waits_in(hand@, probes(hand@)),
        res.0 == (res.1.len() > 0),
        distinct_kinds(res.1@),
        forall|i: int| 0 <= i < res.1.len() ==> is_complete_hand(hand@.push(#[trigger] res.1@[i])),
        forall|t: MahjongTile|
            t.well_formed() && is_complete_hand(hand@.push(t)) ==> res.1@.contains(t.plain()),
{
    let cands = wait_candidates(hand);
    let mut waits: Vec<MahjongTile> = Vec::new();
    let mut n: usize = 0;
    while n < cands.len()
        invariant
            n <= cands.len(),
            waits@ == waits_in(hand@, cands@.take(n as int)),
        decreases cands.len() - n,
    {
        let c = cands[n];
        proof {
            assert(cands@.take(n + 1).drop_last() =~= cands@.take(n as int));
            assert(cands@.take(n + 1).last() == c);
        }
        let mut probe = slice_to_vec(hand);
        probe.push(c);
        if is_complete(probe.as_slice()) {
            waits.push(c);
        }
        n += 1;
    }
    proof {
        assert(cands@.take(n as int) =~= cands@);
        lemma_waits_in(hand@, cands@);
        assert forall|i: int| 0 <= i < waits.len() implies is_complete_hand(
            hand@.push(#[trigger] waits@[i]),
        ) by {
            assert(waits@.contains(waits@[i]));
            lemma_waits_member(hand@, cands@, waits@[i]);
        }
        assert forall|t: MahjongTile|
            t.well_formed() && is_complete_hand(hand@.push(t)) implies waits@.contains(
            t.plain(),
        ) by {
            lemma_plain_completes(hand@, t);
            lemma_plain_member(hand@, cands@, t.plain());
            lemma_waits_member(hand@, cands@, t.plain());
        }
    }
    (waits.len() > 0, waits)
}

/// A tile without the bonus flag that completes the hand stands among the
/// tiles to try.
proof fn lemma_plain_member(hand: Seq<MahjongTile>, cands: Seq<MahjongTile>, t: MahjongTile)
    requires
        all_plain(cands),
        forall|x: MahjongTile| holds_kind(cands, x) <==> reachable(hand, x),
        t.well_formed(),
        !t.is_dora,
        is_complete_hand(hand.push(t)),
    ensures
        cands.contains(t),
{
    lemma_completing_tile_reachable(hand, t);
    assert(holds_kind(cands, t));
    let i = choose|i: int| 0 <= i < cands.len() && (#[trigger] cands[i]).same_kind(t);
    assert(!cands[i].is_dora);
    assert(cands[i] == t);
}

/// Tiles of distinct kinds are tiles of which no kind occurs twice.
proof fn lemma_distinct_kinds(s: Seq<MahjongTile>)
    ensures
        distinct_kinds(s) <==> forall|c: int| bag(s).count(c) <= 1,
{
    broadcast use vstd::multiset::group_multiset_axioms;

    if distinct_kinds(s) {
        assert forall|c: int| bag(s).count(c) <= 1 by {
            if bag(s).count(c) >= 2 {
                let i = lemma_place(s, c);
                let j = lemma_second_place(s, c, i);
                lemma_code_identity(s[i], s[j]);
                if i < j {
                    assert(s[i].same_kind(s[j]));
                } else {
                    assert(s[j].same_kind(s[i]));
                }
            }
        }
    }
    if forall|c: int| bag(s).count(c) <= 1 {
        assert forall|i: int, j: int| 0 <= i < j < s.len() implies !(#[trigger] s[i]).same_kind(
            #[trigger] s[j],
        ) by {
            if s[i].same_kind(s[j]) {
                let c = s[i].code();
                lemma_code_identity(s[i], s[j]);
                lemma_bag_remove(s, j);
                let r = s.remove(j);
                assert(r[i] == s[i]);
                lemma_bag_remove(r, i);
                assert(bag(s).count(c) >= 2);
            }
        }
    }
}

/// The tiles that complete the hand, ascending and each kind once, and
/// whether there is any.
///
/// Each tile of the result completes the hand, and each tile with a rank of
/// its suit that completes the hand is in the result, without the bonus
/// flag.
pub fn check_tenpai(hand: &[MahjongTile]) -> (res: (bool, Vec<MahjongTile>))
    ensures
        res.1@ == sorted_tiles(waits_in(hand@, probes(hand@))),
        res.0 == (res.1.len() > 0),
        ascending(res.1@),
        distinct_kinds(res.1@),
        forall|i: int| 0 <= i < res.1.len() ==> is_complete_hand(hand@.push(#[trigger] res.1@[i])),
        forall|t: MahjongTile|
            t.well_formed() && is_complete_hand(hand@.push(t)) ==> res.1@.contains(t.plain()),
{
    let (is_tenpai, mut waits) = find_wait(hand);
    let ghost found = waits@;
    sort_tiles(&mut waits);
    proof {
        broadcast use vstd::seq_lib::group_to_multiset_ensures;

        lemma_sorted_tiles(found);
        lemma_distinct_kinds(found);
        lemma_distinct_kinds(waits@);
        assert forall|i: int| 0 <= i < waits.len() implies is_complete_hand(
            hand@.push(#[trigger] waits@[i]),
        ) by {
            assert(waits@.contains(waits@[i]));
            assert(waits@.to_multiset().count(waits@[i]) > 0);
            assert(found.to_multiset().count(waits@[i]) > 0);
            assert(found.contains(waits@[i]));
            let k = choose|k: int| 0 <= k < found.len() && found[k] == waits@[i];
            assert(is_complete_hand(hand@.push(found[k])));
        }
        assert forall|t: MahjongTile|
            t.well_formed() && is_complete_hand(hand@.push(t)) implies waits@.contains(
            t.plain(),
        ) by {
            assert(found.contains(t.plain()));
            assert(found.to_multiset().count(t.plain()) > 0);
        }
    }
    (is_tenpai, waits)
}


/// Which tiles are reachable depends on the tiles of the hand alone.
proof fn lemma_reachable_of_tiles(h1: Seq<MahjongTile>, h2: Seq<MahjongTile>, x: MahjongTile)
    requires
        bag(h1) == bag(h2),
        reachable(h1, x),
    ensures
        reachable(h2, x),
{
    let k = choose|k: int|
        0 <= k < h1.len() && ((#[trigger] h1[k]).same_kind(x) || lower_neighbor(h1[k]) == Some(
            x.plain(),
        ) || upper_neighbor(h1[k]) == Some(x.plain()));
    let c = h1[k].code();
    lemma_bag_contains(h1, c);
    let j = lemma_place(h2, c);
    lemma_code_identity(h1[k], h2[j]);
    assert(h2[j].same_kind(x) || lower_neighbor(h2[j]) == Some(x.plain()) || upper_neighbor(h2[j])
        == Some(x.plain()));
}

/// Ascending lists of tiles without the bonus flag, each kind once, that
/// hold the same tiles are the same list.
proof fn lemma_ascending_unique(a: Seq<MahjongTile>, b: Seq<MahjongTile>)
    requires
        ascending(a),
        ascending(b),
        distinct_kinds(a),
        distinct_kinds(b),
        all_plain(a),
        all_plain(b),
        forall|x: MahjongTile| a.contains(x) <==> b.contains(x),
    ensures
        a == b,
    decreases a.len(),
{
    if a.len() == 0 {
        if b.len() > 0 {
            assert(b.contains(b[0]));
        }
        assert(a =~= b);
    } else {
        assert(a.contains(a[0]));
        assert(b.contains(a[0]));
        let j = choose|j: int| 0 <= j < b.len() && b[j] == a[0];
        assert(b.contains(b[0]));
        assert(a.contains(b[0]));
        let i = choose|i: int| 0 <= i < a.len() && a[i] == b[0];
        assert(a[0].code() <= a[i].code());
        assert(b[0].code() <= b[j].code());
        lemma_code_identity(a[0], b[0]);
        assert(a[0] == b[0]);
        let x = a.drop_first();
        let y = b.drop_first();
        assert forall|p: int, q: int| 0 <= p <= q < x.len() implies x[p].code() <= x[q].code() by {
            assert(x[p] == a[p + 1]);
            assert(x[q] == a[q + 1]);
        }
        assert forall|p: int, q: int| 0 <= p <= q < y.len() implies y[p].code() <= y[q].code() by {
            assert(y[p] == b[p + 1]);
            assert(y[q] == b[q + 1]);
        }
        assert forall|p: int, q: int| 0 <= p < q < x.len() implies !(#[trigger] x[p]).same_kind(
            #[trigger] x[q],
        ) by {
            assert(x[p] == a[p + 1]);
            assert(x[q] == a[q + 1]);
        }
        assert forall|p: int, q: int| 0 <= p < q < y.len() implies !(#[trigger] y[p]).same_kind(
            #[trigger] y[q],
        ) by {
            assert(y[p] == b[p + 1]);
            assert(y[q] == b[q + 1]);
        }
        assert forall|p: int| 0 <= p < x.len() implies !(#[trigger] x[p]).is_dora by {
            assert(x[p] == a[p + 1]);
        }
        assert forall|p: int| 0 <= p < y.len() implies !(#[trigger] y[p]).is_dora by {
            assert(y[p] == b[p + 1]);
        }
        assert forall|t: MahjongTile| x.contains(t) <==> y.contains(t) by {
            if x.contains(t) {
                let p = choose|p: int| 0 <= p < x.len() && x[p] == t;
                assert(a[p + 1] == t);
                assert(a.contains(t));
                assert(!a[0].same_kind(a[p + 1]));
                let q = choose|q: int| 0 <= q < b.len() && b[q] == t;
                assert(y[q - 1] == t);
            }
            if y.contains(t) {
                let q = choose|q: int| 0 <= q < y.len() && y[q] == t;
                assert(b[q + 1] == t);
                assert(b.contains(t));
                assert(!b[0].same_kind(b[q + 1]));
                let p = choose|p: int| 0 <= p < a.len() && a[p] == t;
                assert(x[p - 1] == t);
            }
        }
        lemma_ascending_unique(x, y);
        assert(a =~= seq![a[0]] + x);
        assert(b =~= seq![b[0]] + y);
    }
}

/// A list holds a plain tile exactly when it holds its kind, where the
/// list is plain.
proof fn lemma_plain_contains(list: Seq<MahjongTile>, x: MahjongTile)
    requires
        all_plain(list),
        !x.is_dora,
    ensures
        list.contains(x) <==> holds_kind(list, x),
{
    if holds_kind(list, x) {
        let i = choose|i: int| 0 <= i < list.len() && (#[trigger] list[i]).same_kind(x);
        assert(!list[i].is_dora);
        assert(list[i] == x);
    }
    if list.contains(x) {
        let i = choose|i: int| 0 <= i < list.len() && list[i] == x;
        assert(list[i].same_kind(x));
    }
}

/// The sorted waiting tiles depend on the tiles of the hand alone, not on
/// their order nor on their bonus flags.
pub proof fn lemma_waits_of_tiles(h1: Seq<MahjongTile>, h2: Seq<MahjongTile>)
    requires
        bag(h1) == bag(h2),
    ensures
        sorted_tiles(waits_in(h1, probes(h1))) == sorted_tiles(waits_in(h2, probes(h2))),
{
    broadcast use vstd::seq_lib::group_to_multiset_ensures;

    let w1 = waits_in(h1, probes(h1));
    let w2 = waits_in(h2, probes(h2));
    let a = sorted_tiles(w1);
    let b = sorted_tiles(w2);
    lemma_probes(h1);
    lemma_probes(h2);
    lemma_waits_in(h1, probes(h1));
    lemma_waits_in(h2, probes(h2));
    lemma_sorted_tiles(w1);
    lemma_sorted_tiles(w2);
    lemma_distinct_kinds(w1);
    lemma_distinct_kinds(w2);
    lemma_distinct_kinds(a);
    lemma_distinct_kinds(b);
    assert forall|x: MahjongTile| w1.contains(x) implies !x.is_dora && w2.contains(x) by {
        lemma_waits_side(h1, h2, x);
    }
    assert forall|x: MahjongTile| w2.contains(x) implies !x.is_dora && w1.contains(x) by {
        lemma_waits_side(h2, h1, x);
    }
    assert forall|x: MahjongTile| a.contains(x) <==> b.contains(x) by {
        assert(a.contains(x) <==> a.to_multiset().count(x) > 0);
        assert(b.contains(x) <==> b.to_multiset().count(x) > 0);
        assert(w1.contains(x) <==> w1.to_multiset().count(x) > 0);
        assert(w2.contains(x) <==> w2.to_multiset().count(x) > 0);
    }
    assert forall|i: int| 0 <= i < a.len() implies !(#[trigger] a[i]).is_dora by {
        assert(a.contains(a[i]));
        assert(a.to_multiset().count(a[i]) > 0);
        assert(w1.contains(a[i]));
    }
    assert forall|i: int| 0 <= i < b.len() implies !(#[trigger] b[i]).is_dora by {
        assert(b.contains(b[i]));
        assert(b.to_multiset().count(b[i]) > 0);
        assert(w2.contains(b[i]));
    }
    lemma_ascending_unique(a, b);
}

/// A waiting tile of a hand is a waiting tile of each hand of the same
/// tiles.
proof fn lemma_waits_side(h1: Seq<MahjongTile>, h2: Seq<MahjongTile>, x: MahjongTile)
    requires
        bag(h1) == bag(h2),
        waits_in(h1, probes(h1)).contains(x),
    ensures
        !x.is_dora,
        waits_in(h2, probes(h2)).contains(x),
{
    lemma_probes(h1);
    lemma_probes(h2);
    lemma_waits_member(h1, probes(h1), x);
    lemma_waits_member(h2, probes(h2), x);
    let i = choose|i: int| 0 <= i < probes(h1).len() && probes(h1)[i] == x;
    assert(!probes(h1)[i].is_dora);
    lemma_plain_contains(probes(h1), x);
    lemma_plain_contains(probes(h2), x);
    lemma_reachable_of_tiles(h1, h2, x);
    lemma_bag_push(h1, x);
    lemma_bag_push(h2, x);
    lemma_complete_of_tiles(h1.push(x), h2.push(x));
}

} // verus!
