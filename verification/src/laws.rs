//! Laws of the hand analysis, each proved from the definitions.

use crate::calls::{holds_all, lemma_covers, lemma_holds_all_of_tiles};
use crate::candidates::{ascends_within, lemma_candidates, taken};
use crate::complete::{
    holds_kind, is_complete_hand, is_seven_pairs, lemma_complete_of_tiles,
    lemma_completing_tile_reachable, lemma_fewer_than_two_sets, lemma_plain_completes,
    lemma_probes, lemma_waits_in, lemma_waits_of_tiles, lower_neighbor, probes, reachable,
    upper_neighbor, waits_in,
};
use crate::decompose::{
    all_melds, decomposition_lt, has_standard_decomposition, is_canonical,
    is_standard_decomposition, is_unique_meld_set, lemma_has_canonical, lemma_meld_codes,
    lemma_unique_meld_set, meld_rank, pair_count, same_melds,
};
use crate::hand::{
    ascending, bag, lemma_bag_len, lemma_sorted_tiles, lemma_sorted_tiles_of_ascending,
    lemma_sorting_is_stable, of_kind, sorted_tiles,
};
use crate::melds::{
    candidate_pairs, candidate_sets, is_meld, is_pair, is_set, listed, picks, same_tiles,
};
use crate::order::{
    lemma_candidates_ranked, lemma_place_ascends, lemma_place_of, lemma_places_of_pick, place_of,
    places_lt, ranked,
};
use crate::tile::MahjongTile;
use vstd::prelude::*;

verus! {

/// A decomposition covers the hand exactly: its melds hold as many tiles as
/// the hand, and each kind of tile as often as the hand holds it.
pub proof fn law_round_trip_cover(d: Seq<Seq<MahjongTile>>, hand: Seq<MahjongTile>)
    requires
        is_standard_decomposition(d, hand),
    ensures
        d.flatten().len() == hand.len(),
        forall|c: int| bag(d.flatten()).count(c) == bag(hand).count(c),
{
    lemma_bag_len(d.flatten());
    lemma_bag_len(hand);
}

/// A hand is complete exactly when it has a decomposition with one pair
/// whose melds stand in ascending order, or is seven pairs with fewer than
/// two triplets and runs in it.
pub proof fn law_complete_iff_decomposable(hand: Seq<MahjongTile>)
    ensures
        is_complete_hand(hand) <==> (exists|d: Seq<Seq<MahjongTile>>|
            is_standard_decomposition(d, hand) && is_canonical(d)) || (candidate_sets(hand).len()
            < 2 && is_seven_pairs(hand)),
{
    if has_standard_decomposition(hand) {
        let c = lemma_has_canonical(hand);
        assert(is_standard_decomposition(c, hand) && is_canonical(c));
    }
}

/// The waiting tiles are the tiles that complete the hand: each tile that
/// is found completes it, and each tile with a rank of its suit that
/// completes it is found, without the bonus flag.
pub proof fn law_waiting_tile_symmetry(hand: Seq<MahjongTile>, t: MahjongTile)
    ensures
        waits_in(hand, probes(hand)).contains(t) ==> is_complete_hand(hand.push(t)),
        t.well_formed() && is_complete_hand(hand.push(t)) ==> waits_in(
            hand,
            probes(hand),
        ).contains(t.plain()),
{
    lemma_waits_in(hand, probes(hand));
    lemma_probes(hand);
    if t.well_formed() && is_complete_hand(hand.push(t)) {
        let x = t.plain();
        lemma_plain_completes(hand, t);
        lemma_completing_tile_reachable(hand, x);
        assert(holds_kind(probes(hand), x));
        let i = choose|i: int| 0 <= i < probes(hand).len() && (#[trigger] probes(hand)[i]).same_kind(x);
        assert(!probes(hand)[i].is_dora);
        assert(probes(hand)[i] == x);
        assert(probes(hand).contains(x));
    }
}

/// No neighbor outside the ranks of its suit is tried as a waiting tile:
/// nothing is tried below rank 1 nor above rank 9, but a tile of the hand
/// itself. So of a hand whose tiles lie within the ranks of their suits
/// every tile that is tried does.
pub proof fn law_boundary_exclusion(hand: Seq<MahjongTile>)
    ensures
        forall|i: int|
            0 <= i < probes(hand).len() ==> (#[trigger] probes(hand)[i]).well_formed()
                || holds_kind(hand, probes(hand)[i]),
        (forall|k: int| 0 <= k < hand.len() ==> (#[trigger] hand[k]).well_formed()) ==> (forall|i: int|
            0 <= i < probes(hand).len() ==> (#[trigger] probes(hand)[i]).well_formed()),
{
    lemma_probes(hand);
    let p = probes(hand);
    assert forall|i: int| 0 <= i < p.len() implies (#[trigger] p[i]).well_formed() || holds_kind(
        hand,
        p[i],
    ) by {
        let x = p[i];
        assert(p[i].same_kind(x));
        assert(holds_kind(p, x));
        assert(reachable(hand, x));
        let k = choose|k: int|
            0 <= k < hand.len() && ((#[trigger] hand[k]).same_kind(x) || lower_neighbor(hand[k])
                == Some(x.plain()) || upper_neighbor(hand[k]) == Some(x.plain()));
        if hand[k].same_kind(x) {
            assert(holds_kind(hand, x));
        }
    }
    if forall|k: int| 0 <= k < hand.len() ==> (#[trigger] hand[k]).well_formed() {
        assert forall|i: int| 0 <= i < p.len() implies (#[trigger] p[i]).well_formed() by {
            if holds_kind(hand, p[i]) {
                let k = choose|k: int| 0 <= k < hand.len() && (#[trigger] hand[k]).same_kind(p[i]);
                assert(hand[k].well_formed());
            }
        }
    }
}

/// The canonical decomposition depends on the tiles of the hand alone, not
/// on their order: the canonical decompositions of two hands that hold the
/// same tiles hold the same melds.
pub proof fn law_unique_melds_deterministic(
    d1: Seq<Seq<MahjongTile>>,
    h1: Seq<MahjongTile>,
    d2: Seq<Seq<MahjongTile>>,
    h2: Seq<MahjongTile>,
)
    requires
        bag(h1) == bag(h2),
        is_unique_meld_set(d1, h1),
        is_unique_meld_set(d2, h2),
    ensures
        same_melds(d1, d2),
{
    lemma_unique_meld_set(d1, h1, d2, h2);
}


/// Whether one sequence of tiles comes before another as lists of tiles
/// compare: by the first tile in which they differ, a list before each
/// that it begins.
pub open spec fn tiles_lt(a: Seq<MahjongTile>, b: Seq<MahjongTile>) -> bool
    decreases a.len(),
{
    if b.len() == 0 {
        false
    } else if a.len() == 0 {
        true
    } else if a[0].code() != b[0].code() {
        a[0].code() < b[0].code()
    } else {
        tiles_lt(a.drop_first(), b.drop_first())
    }
}

/// Whether one list of melds comes before another as lists of lists of
/// tiles compare.
pub open spec fn melds_lt(a: Seq<Seq<MahjongTile>>, b: Seq<Seq<MahjongTile>>) -> bool
    decreases a.len(),
{
    if b.len() == 0 {
        false
    } else if a.len() == 0 {
        true
    } else if tiles_lt(a[0], b[0]) {
        true
    } else if tiles_lt(b[0], a[0]) {
        false
    } else {
        melds_lt(a.drop_first(), b.drop_first())
    }
}

/// The rank of a meld orders the melds as their lists of tiles compare.
pub proof fn law_meld_rank_is_tile_order(a: Seq<MahjongTile>, b: Seq<MahjongTile>)
    requires
        is_meld(a),
        is_meld(b),
    ensures
        tiles_lt(a, b) <==> meld_rank(a) < meld_rank(b),
{
    reveal_with_fuel(tiles_lt, 4);
    lemma_meld_codes(a);
    lemma_meld_codes(b);
    let a1 = a.drop_first();
    let b1 = b.drop_first();
    let a2 = a1.drop_first();
    let b2 = b1.drop_first();
    assert(a1[0] == a[1]);
    assert(b1[0] == b[1]);
    if a.len() == 3 {
        assert(a2[0] == a[2]);
    }
    if b.len() == 3 {
        assert(b2[0] == b[2]);
    }
    assert(a2.len() == a.len() - 2);
    assert(b2.len() == b.len() - 2);
    if a.len() == 3 && b.len() == 3 {
        assert(a2.drop_first().len() == 0);
        assert(b2.drop_first().len() == 0);
    }
}

/// The order of decompositions is the order in which their lists of melds
/// compare.
pub proof fn law_decomposition_order_is_list_order(
    a: Seq<Seq<MahjongTile>>,
    b: Seq<Seq<MahjongTile>>,
)
    requires
        all_melds(a),
        all_melds(b),
    ensures
        decomposition_lt(a, b) <==> melds_lt(a, b),
    decreases a.len(),
{
    if a.len() > 0 && b.len() > 0 {
        assert(is_meld(a[0]));
        assert(is_meld(b[0]));
        law_meld_rank_is_tile_order(a[0], b[0]);
        law_meld_rank_is_tile_order(b[0], a[0]);
        let x = a.drop_first();
        let y = b.drop_first();
        assert forall|i: int| 0 <= i < x.len() implies is_meld(#[trigger] x[i]) by {
            assert(x[i] == a[i + 1]);
        }
        assert forall|i: int| 0 <= i < y.len() implies is_meld(#[trigger] y[i]) by {
            assert(y[i] == b[i + 1]);
        }
        law_decomposition_order_is_list_order(x, y);
    }
}


/// Sorting puts the tiles in ascending order, keeps every tile, and keeps
/// the tiles of each kind in the order in which they stood.
pub proof fn law_sorting(hand: Seq<MahjongTile>)
    ensures
        ascending(sorted_tiles(hand)),
        sorted_tiles(hand).to_multiset() == hand.to_multiset(),
        forall|t: MahjongTile| #[trigger] of_kind(sorted_tiles(hand), t) == of_kind(hand, t),
{
    lemma_sorted_tiles(hand);
    assert forall|t: MahjongTile| #[trigger] of_kind(sorted_tiles(hand), t) == of_kind(hand, t) by {
        lemma_sorting_is_stable(hand, t);
    }
}

/// Sorting a hand twice gives what sorting it once gives.
pub proof fn law_sorting_is_idempotent(hand: Seq<MahjongTile>)
    ensures
        ascending(sorted_tiles(hand)),
        sorted_tiles(sorted_tiles(hand)) == sorted_tiles(hand),
{
    lemma_sorted_tiles(hand);
    lemma_sorted_tiles_of_ascending(sorted_tiles(hand));
}

/// The melds hold three tiles each, the pairs one less.
proof fn lemma_tiles_of_melds(d: Seq<Seq<MahjongTile>>)
    requires
        all_melds(d),
    ensures
        d.flatten().len() + pair_count(d) == 3 * d.len(),
    decreases d.len(),
{
    if d.len() > 0 {
        let t = d.drop_first();
        assert forall|i: int| 0 <= i < t.len() implies is_meld(#[trigger] t[i]) by {
            assert(t[i] == d[i + 1]);
        }
        lemma_tiles_of_melds(t);
        assert(is_meld(d[0]));
    }
}

/// A decomposition of a hand of fourteen tiles with exactly one pair has
/// five melds: the pair and four of three tiles.
pub proof fn law_shape_of_a_full_hand(d: Seq<Seq<MahjongTile>>, hand: Seq<MahjongTile>)
    requires
        is_standard_decomposition(d, hand),
        hand.len() == 14,
    ensures
        d.len() == 5,
        pair_count(d) == 1,
{
    lemma_tiles_of_melds(d);
    lemma_bag_len(d.flatten());
    lemma_bag_len(hand);
}


/// A hand holds fewer than two triplets and runs exactly when all the
/// triplets and runs that its tiles can form hold the same tiles.
pub proof fn law_fewer_than_two_sets(hand: Seq<MahjongTile>)
    ensures
        candidate_sets(hand).len() < 2 <==> forall|a: Seq<MahjongTile>, b: Seq<MahjongTile>|
            is_set(a) && bag(a).subset_of(bag(hand)) && is_set(b) && bag(b).subset_of(bag(hand))
                ==> same_tiles(a, b),
{
    lemma_fewer_than_two_sets(hand);
}

/// Whether a hand is complete depends on the tiles that it holds alone, not
/// on their order nor on their bonus flags.
pub proof fn law_completeness_is_of_the_tiles(h1: Seq<MahjongTile>, h2: Seq<MahjongTile>)
    requires
        bag(h1) == bag(h2),
    ensures
        is_complete_hand(h1) == is_complete_hand(h2),
{
    lemma_complete_of_tiles(h1, h2);
}

/// A tile completes a hand whatever its bonus flag.
pub proof fn law_bonus_flag_is_no_matter(hand: Seq<MahjongTile>, t: MahjongTile)
    ensures
        is_complete_hand(hand.push(t)) == is_complete_hand(hand.push(t.plain())),
{
    lemma_plain_completes(hand, t);
}


/// The waiting tiles, ascending, depend on the tiles of the hand alone, not
/// on their order nor on their bonus flags.
pub proof fn law_waits_are_of_the_tiles(h1: Seq<MahjongTile>, h2: Seq<MahjongTile>)
    requires
        bag(h1) == bag(h2),
    ensures
        sorted_tiles(waits_in(h1, probes(h1))) == sorted_tiles(waits_in(h2, probes(h2))),
{
    lemma_waits_of_tiles(h1, h2);
}


/// The melds found in a hand are the melds that its tiles can form, in
/// ascending order: each entry is such a meld, each such meld is listed,
/// and the entries ascend as melds compare, so that none is listed twice.
pub proof fn law_melds_found(hand: Seq<MahjongTile>)
    ensures
        forall|i: int|
            0 <= i < candidate_sets(hand).len() ==> is_set(#[trigger] candidate_sets(hand)[i])
                && bag(candidate_sets(hand)[i]).subset_of(bag(hand)),
        forall|m: Seq<MahjongTile>|
            is_set(m) && bag(m).subset_of(bag(hand)) ==> listed(candidate_sets(hand), m),
        ranked(candidate_sets(hand)),
        forall|i: int|
            0 <= i < candidate_pairs(hand).len() ==> is_pair(#[trigger] candidate_pairs(hand)[i])
                && bag(candidate_pairs(hand)[i]).subset_of(bag(hand)),
        forall|m: Seq<MahjongTile>|
            is_pair(m) && bag(m).subset_of(bag(hand)) ==> listed(candidate_pairs(hand), m),
        ranked(candidate_pairs(hand)),
{
    lemma_candidates(hand);
    lemma_candidates_ranked(hand);
}


/// The picks of `k` tiles are the tiles at the ascending choices of `k`
/// places, in the lexicographic order of the places: each pick is the tiles
/// at such places, the tiles at such places are the pick at `place_of`, and
/// earlier places have the earlier pick.
pub proof fn law_picks_in_order_of_places(s: Seq<MahjongTile>, a: Seq<int>, b: Seq<int>, i: int)
    requires
        ascends_within(a, s.len() as int),
        ascends_within(b, s.len() as int),
        a.len() == b.len(),
        0 <= i < picks(s, a.len()).len(),
    ensures
        0 <= place_of(s, a) < picks(s, a.len()).len(),
        picks(s, a.len())[place_of(s, a)] == taken(s, a),
        places_lt(a, b) ==> place_of(s, a) < place_of(s, b),
        exists|at: Seq<int>|
            ascends_within(at, s.len() as int) && at.len() == a.len() && #[trigger] place_of(s, at)
                == i && picks(s, a.len())[i] == taken(s, at),
{
    lemma_place_of(s, a);
    if places_lt(a, b) {
        lemma_place_ascends(s, a, b);
    }
    let at = lemma_places_of_pick(s, a.len(), i);
    assert(place_of(s, at) == i);
}


/// Tiles are a subset of others exactly when the others hold each kind of
/// tile at least as often.
pub proof fn law_subset_of_tiles(sup: Seq<MahjongTile>, sub: Seq<MahjongTile>)
    ensures
        holds_all(sup, sub) <==> bag(sub).subset_of(bag(sup)),
{
    lemma_holds_all_of_tiles(sup, sub);
    lemma_covers(sup, sub);
}

} // verus!
