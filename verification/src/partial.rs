//! The tiles of a hand that no meld uses, and the discards chosen from them.

use crate::calls::{
    covers, is_subset, lemma_holds_all_of_tiles, lemma_without_first_len, remove_first,
    without_first,
};
use crate::hand::{lemma_sorted_tiles, sorted_copy, sorted_tiles};
use crate::melds::{candidate_pairs, candidate_sets, find_pairs_melds, lemma_melds_view};
use crate::tile::MahjongTile;
use vstd::multiset::Multiset;
use vstd::prelude::*;
use vstd::slice::slice_to_vec;

verus! {

/// The tiles without the tiles of the meld: for each tile of the meld, the
/// first tile of its kind is taken out, if there is one.
pub open spec fn strip(tiles: Seq<MahjongTile>, meld: Seq<MahjongTile>) -> Seq<MahjongTile>
    decreases meld.len(),
{
    if meld.len() == 0 {
        tiles
    } else {
        strip(without_first(tiles, meld[0]), meld.drop_first())
    }
}

/// The place `step` behind `start` in a round of `n` places.
pub open spec fn turn(start: int, step: int, n: int) -> int {
    if start + step < n {
        start + step
    } else {
        start + step - n
    }
}

/// What is left of the tiles when the first `count` melds of the round that
/// begins at `start` have been taken out, each where the tiles hold it.
pub open spec fn sweep(
    tiles: Seq<MahjongTile>,
    melds: Seq<Seq<MahjongTile>>,
    start: int,
    count: int,
) -> Seq<MahjongTile>
    decreases count,
{
    if count <= 0 {
        tiles
    } else {
        let prev = sweep(tiles, melds, start, count - 1);
        let m = melds[turn(start, count - 1, melds.len() as int)];
        if covers(prev, m) {
            strip(prev, m)
        } else {
            prev
        }
    }
}

/// The shorter of `best` and what the rounds that begin at the first `upto`
/// places leave of `tiles`; the earlier wins a tie.
pub open spec fn best_round(
    best: Seq<MahjongTile>,
    tiles: Seq<MahjongTile>,
    melds: Seq<Seq<MahjongTile>>,
    upto: int,
) -> Seq<MahjongTile>
    decreases upto,
{
    if upto <= 0 {
        best
    } else {
        let prev = best_round(best, tiles, melds, upto - 1);
        let left = sweep(tiles, melds, upto - 1, melds.len() as int);
        if left.len() < prev.len() {
            left
        } else {
            prev
        }
    }
}

/// The shortest leftover over the first `upto` triplets and runs: each is
/// taken out of the sorted hand first, then every round of all the melds.
pub open spec fn best_leftover(
    best: Seq<MahjongTile>,
    sorted: Seq<MahjongTile>,
    sets: Seq<Seq<MahjongTile>>,
    melds: Seq<Seq<MahjongTile>>,
    upto: int,
) -> Seq<MahjongTile>
    decreases upto,
{
    if upto <= 0 {
        best
    } else {
        best_round(
            best_leftover(best, sorted, sets, melds, upto - 1),
            strip(sorted, sets[upto - 1]),
            melds,
            melds.len() as int,
        )
    }
}

/// The tiles of the hand that its melds leave over: the shortest leftover
/// found by taking melds out greedily, each triplet and run in turn first
/// and the others in every round. A hand with more than two pairs is given
/// back as it is, and so is a hand without a triplet or run.
pub open spec fn partial_completion(hand: Seq<MahjongTile>) -> Seq<MahjongTile> {
    let sets = candidate_sets(hand);
    let pairs = candidate_pairs(hand);
    if pairs.len() > 2 {
        hand
    } else {
        best_leftover(hand, sorted_tiles(hand), sets, pairs + sets, sets.len() as int)
    }
}

/// Whether the one holds only tiles of the other, each no more often.
pub open spec fn within(a: Seq<MahjongTile>, b: Seq<MahjongTile>) -> bool {
    a.to_multiset().subset_of(b.to_multiset())
}

/// Taking a meld out leaves only tiles that were there.
proof fn lemma_strip_within(tiles: Seq<MahjongTile>, meld: Seq<MahjongTile>)
    ensures
        within(strip(tiles, meld), tiles),
    decreases meld.len(),
{
    broadcast use vstd::multiset::group_multiset_axioms;

    if meld.len() > 0 {
        lemma_without_first_len(tiles, meld[0]);
        lemma_strip_within(without_first(tiles, meld[0]), meld.drop_first());
    }
}

/// A round of melds leaves only tiles that were there.
proof fn lemma_sweep_within(
    tiles: Seq<MahjongTile>,
    melds: Seq<Seq<MahjongTile>>,
    start: int,
    count: int,
)
    ensures
        within(sweep(tiles, melds, start, count), tiles),
    decreases count,
{
    broadcast use vstd::multiset::group_multiset_axioms;

    if count > 0 {
        let prev = sweep(tiles, melds, start, count - 1);
        lemma_sweep_within(tiles, melds, start, count - 1);
        lemma_strip_within(prev, melds[turn(start, count - 1, melds.len() as int)]);
    }
}

/// The best of the rounds holds only tiles of the hand.
proof fn lemma_best_round_within(
    best: Seq<MahjongTile>,
    tiles: Seq<MahjongTile>,
    melds: Seq<Seq<MahjongTile>>,
    upto: int,
    hand: Seq<MahjongTile>,
)
    requires
        within(best, hand),
        within(tiles, hand),
    ensures
        within(best_round(best, tiles, melds, upto), hand),
    decreases upto,
{
    broadcast use vstd::multiset::group_multiset_axioms;

    if upto > 0 {
        lemma_best_round_within(best, tiles, melds, upto - 1, hand);
        lemma_sweep_within(tiles, melds, upto - 1, melds.len() as int);
    }
}

/// The best leftover holds only tiles of the hand.
proof fn lemma_best_leftover_within(
    best: Seq<MahjongTile>,
    sorted: Seq<MahjongTile>,
    sets: Seq<Seq<MahjongTile>>,
    melds: Seq<Seq<MahjongTile>>,
    upto: int,
    hand: Seq<MahjongTile>,
)
    requires
        within(best, hand),
        within(sorted, hand),
    ensures
        within(best_leftover(best, sorted, sets, melds, upto), hand),
    decreases upto,
{
    broadcast use vstd::multiset::group_multiset_axioms;

    if upto > 0 {
        lemma_best_leftover_within(best, sorted, sets, melds, upto - 1, hand);
        lemma_strip_within(sorted, sets[upto - 1]);
        lemma_best_round_within(
            best_leftover(best, sorted, sets, melds, upto - 1),
            strip(sorted, sets[upto - 1]),
            melds,
            melds.len() as int,
            hand,
        );
    }
}

/// The tiles that the melds of a hand leave over are tiles of the hand.
pub proof fn lemma_partial_completion(hand: Seq<MahjongTile>)
    ensures
        within(partial_completion(hand), hand),
        partial_completion(hand).len() <= hand.len(),
{
    broadcast use vstd::multiset::group_multiset_axioms;
    broadcast use vstd::seq_lib::group_to_multiset_ensures;

    lemma_sorted_tiles(hand);
    let sets = candidate_sets(hand);
    let pairs = candidate_pairs(hand);
    lemma_best_leftover_within(
        hand,
        sorted_tiles(hand),
        sets,
        pairs + sets,
        sets.len() as int,
        hand,
    );
    let p = partial_completion(hand);
    assert(p.to_multiset().len() <= hand.to_multiset().len()) by {
        lemma_subset_len(p.to_multiset(), hand.to_multiset());
    }
}

/// A multiset within another holds no more items.
proof fn lemma_subset_len(a: Multiset<MahjongTile>, b: Multiset<MahjongTile>)
    requires
        a.subset_of(b),
    ensures
        a.len() <= b.len(),
{
    broadcast use vstd::multiset::group_multiset_axioms;

    assert(b =~= a.add(b.sub(a)));
}

/// Takes the tiles of the meld out of the tiles, each where there is one.
fn strip_meld(tiles: &mut Vec<MahjongTile>, meld: &Vec<MahjongTile>)
    ensures
        final(tiles)@ == strip(old(tiles)@, meld@),
{
    let mut k: usize = 0;
    assert(meld@.skip(0) =~= meld@);
    while k < meld.len()
        invariant
            k <= meld.len(),
            strip(old(tiles)@, meld@) == strip(tiles@, meld@.skip(k as int)),
        decreases meld.len() - k,
    {
        proof {
            assert(meld@.skip(k as int)[0] == meld@[k as int]);
            assert(meld@.skip(k as int).drop_first() =~= meld@.skip(k + 1));
        }
        remove_first(tiles, &meld[k]);
        k += 1;
    }
}

/// What the round of melds that begins at `start` leaves of the tiles.
fn sweep_round(tiles: &Vec<MahjongTile>, melds: &Vec<Vec<MahjongTile>>, start: usize) -> (left: Vec<
    MahjongTile,
>)
    requires
        start < melds.len(),
    ensures
        left@ == sweep(tiles@, melds.deep_view(), start as int, melds.len() as int),
{
    let n = melds.len();
    let mut left = slice_to_vec(tiles.as_slice());
    let mut step: usize = 0;
    proof {
        lemma_melds_view(melds);
    }
    while step < n
        invariant
            step <= n,
            n == melds.len(),
            start < n,
            forall|k: int| 0 <= k < melds.len() ==> #[trigger] melds.deep_view()[k] == melds@[k]@,
            left@ == sweep(tiles@, melds.deep_view(), start as int, step as int),
        decreases n - step,
    {
        let at = if step < n - start { start + step } else { step - (n - start) };
        assert(at == turn(start as int, step as int, n as int));
        proof {
            lemma_holds_all_of_tiles(left@, melds@[at as int]@);
        }
        if is_subset(left.as_slice(), melds[at].as_slice()) {
            strip_meld(&mut left, &melds[at]);
        }
        step += 1;
    }
    left
}

/// The shorter of `best` and what the rounds of melds leave of the tiles.
fn shortest_round(
    best: Vec<MahjongTile>,
    tiles: &Vec<MahjongTile>,
    melds: &Vec<Vec<MahjongTile>>,
) -> (r: Vec<MahjongTile>)
    ensures
        r@ == best_round(best@, tiles@, melds.deep_view(), melds.len() as int),
{
    let ghost first = best@;
    let mut best = best;
    let mut start: usize = 0;
    while start < melds.len()
        invariant
            start <= melds.len(),
            best@ == best_round(first, tiles@, melds.deep_view(), start as int),
        decreases melds.len() - start,
    {
        let left = sweep_round(tiles, melds, start);
        if left.len() < best.len() {
            best = left;
        }
        start += 1;
    }
    best
}

/// A copy of the two lists of melds, one behind the other.
fn join_melds(first: &Vec<Vec<MahjongTile>>, second: &Vec<Vec<MahjongTile>>) -> (all: Vec<
    Vec<MahjongTile>,
>)
    ensures
        all.deep_view() == first.deep_view() + second.deep_view(),
{
    let mut all: Vec<Vec<MahjongTile>> = Vec::new();
    let mut i: usize = 0;
    proof {
        lemma_melds_view(first);
        lemma_melds_view(second);
    }
    while i < first.len()
        invariant
            i <= first.len(),
            all.len() == i,
            forall|k: int| 0 <= k < i ==> (#[trigger] all@[k])@ == first@[k]@,
        decreases first.len() - i,
    {
        all.push(slice_to_vec(first[i].as_slice()));
        i += 1;
    }
    let mut j: usize = 0;
    while j < second.len()
        invariant
            j <= second.len(),
            all.len() == first.len() + j,
            forall|k: int| 0 <= k < first.len() ==> (#[trigger] all@[k])@ == first@[k]@,
            forall|k: int| 0 <= k < j ==> (#[trigger] all@[first.len() + k])@ == second@[k]@,
        decreases second.len() - j,
    {
        all.push(slice_to_vec(second[j].as_slice()));
        j += 1;
    }
    proof {
        lemma_melds_view(&all);
        assert forall|k: int| 0 <= k < all.len() implies all.deep_view()[k] == (first.deep_view()
            + second.deep_view())[k] by {
            if k >= first.len() {
                assert(all@[first.len() + (k - first.len())]@ == second@[k - first.len()]@);
            }
        }
        assert(all.deep_view() =~= first.deep_view() + second.deep_view());
    }
    all
}

/// The tiles of the hand that its melds leave over, from which to discard:
/// see `partial_completion`. They are tiles of the hand.
pub fn get_partial_completion(hand: &[MahjongTile]) -> (r: Vec<MahjongTile>)
    ensures
        r@ == partial_completion(hand@),
        within(r@, hand@),
        r.len() <= hand.len(),
{
    proof {
        lemma_partial_completion(hand@);
    }
    let sorted = sorted_copy(hand);
    let (sets, pairs) = find_pairs_melds(hand);
    let mut best = slice_to_vec(hand);
    assert(pairs.deep_view().len() == pairs.len());
    assert(sets.deep_view().len() == sets.len());
    if pairs.len() > 2 {
        return best;
    }
    let melds = join_melds(&pairs, &sets);
    let mut k: usize = 0;
    proof {
        lemma_melds_view(&sets);
    }
    while k < sets.len()
        invariant
            k <= sets.len(),
            melds.deep_view() == pairs.deep_view() + sets.deep_view(),
            forall|i: int| 0 <= i < sets.len() ==> #[trigger] sets.deep_view()[i] == sets@[i]@,
            best@ == best_leftover(
                hand@,
                sorted@,
                sets.deep_view(),
                melds.deep_view(),
                k as int,
            ),
        decreases sets.len() - k,
    {
        let mut second = slice_to_vec(sorted.as_slice());
        strip_meld(&mut second, &sets[k]);
        assert(melds.deep_view().len() == melds.len());
        best = shortest_round(best, &second, &melds);
        k += 1;
    }
    best
}

} // verus!
