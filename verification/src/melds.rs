//! Melds: pairs, triplets and runs, and the melds that a hand holds.

use crate::candidates::{distinct_melds, lemma_candidates};
use crate::hand::{bag, sorted_copy, sorted_tiles};
use crate::order::{lemma_candidates_ranked, ranked};
use crate::tile::{MahjongTile, Suit};
use itertools::Itertools;
use vstd::prelude::*;

verus! {

/// Two tiles of one identity.
pub open spec fn is_pair(m: Seq<MahjongTile>) -> bool {
    m.len() == 2 && m[0].same_kind(m[1])
}

/// Three tiles of one identity.
pub open spec fn is_triplet(m: Seq<MahjongTile>) -> bool {
    m.len() == 3 && m[0].same_kind(m[1]) && m[0].same_kind(m[2])
}

/// Three tiles of one series with consecutive ranks, ascending.
pub open spec fn is_run(m: Seq<MahjongTile>) -> bool {
    &&& m.len() == 3
    &&& m[0].suit.is_series()
    &&& m[1].suit == m[0].suit
    &&& m[2].suit == m[0].suit
    &&& m[1].value == m[0].value + 1
    &&& m[2].value == m[0].value + 2
}

/// A triplet or a run.
pub open spec fn is_set(m: Seq<MahjongTile>) -> bool {
    is_triplet(m) || is_run(m)
}

/// A pair, a triplet or a run.
pub open spec fn is_meld(m: Seq<MahjongTile>) -> bool {
    is_pair(m) || is_set(m)
}

/// The same tiles in the same order, the bonus flag aside.
pub open spec fn same_tiles(a: Seq<MahjongTile>, b: Seq<MahjongTile>) -> bool {
    a.len() == b.len() && forall|i: int| 0 <= i < a.len() ==> (#[trigger] a[i]).same_kind(b[i])
}

/// Whether a meld of the same tiles as `m` stands in `list`.
pub open spec fn listed(list: Seq<Seq<MahjongTile>>, m: Seq<MahjongTile>) -> bool {
    exists|i: int| 0 <= i < list.len() && same_tiles(#[trigger] list[i], m)
}

/// The tiles of one suit, in the order of the hand.
pub open spec fn of_suit(hand: Seq<MahjongTile>, suit: Suit) -> Seq<MahjongTile>
    decreases hand.len(),
{
    if hand.len() == 0 {
        hand
    } else if hand.last().suit == suit {
        of_suit(hand.drop_last(), suit).push(hand.last())
    } else {
        of_suit(hand.drop_last(), suit)
    }
}

/// All ways to pick `k` of the tiles of `s`, each pick in the order of `s`.
/// The picks that hold the first tile come first, and so on within them:
/// the picks are ordered by the places they take their tiles from, a pick
/// before another where it has the lower place in the first place in which
/// they differ. That this is so is proved in `order`.
pub open spec fn picks(s: Seq<MahjongTile>, k: nat) -> Seq<Seq<MahjongTile>>
    decreases s.len(),
{
    if k == 0 {
        seq![Seq::<MahjongTile>::empty()]
    } else if s.len() < k {
        Seq::<Seq<MahjongTile>>::empty()
    } else {
        picks(s.drop_first(), (k - 1) as nat).map_values(|p: Seq<MahjongTile>| seq![s[0]] + p)
            + picks(s.drop_first(), k)
    }
}

/// `found`, extended by each meld of `picked` that is not yet listed, in the
/// order of `picked`.
pub open spec fn gather(found: Seq<Seq<MahjongTile>>, picked: Seq<Seq<MahjongTile>>) -> Seq<
    Seq<MahjongTile>,
>
    decreases picked.len(),
{
    if picked.len() == 0 {
        found
    } else {
        let prev = gather(found, picked.drop_last());
        if is_meld(picked.last()) && !listed(prev, picked.last()) {
            prev.push(picked.last())
        } else {
            prev
        }
    }
}

/// `found`, extended by the melds of `k` tiles that the tiles of `suit` in
/// `hand` form.
pub open spec fn gather_suit(
    found: Seq<Seq<MahjongTile>>,
    hand: Seq<MahjongTile>,
    suit: Suit,
    k: nat,
) -> Seq<Seq<MahjongTile>> {
    gather(found, picks(of_suit(hand, suit), k))
}

/// The melds of `k` tiles that an ascending hand holds, suit by suit.
pub open spec fn gather_all(hand: Seq<MahjongTile>, k: nat) -> Seq<Seq<MahjongTile>> {
    let a = gather_suit(Seq::empty(), hand, Suit::Manzu, k);
    let b = gather_suit(a, hand, Suit::Pinzu, k);
    let c = gather_suit(b, hand, Suit::Souzu, k);
    let d = gather_suit(c, hand, Suit::Kaze, k);
    gather_suit(d, hand, Suit::Sangen, k)
}

/// The triplets and runs that the hand holds: each once, grouped by suit,
/// in the order in which the sorted hand yields them.
pub open spec fn candidate_sets(hand: Seq<MahjongTile>) -> Seq<Seq<MahjongTile>> {
    gather_all(sorted_tiles(hand), 3)
}

/// The pairs that the hand holds: each once, grouped by suit, ascending.
pub open spec fn candidate_pairs(hand: Seq<MahjongTile>) -> Seq<Seq<MahjongTile>> {
    gather_all(sorted_tiles(hand), 2)
}

/// Calls `Itertools::combinations` on the tiles and collects what it yields.
/// Trusted: the result is every choice of `k` tiles, each in the order of
/// `tiles`, the choices in the lexicographic order of the places of their
/// tiles, which is what `picks` lists.
#[verifier::external_body]
fn combinations(tiles: &Vec<MahjongTile>, k: usize) -> (r: Vec<Vec<MahjongTile>>)
    ensures
        r.deep_view() == picks(tiles@, k as nat),
{
    tiles.iter().cloned().combinations(k).collect()
}

/// Whether the two hold the same tiles in the same order.
pub fn tiles_match(a: &Vec<MahjongTile>, b: &Vec<MahjongTile>) -> (r: bool)
    ensures
        r == same_tiles(a@, b@),
{
    if a.len() != b.len() {
        return false;
    }
    let mut i: usize = 0;
    while i < a.len()
        invariant
            i <= a.len(),
            a.len() == b.len(),
            forall|j: int| 0 <= j < i ==> (#[trigger] a@[j]).same_kind(b@[j]),
        decreases a.len() - i,
    {
        if a[i] != b[i] {
            return false;
        }
        i += 1;
    }
    true
}

/// Whether a meld of the same tiles as `m` stands in `list`.
pub fn is_listed(list: &Vec<Vec<MahjongTile>>, m: &Vec<MahjongTile>) -> (r: bool)
    ensures
        r == listed(list.deep_view(), m@),
{
    let mut i: usize = 0;
    while i < list.len()
        invariant
            i <= list.len(),
            forall|j: int| 0 <= j < i ==> !same_tiles(#[trigger] list.deep_view()[j], m@),
        decreases list.len() - i,
    {
        assert(list.deep_view()[i as int] =~= list@[i as int]@);
        if tiles_match(&list[i], m) {
            return true;
        }
        i += 1;
    }
    false
}

/// Whether the tiles form a pair, a triplet or a run.
pub fn forms_meld(m: &Vec<MahjongTile>) -> (r: bool)
    ensures
        r == is_meld(m@),
{
    if m.len() == 2 {
        m[0] == m[1]
    } else if m.len() == 3 {
        if m[0] == m[1] && m[0] == m[2] {
            true
        } else {
            m[0].suit.is_series() && m[1].suit == m[0].suit && m[2].suit == m[0].suit
                && m[0].value <= 253 && m[1].value == m[0].value + 1 && m[2].value
                == m[0].value + 2
        }
    } else {
        false
    }
}

/// Adds to `found` each meld of `picked` that it does not list yet.
pub fn gather_melds(found: &mut Vec<Vec<MahjongTile>>, picked: Vec<Vec<MahjongTile>>)
    ensures
        final(found).deep_view() == gather(old(found).deep_view(), picked.deep_view()),
{
    let mut n: usize = 0;
    while n < picked.len()
        invariant
            n <= picked.len(),
            found.deep_view() == gather(old(found).deep_view(), picked.deep_view().take(n as int)),
        decreases picked.len() - n,
    {
        let m = picked[n].clone();
        proof {
            let pv = picked.deep_view();
            assert(pv.take(n + 1).drop_last() =~= pv.take(n as int));
            assert(pv.take(n + 1).last() == pv[n as int]);
            assert(pv[n as int] =~= picked@[n as int]@);
            assert(m@ =~= picked@[n as int]@);
        }
        if forms_meld(&m) && !is_listed(found, &m) {
            let ghost before = found.deep_view();
            found.push(m);
            assert(found.deep_view() =~= before.push(m@));
        }
        n += 1;
    }
    assert(picked.deep_view().take(n as int) =~= picked.deep_view());
}

/// The tiles of one suit, in the order of the hand.
pub fn tiles_of_suit(hand: &Vec<MahjongTile>, suit: Suit) -> (out: Vec<MahjongTile>)
    ensures
        out@ == of_suit(hand@, suit),
{
    let mut out: Vec<MahjongTile> = Vec::new();
    let mut n: usize = 0;
    while n < hand.len()
        invariant
            n <= hand.len(),
            out@ == of_suit(hand@.take(n as int), suit),
        decreases hand.len() - n,
    {
        proof {
            assert(hand@.take(n + 1).drop_last() =~= hand@.take(n as int));
        }
        if hand[n].suit == suit {
            out.push(hand[n]);
        }
        n += 1;
    }
    assert(hand@.take(n as int) =~= hand@);
    out
}

/// Adds the melds that the tiles of one suit form to the two lists.
fn gather_for_suit(
    sets: &mut Vec<Vec<MahjongTile>>,
    pairs: &mut Vec<Vec<MahjongTile>>,
    hand: &Vec<MahjongTile>,
    suit: Suit,
)
    ensures
        final(sets).deep_view() == gather_suit(old(sets).deep_view(), hand@, suit, 3),
        final(pairs).deep_view() == gather_suit(old(pairs).deep_view(), hand@, suit, 2),
{
    let tiles = tiles_of_suit(hand, suit);
    let threes = combinations(&tiles, 3);
    gather_melds(sets, threes);
    let twos = combinations(&tiles, 2);
    gather_melds(pairs, twos);
}

/// Finds the melds that the hand holds: first the triplets and runs, then
/// the pairs. Each meld that the tiles of the hand can form is listed once,
/// however many tiles of the hand could form it, with its tiles ascending.
/// The melds of a list ascend: they stand suit by suit, by the rank of
/// their first tile, a triplet before a run.
pub fn find_pairs_melds(hand: &[MahjongTile]) -> (res: (
    Vec<Vec<MahjongTile>>,
    Vec<Vec<MahjongTile>>,
))
    ensures
        res.0.deep_view() == candidate_sets(hand@),
        res.1.deep_view() == candidate_pairs(hand@),
        forall|i: int|
            0 <= i < res.0.len() ==> is_set(#[trigger] res.0.deep_view()[i]) && bag(
                res.0.deep_view()[i],
            ).subset_of(bag(hand@)),
        forall|m: Seq<MahjongTile>|
            is_set(m) && bag(m).subset_of(bag(hand@)) ==> listed(res.0.deep_view(), m),
        distinct_melds(res.0.deep_view()),
        forall|i: int|
            0 <= i < res.1.len() ==> is_pair(#[trigger] res.1.deep_view()[i]) && bag(
                res.1.deep_view()[i],
            ).subset_of(bag(hand@)),
        forall|m: Seq<MahjongTile>|
            is_pair(m) && bag(m).subset_of(bag(hand@)) ==> listed(res.1.deep_view(), m),
        distinct_melds(res.1.deep_view()),
        ranked(res.0.deep_view()),
        ranked(res.1.deep_view()),
{
    proof {
        lemma_candidates(hand@);
        lemma_candidates_ranked(hand@);
    }
    let sorted = sorted_copy(hand);
    let mut sets: Vec<Vec<MahjongTile>> = Vec::new();
    let mut pairs: Vec<Vec<MahjongTile>> = Vec::new();
    assert(sets.deep_view() =~= Seq::<Seq<MahjongTile>>::empty());
    assert(pairs.deep_view() =~= Seq::<Seq<MahjongTile>>::empty());
    gather_for_suit(&mut sets, &mut pairs, &sorted, Suit::Manzu);
    gather_for_suit(&mut sets, &mut pairs, &sorted, Suit::Pinzu);
    gather_for_suit(&mut sets, &mut pairs, &sorted, Suit::Souzu);
    gather_for_suit(&mut sets, &mut pairs, &sorted, Suit::Kaze);
    gather_for_suit(&mut sets, &mut pairs, &sorted, Suit::Sangen);
    (sets, pairs)
}


/// The deep view of a list of melds holds the tiles of each meld.
pub proof fn lemma_melds_view(v: &Vec<Vec<MahjongTile>>)
    ensures
        v.deep_view().len() == v.len(),
        forall|i: int| 0 <= i < v.len() ==> #[trigger] v.deep_view()[i] == v@[i]@,
{
    assert forall|i: int| 0 <= i < v.len() implies #[trigger] v.deep_view()[i] == v@[i]@ by {
        assert(v.deep_view()[i] =~= v@[i]@);
    }
}


/// Holding the same tiles is an equivalence.
pub proof fn lemma_same_tiles_chain(a: Seq<MahjongTile>, b: Seq<MahjongTile>, c: Seq<MahjongTile>)
    requires
        same_tiles(a, b),
        same_tiles(b, c),
    ensures
        same_tiles(a, c),
        same_tiles(b, a),
        same_tiles(a, a),
{
    assert forall|i: int| 0 <= i < a.len() implies (#[trigger] a[i]).same_kind(c[i]) by {
        assert(a[i].same_kind(b[i]));
        assert(b[i].same_kind(c[i]));
    }
    assert forall|i: int| 0 <= i < b.len() implies (#[trigger] b[i]).same_kind(a[i]) by {
        assert(a[i].same_kind(b[i]));
    }
}

} // verus!
