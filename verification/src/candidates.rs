//! What the lists of melds found in a hand hold: each meld that the tiles
//! of the hand can form, and each once.

use crate::decompose::{lemma_meld_bag, lemma_meld_codes, lemma_remove_split, lemma_same_tiles};
use crate::hand::{
    ascending, bag, lemma_bag_concat, lemma_bag_contains, lemma_bag_push, lemma_sorted_tiles,
    sorted_tiles,
};
use crate::melds::{
    candidate_pairs, candidate_sets, gather, gather_all, gather_suit, is_meld, is_pair, is_set,
    lemma_same_tiles_chain, listed, of_suit, picks, same_tiles,
};
use crate::tile::{lemma_code_identity, MahjongTile, Suit};
use vstd::prelude::*;

verus! {

/// The tiles of `s` at the places `at`.
pub open spec fn taken(s: Seq<MahjongTile>, at: Seq<int>) -> Seq<MahjongTile> {
    Seq::new(at.len(), |j: int| s[at[j]])
}

/// The places ascend and lie within a sequence of `n` items.
pub open spec fn ascends_within(at: Seq<int>, n: int) -> bool {
    &&& forall|j: int| 0 <= j < at.len() ==> 0 <= #[trigger] at[j] < n
    &&& forall|a: int, b: int| 0 <= a < b < at.len() ==> at[a] < at[b]
}

/// Ascending places lie at least as far in as their number.
proof fn lemma_places(at: Seq<int>, n: int, j: int)
    requires
        ascends_within(at, n),
        0 <= j < at.len(),
    ensures
        j <= at[j],
    decreases j,
{
    if j > 0 {
        lemma_places(at, n, j - 1);
    }
}

/// Each pick holds `k` tiles, all of them tiles of `s`.
pub proof fn lemma_pick(s: Seq<MahjongTile>, k: nat, i: int)
    requires
        0 <= i < picks(s, k).len(),
    ensures
        picks(s, k)[i].len() == k,
        bag(picks(s, k)[i]).subset_of(bag(s)),
    decreases s.len(),
{
    broadcast use vstd::multiset::group_multiset_axioms;

    if k == 0 {
        let e = Seq::<MahjongTile>::empty();
        assert(picks(s, k)[i] == e);
        crate::hand::lemma_bag_len(e);
        assert(bag(e).len() == 0);
        assert forall|c: int| bag(e).count(c) <= bag(s).count(c) by {
            lemma_bag_contains(e, c);
        }
    } else if s.len() < k {
    } else {
        let t = s.drop_first();
        let with = picks(t, (k - 1) as nat);
        let without = picks(t, k);
        lemma_remove_split(s, 0);
        assert(s.remove(0) =~= t);
        if i < with.len() {
            lemma_pick(t, (k - 1) as nat, i);
            let p = seq![s[0]] + with[i];
            assert(picks(s, k)[i] == p);
            lemma_bag_concat(seq![s[0]], with[i]);
            lemma_bag_push(Seq::<MahjongTile>::empty(), s[0]);
            assert(seq![s[0]] =~= Seq::<MahjongTile>::empty().push(s[0]));
            assert forall|c: int| bag(p).count(c) <= bag(s).count(c) by {
                lemma_bag_contains(Seq::<MahjongTile>::empty(), c);
            }
        } else {
            lemma_pick(t, k, i - with.len());
            assert(picks(s, k)[i] == without[i - with.len()]);
        }
    }
}

/// The tiles at ascending places of `s` are one of its picks.
pub proof fn lemma_picks_hold(s: Seq<MahjongTile>, at: Seq<int>) -> (i: int)
    requires
        ascends_within(at, s.len() as int),
    ensures
        0 <= i < picks(s, at.len()).len(),
        picks(s, at.len())[i] == taken(s, at),
    decreases s.len(),
{
    let k = at.len();
    if k == 0 {
        assert(taken(s, at) =~= Seq::<MahjongTile>::empty());
        0
    } else {
        lemma_places(at, s.len() as int, k - 1);
        let t = s.drop_first();
        let with = picks(t, (k - 1) as nat);
        let without = picks(t, k);
        if at[0] == 0 {
            let rest = Seq::new((k - 1) as nat, |j: int| at[j + 1] - 1);
            assert(ascends_within(rest, t.len() as int)) by {
                assert forall|j: int| 0 <= j < rest.len() implies 0 <= #[trigger] rest[j]
                    < t.len() by {
                    assert(at[0] < at[j + 1]);
                }
            }
            let i = lemma_picks_hold(t, rest);
            assert(picks(s, k)[i] == seq![s[0]] + with[i]);
            assert(seq![s[0]] + taken(t, rest) =~= taken(s, at));
            i
        } else {
            let rest = Seq::new(k, |j: int| at[j] - 1);
            assert(ascends_within(rest, t.len() as int)) by {
                assert forall|j: int| 0 <= j < rest.len() implies 0 <= #[trigger] rest[j]
                    < t.len() by {
                    if j > 0 {
                        assert(at[0] < at[j]);
                    }
                }
            }
            let i = lemma_picks_hold(t, rest);
            assert(picks(s, k)[with.len() + i] == without[i]);
            assert(taken(t, rest) =~= taken(s, at));
            with.len() + i
        }
    }
}


/// No two melds of the list hold the same tiles.
pub open spec fn distinct_melds(list: Seq<Seq<MahjongTile>>) -> bool {
    forall|a: int, b: int|
        0 <= a < b < list.len() ==> !same_tiles(#[trigger] list[a], #[trigger] list[b])
}

/// A meld of `k` tiles that the tiles of the hand can form.
pub open spec fn fits(m: Seq<MahjongTile>, hand: Seq<MahjongTile>, k: nat) -> bool {
    is_meld(m) && m.len() == k && bag(m).subset_of(bag(hand))
}

/// Each meld of the list is a meld of `k` tiles of the hand.
pub open spec fn all_fit(list: Seq<Seq<MahjongTile>>, hand: Seq<MahjongTile>, k: nat) -> bool {
    forall|i: int| 0 <= i < list.len() ==> fits(#[trigger] list[i], hand, k)
}

/// `gather` keeps what was found, in place.
pub proof fn lemma_gather_keeps(found: Seq<Seq<MahjongTile>>, picked: Seq<Seq<MahjongTile>>)
    ensures
        found.len() <= gather(found, picked).len(),
        forall|i: int| 0 <= i < found.len() ==> #[trigger] gather(found, picked)[i] == found[i],
    decreases picked.len(),
{
    if picked.len() > 0 {
        lemma_gather_keeps(found, picked.drop_last());
    }
}

/// A meld that is listed stays listed.
pub proof fn lemma_gather_still(
    found: Seq<Seq<MahjongTile>>,
    picked: Seq<Seq<MahjongTile>>,
    x: Seq<MahjongTile>,
)
    requires
        listed(found, x),
    ensures
        listed(gather(found, picked), x),
{
    lemma_gather_keeps(found, picked);
    let i = choose|i: int| 0 <= i < found.len() && same_tiles(#[trigger] found[i], x);
    assert(same_tiles(gather(found, picked)[i], x));
}

/// Each meld among the picks is listed afterwards.
pub proof fn lemma_gather_lists(found: Seq<Seq<MahjongTile>>, picked: Seq<Seq<MahjongTile>>, j: int)
    requires
        0 <= j < picked.len(),
        is_meld(picked[j]),
    ensures
        listed(gather(found, picked), picked[j]),
    decreases picked.len(),
{
    let prev = gather(found, picked.drop_last());
    let g = gather(found, picked);
    if j < picked.len() - 1 {
        lemma_gather_lists(found, picked.drop_last(), j);
        assert(picked.drop_last()[j] == picked[j]);
        let i = choose|i: int| 0 <= i < prev.len() && same_tiles(#[trigger] prev[i], picked[j]);
        assert(g[i] == prev[i]);
        assert(same_tiles(g[i], picked[j]));
    } else {
        if listed(prev, picked[j]) {
            let i = choose|i: int| 0 <= i < prev.len() && same_tiles(#[trigger] prev[i], picked[j]);
            assert(same_tiles(g[i], picked[j]));
        } else {
            assert(g[prev.len() as int] == picked[j]);
            assert(same_tiles(g[prev.len() as int], picked[j]));
        }
    }
}

/// Each meld of the result was found before or is a meld among the picks.
pub proof fn lemma_gather_source(found: Seq<Seq<MahjongTile>>, picked: Seq<Seq<MahjongTile>>, i: int)
    -> (j: int)
    requires
        found.len() <= i < gather(found, picked).len(),
    ensures
        0 <= j < picked.len(),
        is_meld(picked[j]),
        gather(found, picked)[i] == picked[j],
    decreases picked.len(),
{
    lemma_gather_keeps(found, picked);
    if picked.len() == 0 {
        0
    } else {
        let prev = gather(found, picked.drop_last());
        lemma_gather_keeps(found, picked.drop_last());
        if i < prev.len() {
            let j = lemma_gather_source(found, picked.drop_last(), i);
            assert(picked.drop_last()[j] == picked[j]);
            j
        } else {
            picked.len() - 1
        }
    }
}

/// No meld is gathered twice.
proof fn lemma_gather_distinct(found: Seq<Seq<MahjongTile>>, picked: Seq<Seq<MahjongTile>>)
    requires
        distinct_melds(found),
    ensures
        distinct_melds(gather(found, picked)),
    decreases picked.len(),
{
    if picked.len() > 0 {
        let prev = gather(found, picked.drop_last());
        let g = gather(found, picked);
        lemma_gather_distinct(found, picked.drop_last());
        assert forall|a: int, b: int| 0 <= a < b < g.len() implies !same_tiles(
            #[trigger] g[a],
            #[trigger] g[b],
        ) by {
            if b < prev.len() {
                assert(g[a] == prev[a]);
                assert(g[b] == prev[b]);
            } else {
                assert(g[a] == prev[a]);
                if same_tiles(prev[a], picked.last()) {
                    assert(listed(prev, picked.last()));
                }
            }
        }
    }
}

/// Whether the code is that of a tile of the suit.
pub open spec fn code_of_suit(c: int, suit: Suit) -> bool {
    suit.index() * 256 <= c < suit.index() * 256 + 256
}

/// The tiles of a suit occur among the tiles of that suit as often as in
/// the hand, and no others occur there.
pub proof fn lemma_of_suit_count(hand: Seq<MahjongTile>, suit: Suit, c: int)
    ensures
        bag(of_suit(hand, suit)).count(c) == (if code_of_suit(c, suit) {
            bag(hand).count(c)
        } else {
            0
        }),
    decreases hand.len(),
{
    broadcast use vstd::multiset::group_multiset_axioms;

    if hand.len() == 0 {
        lemma_bag_contains(hand, c);
    } else {
        let t = hand.last();
        lemma_of_suit_count(hand.drop_last(), suit, c);
        assert(hand =~= hand.drop_last().push(t));
        lemma_bag_push(hand.drop_last(), t);
        if t.suit == suit {
            lemma_bag_push(of_suit(hand.drop_last(), suit), t);
        }
    }
}

/// The tiles of a suit in an ascending hand ascend.
pub proof fn lemma_of_suit_ascending(hand: Seq<MahjongTile>, suit: Suit)
    requires
        ascending(hand),
    ensures
        ascending(of_suit(hand, suit)),
        forall|i: int|
            0 <= i < of_suit(hand, suit).len() ==> (#[trigger] of_suit(hand, suit)[i]).code()
                <= hand.last().code(),
    decreases hand.len(),
{
    if hand.len() > 0 {
        let h = hand.drop_last();
        let t = hand.last();
        assert forall|i: int, j: int| 0 <= i <= j < h.len() implies h[i].code() <= h[j].code() by {
            assert(h[i] == hand[i]);
            assert(h[j] == hand[j]);
        }
        lemma_of_suit_ascending(h, suit);
        let f = of_suit(h, suit);
        let g = of_suit(hand, suit);
        if h.len() > 0 {
            assert(h.last() == hand[hand.len() - 2]);
        }
        assert forall|i: int| 0 <= i < g.len() implies (#[trigger] g[i]).code() <= t.code() by {
            if i < f.len() {
                assert(g[i] == f[i]);
            }
        }
        assert forall|i: int, j: int| 0 <= i <= j < g.len() implies g[i].code() <= g[j].code() by {
            if j < f.len() {
                assert(g[i] == f[i]);
                assert(g[j] == f[j]);
            } else if i < f.len() {
                assert(g[i] == f[i]);
            }
        }
    }
}

/// A place of the tiles with the given code.
pub proof fn lemma_place(f: Seq<MahjongTile>, c: int) -> (i: int)
    requires
        bag(f).count(c) >= 1,
    ensures
        0 <= i < f.len(),
        f[i].code() == c,
{
    lemma_bag_contains(f, c);
    choose|i: int| 0 <= i < f.len() && #[trigger] f[i].code() == c
}

/// Another place of the tiles with the given code.
pub proof fn lemma_second_place(f: Seq<MahjongTile>, c: int, i: int) -> (j: int)
    requires
        0 <= i < f.len(),
        f[i].code() == c,
        bag(f).count(c) >= 2,
    ensures
        0 <= j < f.len(),
        j != i,
        f[j].code() == c,
{
    broadcast use vstd::multiset::group_multiset_axioms;

    lemma_remove_split(f, i);
    let g = f.remove(i);
    let k = lemma_place(g, c);
    if k < i {
        assert(g[k] == f[k]);
        k
    } else {
        assert(g[k] == f[k + 1]);
        k + 1
    }
}

/// A third place of the tiles with the given code.
proof fn lemma_third_place(f: Seq<MahjongTile>, c: int, i: int, j: int) -> (l: int)
    requires
        0 <= i < j < f.len(),
        f[i].code() == c,
        f[j].code() == c,
        bag(f).count(c) >= 3,
    ensures
        0 <= l < f.len(),
        l != i,
        l != j,
        f[l].code() == c,
{
    broadcast use vstd::multiset::group_multiset_axioms;

    lemma_remove_split(f, j);
    let g = f.remove(j);
    assert(g[i] == f[i]);
    let k = lemma_second_place(g, c, i);
    if k < j {
        assert(g[k] == f[k]);
        k
    } else {
        assert(g[k] == f[k + 1]);
        k + 1
    }
}

/// The places, in order, of the tiles of a meld that ascending tiles can
/// form.
proof fn lemma_find_meld(f: Seq<MahjongTile>, m: Seq<MahjongTile>) -> (at: Seq<int>)
    requires
        ascending(f),
        is_meld(m),
        bag(m).subset_of(bag(f)),
    ensures
        ascends_within(at, f.len() as int),
        at.len() == m.len(),
        same_tiles(taken(f, at), m),
{
    broadcast use vstd::multiset::group_multiset_axioms;

    lemma_meld_bag(m);
    lemma_meld_codes(m);
    let c = m[0].code();
    lemma_code_identity(m[0], m[1]);
    let i = lemma_place(f, c);
    lemma_code_identity(f[i], m[0]);
    if is_pair(m) {
        let j = lemma_second_place(f, c, i);
        lemma_code_identity(f[j], m[1]);
        let at = if i < j { seq![i, j] } else { seq![j, i] };
        assert(same_tiles(taken(f, at), m));
        at
    } else if m[1].code() == c {
        lemma_code_identity(m[0], m[2]);
        let j = lemma_second_place(f, c, i);
        let (a, b) = if i < j { (i, j) } else { (j, i) };
        let l = lemma_third_place(f, c, a, b);
        lemma_code_identity(f[a], m[0]);
        lemma_code_identity(f[b], m[1]);
        lemma_code_identity(f[l], m[2]);
        let at = if l < a { seq![l, a, b] } else if l < b { seq![a, l, b] } else { seq![a, b, l] };
        assert(same_tiles(taken(f, at), m)) by {
            lemma_code_identity(f[at[0]], m[0]);
            lemma_code_identity(f[at[1]], m[1]);
            lemma_code_identity(f[at[2]], m[2]);
        }
        at
    } else {
        let j = lemma_place(f, c + 1);
        let l = lemma_place(f, c + 2);
        lemma_code_identity(f[j], m[1]);
        lemma_code_identity(f[l], m[2]);
        if j <= i {
            assert(f[j].code() <= f[i].code());
        }
        if l <= j {
            assert(f[l].code() <= f[j].code());
        }
        let at = seq![i, j, l];
        assert(same_tiles(taken(f, at), m));
        at
    }
}


/// Gathering the melds of a suit keeps the list a list of melds of the hand.
proof fn lemma_stage_fits(
    found: Seq<Seq<MahjongTile>>,
    hand: Seq<MahjongTile>,
    suit: Suit,
    k: nat,
)
    requires
        all_fit(found, hand, k),
    ensures
        all_fit(gather_suit(found, hand, suit, k), hand, k),
{
    broadcast use vstd::multiset::group_multiset_axioms;

    let f = of_suit(hand, suit);
    let picked = picks(f, k);
    let g = gather(found, picked);
    lemma_gather_keeps(found, picked);
    assert forall|i: int| 0 <= i < g.len() implies fits(#[trigger] g[i], hand, k) by {
        if i < found.len() {
            assert(g[i] == found[i]);
        } else {
            let j = lemma_gather_source(found, picked, i);
            lemma_pick(f, k, j);
            assert forall|c: int| bag(g[i]).count(c) <= bag(hand).count(c) by {
                lemma_of_suit_count(hand, suit, c);
            }
        }
    }
}

/// Gathering the melds of a suit lists no meld twice.
proof fn lemma_stage_distinct(
    found: Seq<Seq<MahjongTile>>,
    hand: Seq<MahjongTile>,
    suit: Suit,
    k: nat,
)
    requires
        distinct_melds(found),
    ensures
        distinct_melds(gather_suit(found, hand, suit, k)),
{
    lemma_gather_distinct(found, picks(of_suit(hand, suit), k));
}

/// Gathering the melds of a suit keeps the melds listed and lists each meld
/// of the suit that the ascending hand can form.
proof fn lemma_stage_lists(
    found: Seq<Seq<MahjongTile>>,
    hand: Seq<MahjongTile>,
    suit: Suit,
    k: nat,
    m: Seq<MahjongTile>,
)
    requires
        ascending(hand),
        fits(m, hand, k),
        listed(found, m) || m[0].suit == suit,
    ensures
        listed(gather_suit(found, hand, suit, k), m),
{
    broadcast use vstd::multiset::group_multiset_axioms;

    let f = of_suit(hand, suit);
    let picked = picks(f, k);
    if listed(found, m) {
        lemma_gather_still(found, picked, m);
    } else {
        lemma_of_suit_ascending(hand, suit);
        lemma_meld_bag(m);
        lemma_meld_codes(m);
        assert forall|c: int| bag(m).count(c) <= bag(f).count(c) by {
            lemma_of_suit_count(hand, suit, c);
            if bag(m).count(c) > 0 {
                lemma_bag_contains(m, c);
                let p = choose|p: int| 0 <= p < m.len() && #[trigger] m[p].code() == c;
                assert(m[p].suit == suit);
            }
        }
        let at = lemma_find_meld(f, m);
        let j = lemma_picks_hold(f, at);
        let p = picked[j];
        lemma_same_tiles(p, m);
        lemma_gather_lists(found, picked, j);
        let g = gather(found, picked);
        let i = choose|i: int| 0 <= i < g.len() && same_tiles(#[trigger] g[i], p);
        lemma_same_tiles_chain(g[i], p, m);
    }
}

/// What the list of the melds of `k` tiles of a hand holds: melds of `k`
/// tiles that the tiles of the hand can form, each such meld, and none
/// twice.
pub proof fn lemma_gather_all(hand: Seq<MahjongTile>, k: nat)
    requires
        ascending(hand),
    ensures
        all_fit(gather_all(hand, k), hand, k),
        distinct_melds(gather_all(hand, k)),
        forall|m: Seq<MahjongTile>| fits(m, hand, k) ==> listed(gather_all(hand, k), m),
{
    let e = Seq::<Seq<MahjongTile>>::empty();
    let a = gather_suit(e, hand, Suit::Manzu, k);
    let b = gather_suit(a, hand, Suit::Pinzu, k);
    let c = gather_suit(b, hand, Suit::Souzu, k);
    let d = gather_suit(c, hand, Suit::Kaze, k);
    lemma_stage_fits(e, hand, Suit::Manzu, k);
    lemma_stage_fits(a, hand, Suit::Pinzu, k);
    lemma_stage_fits(b, hand, Suit::Souzu, k);
    lemma_stage_fits(c, hand, Suit::Kaze, k);
    lemma_stage_fits(d, hand, Suit::Sangen, k);
    lemma_stage_distinct(e, hand, Suit::Manzu, k);
    lemma_stage_distinct(a, hand, Suit::Pinzu, k);
    lemma_stage_distinct(b, hand, Suit::Souzu, k);
    lemma_stage_distinct(c, hand, Suit::Kaze, k);
    lemma_stage_distinct(d, hand, Suit::Sangen, k);
    assert forall|m: Seq<MahjongTile>| fits(m, hand, k) implies listed(gather_all(hand, k), m) by {
        let suit = m[0].suit;
        if suit == Suit::Manzu {
            lemma_stage_lists(e, hand, Suit::Manzu, k, m);
        }
        if suit == Suit::Manzu || suit == Suit::Pinzu {
            lemma_stage_lists(a, hand, Suit::Pinzu, k, m);
        }
        if suit == Suit::Manzu || suit == Suit::Pinzu || suit == Suit::Souzu {
            lemma_stage_lists(b, hand, Suit::Souzu, k, m);
        }
        if suit != Suit::Sangen {
            lemma_stage_lists(c, hand, Suit::Kaze, k, m);
        }
        lemma_stage_lists(d, hand, Suit::Sangen, k, m);
    }
}

/// The triplets and runs found in a hand are those that its tiles can
/// form: each entry is one, each one is listed, and none is listed twice.
/// The same holds of the pairs.
pub proof fn lemma_candidates(hand: Seq<MahjongTile>)
    ensures
        forall|i: int|
            0 <= i < candidate_sets(hand).len() ==> is_set(#[trigger] candidate_sets(hand)[i])
                && bag(candidate_sets(hand)[i]).subset_of(bag(hand)),
        forall|m: Seq<MahjongTile>|
            is_set(m) && bag(m).subset_of(bag(hand)) ==> listed(candidate_sets(hand), m),
        distinct_melds(candidate_sets(hand)),
        forall|i: int|
            0 <= i < candidate_pairs(hand).len() ==> is_pair(#[trigger] candidate_pairs(hand)[i])
                && bag(candidate_pairs(hand)[i]).subset_of(bag(hand)),
        forall|m: Seq<MahjongTile>|
            is_pair(m) && bag(m).subset_of(bag(hand)) ==> listed(candidate_pairs(hand), m),
        distinct_melds(candidate_pairs(hand)),
{
    let sorted = sorted_tiles(hand);
    lemma_sorted_tiles(hand);
    lemma_gather_all(sorted, 3);
    lemma_gather_all(sorted, 2);
    assert forall|i: int| 0 <= i < candidate_sets(hand).len() implies is_set(
        #[trigger] candidate_sets(hand)[i],
    ) && bag(candidate_sets(hand)[i]).subset_of(bag(hand)) by {
        assert(fits(candidate_sets(hand)[i], sorted, 3));
    }
    assert forall|m: Seq<MahjongTile>|
        is_set(m) && bag(m).subset_of(bag(hand)) implies listed(candidate_sets(hand), m) by {
        assert(fits(m, sorted, 3));
    }
    assert forall|i: int| 0 <= i < candidate_pairs(hand).len() implies is_pair(
        #[trigger] candidate_pairs(hand)[i],
    ) && bag(candidate_pairs(hand)[i]).subset_of(bag(hand)) by {
        assert(fits(candidate_pairs(hand)[i], sorted, 2));
    }
    assert forall|m: Seq<MahjongTile>|
        is_pair(m) && bag(m).subset_of(bag(hand)) implies listed(candidate_pairs(hand), m) by {
        assert(fits(m, sorted, 2));
    }
}

} // verus!
