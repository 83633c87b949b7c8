//! The order of the melds found in a hand: ascending, as melds compare.

use crate::candidates::{
    ascends_within, lemma_gather_keeps, lemma_gather_lists, lemma_gather_source,
    lemma_of_suit_ascending, lemma_of_suit_count, lemma_pick, taken,
};
use crate::decompose::{
    all_melds, lemma_absent, lemma_meld_bag, lemma_meld_codes, lemma_meld_first,
    lemma_rank_identity, lemma_remove_split, lemma_same_tiles, meld_rank, shape_of,
};
use crate::hand::{ascending, bag, lemma_bag_contains, lemma_sorted_tiles, sorted_tiles};
use crate::melds::{
    candidate_pairs, candidate_sets, gather, gather_suit, is_meld, lemma_same_tiles_chain, listed,
    of_suit, picks, same_tiles,
};
use crate::tile::{lemma_code_identity, MahjongTile, Suit};
use vstd::prelude::*;

verus! {

/// Whether the places `a` come before the places `b`: in the first place in
/// which they differ, `a` has the lower.
pub open spec fn places_lt(a: Seq<int>, b: Seq<int>) -> bool
    decreases a.len(),
{
    a.len() > 0 && b.len() > 0 && (a[0] < b[0] || (a[0] == b[0] && places_lt(
        a.drop_first(),
        b.drop_first(),
    )))
}

/// The places one lower, the first left out or kept.
pub open spec fn shifted(at: Seq<int>, from: int) -> Seq<int> {
    Seq::new((at.len() - from) as nat, |j: int| at[j + from] - 1)
}

/// Where among the picks of `s` the tiles at the places `at` stand.
pub open spec fn place_of(s: Seq<MahjongTile>, at: Seq<int>) -> int
    decreases s.len(),
{
    if at.len() == 0 || s.len() == 0 {
        0
    } else if at[0] == 0 {
        place_of(s.drop_first(), shifted(at, 1))
    } else {
        picks(s.drop_first(), (at.len() - 1) as nat).len() + place_of(
            s.drop_first(),
            shifted(at, 0),
        )
    }
}

proof fn lemma_shifted(s: Seq<MahjongTile>, at: Seq<int>)
    requires
        ascends_within(at, s.len() as int),
        at.len() > 0,
    ensures
        s.len() > 0,
        at[0] == 0 ==> ascends_within(shifted(at, 1), s.len() - 1),
        at[0] > 0 ==> ascends_within(shifted(at, 0), s.len() - 1),
        at[0] == 0 ==> seq![s[0]] + taken(s.drop_first(), shifted(at, 1)) == taken(s, at),
        at[0] > 0 ==> taken(s.drop_first(), shifted(at, 0)) == taken(s, at),
{
    let t = s.drop_first();
    if at[0] == 0 {
        let rest = shifted(at, 1);
        assert forall|j: int| 0 <= j < rest.len() implies 0 <= #[trigger] rest[j] < t.len() by {
            assert(at[0] < at[j + 1]);
        }
        assert(seq![s[0]] + taken(t, rest) =~= taken(s, at));
    } else {
        let rest = shifted(at, 0);
        assert forall|j: int| 0 <= j < rest.len() implies 0 <= #[trigger] rest[j] < t.len() by {
            if j > 0 {
                assert(at[0] < at[j]);
            }
        }
        assert(taken(t, rest) =~= taken(s, at));
    }
}

/// The tiles at ascending places stand among the picks at their place.
pub proof fn lemma_place_of(s: Seq<MahjongTile>, at: Seq<int>)
    requires
        ascends_within(at, s.len() as int),
    ensures
        0 <= place_of(s, at) < picks(s, at.len()).len(),
        picks(s, at.len())[place_of(s, at)] == taken(s, at),
    decreases s.len(),
{
    let k = at.len();
    if k == 0 {
        assert(taken(s, at) =~= Seq::<MahjongTile>::empty());
    } else {
        lemma_shifted(s, at);
        let t = s.drop_first();
        let with = picks(t, (k - 1) as nat);
        let without = picks(t, k);
        if at[0] == 0 {
            let rest = shifted(at, 1);
            lemma_place_of(t, rest);
            let i = place_of(t, rest);
            assert(picks(s, k)[i] == seq![s[0]] + with[i]);
        } else {
            let rest = shifted(at, 0);
            lemma_place_of(t, rest);
            let i = place_of(t, rest);
            assert(picks(s, k)[with.len() + i] == without[i]);
        }
    }
}

/// Places that come before others have their tiles earlier among the picks.
pub proof fn lemma_place_ascends(s: Seq<MahjongTile>, a: Seq<int>, b: Seq<int>)
    requires
        ascends_within(a, s.len() as int),
        ascends_within(b, s.len() as int),
        a.len() == b.len(),
        places_lt(a, b),
    ensures
        place_of(s, a) < place_of(s, b),
    decreases s.len(),
{
    lemma_shifted(s, a);
    lemma_shifted(s, b);
    let t = s.drop_first();
    if a[0] == 0 && b[0] == 0 {
        let x = shifted(a, 1);
        let y = shifted(b, 1);
        assert(places_lt(x, y)) by {
            lemma_shift_keeps(a.drop_first(), b.drop_first(), x, y);
        }
        lemma_place_ascends(t, x, y);
    } else if a[0] == 0 {
        lemma_place_of(t, shifted(a, 1));
        lemma_place_of(t, shifted(b, 0));
    } else {
        let x = shifted(a, 0);
        let y = shifted(b, 0);
        assert(places_lt(x, y)) by {
            lemma_shift_keeps(a, b, x, y);
        }
        lemma_place_ascends(t, x, y);
    }
}

/// Places one lower compare as the places do.
proof fn lemma_shift_keeps(a: Seq<int>, b: Seq<int>, x: Seq<int>, y: Seq<int>)
    requires
        a.len() == b.len(),
        x.len() == a.len(),
        y.len() == b.len(),
        forall|j: int| 0 <= j < a.len() ==> x[j] == a[j] - 1,
        forall|j: int| 0 <= j < b.len() ==> y[j] == b[j] - 1,
        places_lt(a, b),
    ensures
        places_lt(x, y),
    decreases a.len(),
{
    if a[0] == b[0] {
        let a1 = a.drop_first();
        let b1 = b.drop_first();
        let x1 = x.drop_first();
        let y1 = y.drop_first();
        assert forall|j: int| 0 <= j < a1.len() implies x1[j] == a1[j] - 1 by {
            assert(x1[j] == x[j + 1]);
            assert(a1[j] == a[j + 1]);
        }
        assert forall|j: int| 0 <= j < b1.len() implies y1[j] == b1[j] - 1 by {
            assert(y1[j] == y[j + 1]);
            assert(b1[j] == b[j + 1]);
        }
        lemma_shift_keeps(a1, b1, x1, y1);
    }
}

/// Each pick is the tiles at ascending places, and stands at their place.
pub proof fn lemma_places_of_pick(s: Seq<MahjongTile>, k: nat, i: int) -> (at: Seq<int>)
    requires
        0 <= i < picks(s, k).len(),
    ensures
        at.len() == k,
        ascends_within(at, s.len() as int),
        place_of(s, at) == i,
        picks(s, k)[i] == taken(s, at),
    decreases s.len(),
{
    if k == 0 {
        let at = Seq::<int>::empty();
        assert(taken(s, at) =~= Seq::<MahjongTile>::empty());
        at
    } else {
        let t = s.drop_first();
        let with = picks(t, (k - 1) as nat);
        let without = picks(t, k);
        if i < with.len() {
            let rest = lemma_places_of_pick(t, (k - 1) as nat, i);
            let at = seq![0int] + Seq::new(rest.len(), |j: int| rest[j] + 1);
            assert(shifted(at, 1) =~= rest);
            assert(ascends_within(at, s.len() as int)) by {
                assert forall|a: int, b: int| 0 <= a < b < at.len() implies at[a] < at[b] by {
                    if a > 0 {
                        assert(rest[a - 1] < rest[b - 1]);
                    } else {
                        assert(0 <= rest[b - 1]);
                    }
                }
            }
            lemma_shifted(s, at);
            assert(picks(s, k)[i] == seq![s[0]] + with[i]);
            at
        } else {
            let rest = lemma_places_of_pick(t, k, i - with.len());
            let at = Seq::new(rest.len(), |j: int| rest[j] + 1);
            assert(shifted(at, 0) =~= rest);
            assert(ascends_within(at, s.len() as int)) by {
                assert forall|a: int, b: int| 0 <= a < b < at.len() implies at[a] < at[b] by {
                    assert(rest[a] < rest[b]);
                }
                assert forall|j: int| 0 <= j < at.len() implies 0 <= #[trigger] at[j]
                    < s.len() by {
                    assert(0 <= rest[j] < t.len());
                }
            }
            lemma_shifted(s, at);
            assert(picks(s, k)[i] == without[i - with.len()]);
            at
        }
    }
}


/// The first place of the tiles with the given code.
pub open spec fn first_place(f: Seq<MahjongTile>, c: int) -> int
    decreases f.len(),
{
    if f.len() == 0 || f[0].code() == c {
        0
    } else {
        1 + first_place(f.drop_first(), c)
    }
}

/// The first place of a code that occurs holds the code, and no place
/// before it does.
proof fn lemma_first_place(f: Seq<MahjongTile>, c: int)
    requires
        bag(f).count(c) >= 1,
    ensures
        0 <= first_place(f, c) < f.len(),
        f[first_place(f, c)].code() == c,
        forall|j: int| 0 <= j < first_place(f, c) ==> (#[trigger] f[j]).code() != c,
    decreases f.len(),
{
    broadcast use vstd::multiset::group_multiset_axioms;

    lemma_bag_contains(f, c);
    if f[0].code() != c {
        let t = f.drop_first();
        lemma_remove_split(f, 0);
        assert(f.remove(0) =~= t);
        lemma_first_place(t, c);
        assert(t[first_place(t, c)] == f[first_place(t, c) + 1]);
        assert forall|j: int| 0 <= j < first_place(f, c) implies (#[trigger] f[j]).code() != c by {
            if j > 0 {
                assert(t[j - 1] == f[j]);
            }
        }
    }
}

/// Behind the first of two tiles of a code stands the second.
proof fn lemma_second_follows(f: Seq<MahjongTile>, i: int, c: int)
    requires
        ascending(f),
        0 <= i < f.len(),
        f[i].code() == c,
        forall|j: int| 0 <= j < i ==> (#[trigger] f[j]).code() != c,
        bag(f).count(c) >= 2,
    ensures
        i + 1 < f.len(),
        f[i + 1].code() == c,
{
    broadcast use vstd::multiset::group_multiset_axioms;

    lemma_remove_split(f, i);
    let r = f.remove(i);
    if i + 1 >= f.len() || f[i + 1].code() != c {
        assert forall|j: int| 0 <= j < r.len() implies (#[trigger] r[j]).code() != c by {
            if j < i {
                assert(r[j] == f[j]);
            } else {
                assert(r[j] == f[j + 1]);
                assert(f[i + 1].code() <= f[j + 1].code());
                assert(f[i].code() <= f[i + 1].code());
            }
        }
        lemma_absent(r, c);
    }
}

/// Behind the first of three tiles of a code stand the second and the
/// third.
proof fn lemma_third_follows(f: Seq<MahjongTile>, i: int, c: int)
    requires
        ascending(f),
        0 <= i < f.len(),
        f[i].code() == c,
        forall|j: int| 0 <= j < i ==> (#[trigger] f[j]).code() != c,
        bag(f).count(c) >= 3,
    ensures
        i + 2 < f.len(),
        f[i + 1].code() == c,
        f[i + 2].code() == c,
{
    broadcast use vstd::multiset::group_multiset_axioms;

    lemma_second_follows(f, i, c);
    lemma_remove_split(f, i);
    let r = f.remove(i);
    assert(r[i] == f[i + 1]);
    assert forall|j: int| 0 <= j < i implies (#[trigger] r[j]).code() != c by {
        assert(r[j] == f[j]);
    }
    lemma_second_follows(r, i, c);
    assert(r[i + 1] == f[i + 2]);
}

/// The first places at which ascending tiles hold the tiles of a meld.
pub open spec fn least_places(f: Seq<MahjongTile>, m: Seq<MahjongTile>) -> Seq<int> {
    let i = first_place(f, m[0].code());
    if m.len() == 2 {
        seq![i, i + 1]
    } else if shape_of(m) == 1 {
        seq![i, i + 1, i + 2]
    } else {
        seq![i, first_place(f, m[1].code()), first_place(f, m[2].code())]
    }
}

/// At its first places the ascending tiles hold the tiles of the meld.
proof fn lemma_least_places(f: Seq<MahjongTile>, m: Seq<MahjongTile>)
    requires
        ascending(f),
        is_meld(m),
        bag(m).subset_of(bag(f)),
    ensures
        ascends_within(least_places(f, m), f.len() as int),
        least_places(f, m).len() == m.len(),
        same_tiles(taken(f, least_places(f, m)), m),
{
    broadcast use vstd::multiset::group_multiset_axioms;

    lemma_meld_bag(m);
    lemma_meld_codes(m);
    let c = m[0].code();
    let at = least_places(f, m);
    lemma_first_place(f, c);
    let i = first_place(f, c);
    lemma_code_identity(f[i], m[0]);
    if m.len() == 2 {
        lemma_second_follows(f, i, c);
        lemma_code_identity(f[i + 1], m[1]);
    } else if shape_of(m) == 1 {
        lemma_third_follows(f, i, c);
        lemma_code_identity(f[i + 1], m[1]);
        lemma_code_identity(f[i + 2], m[2]);
    } else {
        lemma_first_place(f, c + 1);
        lemma_first_place(f, c + 2);
        let j = first_place(f, c + 1);
        let l = first_place(f, c + 2);
        lemma_code_identity(f[j], m[1]);
        lemma_code_identity(f[l], m[2]);
        if j <= i {
            assert(f[j].code() <= f[i].code());
        }
        if l <= j {
            assert(f[l].code() <= f[j].code());
        }
    }
    assert(same_tiles(taken(f, at), m));
}

/// A meld that stands among the picks behind a meld of a higher rank stands
/// before it as well.
proof fn lemma_earlier_twin(f: Seq<MahjongTile>, k: nat, q: int, p: int) -> (e: int)
    requires
        ascending(f),
        k == 2 || k == 3,
        0 <= q < p < picks(f, k).len(),
        is_meld(picks(f, k)[q]),
        is_meld(picks(f, k)[p]),
        meld_rank(picks(f, k)[q]) > meld_rank(picks(f, k)[p]),
    ensures
        0 <= e < q,
        is_meld(picks(f, k)[e]),
        same_tiles(picks(f, k)[e], picks(f, k)[p]),
{
    let n = picks(f, k)[q];
    let m = picks(f, k)[p];
    let at_n = lemma_places_of_pick(f, k, q);
    lemma_pick(f, k, p);
    lemma_pick(f, k, q);
    lemma_least_places(f, m);
    let at_m = least_places(f, m);
    lemma_meld_first(m, 0);
    lemma_meld_first(n, 0);
    lemma_meld_codes(m);
    lemma_meld_codes(n);
    let c = m[0].code();
    assert(bag(f).count(c) >= 1) by {
        broadcast use vstd::multiset::group_multiset_axioms;

        lemma_meld_bag(m);
    }
    lemma_first_place(f, c);
    let i = first_place(f, c);
    assert(n[0] == f[at_n[0]]);
    assert(at_m[0] == i);
    assert(places_lt(at_m, at_n)) by {
        assert(at_m.len() == k && at_n.len() == k);
        if c < n[0].code() {
            if at_n[0] <= i {
                assert(f[at_n[0]].code() <= f[i].code());
            }
            assert(at_m[0] < at_n[0]);
        } else {
            assert(n[0].code() == c);
            assert(shape_of(m) < shape_of(n));
            assert(k == 3 && shape_of(m) == 1 && shape_of(n) == 2);
            if at_n[0] < i {
                assert(f[at_n[0]].code() != c);
            }
            if at_n[0] == i {
                assert(at_m =~= seq![i, i + 1, i + 2]);
                let held = taken(f, at_m);
                assert(held[1] == f[i + 1]);
                assert(held[1].same_kind(m[1]));
                lemma_code_identity(f[i + 1], m[1]);
                assert(n[1] == f[at_n[1]]);
                assert(f[i + 1].code() == c);
                if at_n[1] <= i + 1 {
                    assert(f[at_n[1]].code() <= f[i + 1].code());
                }
                let x = at_m.drop_first();
                let y = at_n.drop_first();
                assert(x[0] == i + 1);
                assert(y[0] == at_n[1]);
                assert(x[0] < y[0]);
                assert(places_lt(x, y));
            } else {
                assert(at_m[0] < at_n[0]);
            }
        }
    }
    lemma_place_ascends(f, at_m, at_n);
    lemma_place_of(f, at_m);
    let e = place_of(f, at_m);
    lemma_same_tiles(picks(f, k)[e], m);
    e
}

/// The melds of the list ascend, as melds compare.
pub open spec fn ranked(list: Seq<Seq<MahjongTile>>) -> bool {
    forall|a: int, b: int|
        0 <= a < b < list.len() ==> meld_rank(#[trigger] list[a]) < meld_rank(#[trigger] list[b])
}

/// Each meld of the list begins with a tile of a code below `bound`.
pub open spec fn codes_below(list: Seq<Seq<MahjongTile>>, bound: int) -> bool {
    forall|i: int| 0 <= i < list.len() ==> (#[trigger] list[i])[0].code() < bound
}

/// Gathering melds from the picks of ascending tiles of one suit keeps the
/// list ascending.
proof fn lemma_gather_ranked(
    found: Seq<Seq<MahjongTile>>,
    f: Seq<MahjongTile>,
    suit: Suit,
    k: nat,
    n: int,
)
    requires
        ascending(f),
        k == 2 || k == 3,
        0 <= n <= picks(f, k).len(),
        all_melds(found),
        ranked(found),
        codes_below(found, suit.index() * 256),
        forall|j: int| 0 <= j < f.len() ==> (#[trigger] f[j]).suit == suit,
    ensures
        all_melds(gather(found, picks(f, k).take(n))),
        ranked(gather(found, picks(f, k).take(n))),
        codes_below(gather(found, picks(f, k).take(n)), (suit.index() + 1) * 256),
    decreases n,
{
    let all = picks(f, k);
    let picked = all.take(n);
    let g = gather(found, picked);
    if n == 0 {
        assert(g == found);
    } else {
        let before = all.take(n - 1);
        assert(picked.drop_last() =~= before);
        let prev = gather(found, before);
        let last = all[n - 1];
        assert(picked.last() == last);
        lemma_gather_ranked(found, f, suit, k, n - 1);
        lemma_gather_keeps(found, before);
        if is_meld(last) && !listed(prev, last) {
            lemma_meld_first(last, 0);
            let at = lemma_places_of_pick(f, k, n - 1);
            assert(last[0] == f[at[0]]);
            assert forall|i: int| 0 <= i < prev.len() implies meld_rank(#[trigger] prev[i])
                < meld_rank(last) by {
                assert(is_meld(prev[i]));
                lemma_meld_first(prev[i], 0);
                if i < found.len() {
                    assert(prev[i] == found[i]);
                } else {
                    let q = lemma_gather_source(found, before, i);
                    assert(before[q] == all[q]);
                    if meld_rank(all[q]) > meld_rank(last) {
                        let e = lemma_earlier_twin(f, k, q, n - 1);
                        assert(before[e] == all[e]);
                        lemma_gather_lists(found, before, e);
                        let w = choose|w: int|
                            0 <= w < prev.len() && same_tiles(#[trigger] prev[w], all[e]);
                        lemma_same_tiles_chain(prev[w], all[e], last);
                        assert(listed(prev, last));
                    } else if meld_rank(all[q]) == meld_rank(last) {
                        lemma_rank_identity(all[q], last);
                        assert(same_tiles(prev[i], last));
                        assert(listed(prev, last));
                    }
                }
            }
            assert forall|a: int, b: int| 0 <= a < b < g.len() implies meld_rank(#[trigger] g[a])
                < meld_rank(#[trigger] g[b]) by {
                assert(g[a] == prev[a]);
                if b < prev.len() {
                    assert(g[b] == prev[b]);
                }
            }
            assert forall|i: int| 0 <= i < g.len() implies is_meld(#[trigger] g[i]) by {
                if i < prev.len() {
                    assert(g[i] == prev[i]);
                }
            }
            assert forall|i: int| 0 <= i < g.len() implies (#[trigger] g[i])[0].code() < (
            suit.index() + 1) * 256 by {
                if i < prev.len() {
                    assert(g[i] == prev[i]);
                }
            }
        }
    }
}

/// Gathering the melds of the next suit keeps the list ascending.
proof fn lemma_stage_ranked(found: Seq<Seq<MahjongTile>>, hand: Seq<MahjongTile>, suit: Suit, k: nat)
    requires
        ascending(hand),
        k == 2 || k == 3,
        all_melds(found),
        ranked(found),
        codes_below(found, suit.index() * 256),
    ensures
        all_melds(gather_suit(found, hand, suit, k)),
        ranked(gather_suit(found, hand, suit, k)),
        codes_below(gather_suit(found, hand, suit, k), (suit.index() + 1) * 256),
{
    let f = of_suit(hand, suit);
    lemma_of_suit_ascending(hand, suit);
    assert forall|j: int| 0 <= j < f.len() implies (#[trigger] f[j]).suit == suit by {
        let c = f[j].code();
        lemma_bag_contains(f, c);
        lemma_of_suit_count(hand, suit, c);
    }
    let all = picks(f, k);
    assert(all.take(all.len() as int) =~= all);
    lemma_gather_ranked(found, f, suit, k, all.len() as int);
}

/// The melds found in a hand stand in ascending order, as melds compare: by
/// suit, then by the rank of the first tile, a triplet before a run.
pub proof fn lemma_candidates_ranked(hand: Seq<MahjongTile>)
    ensures
        ranked(candidate_sets(hand)),
        ranked(candidate_pairs(hand)),
{
    let h = sorted_tiles(hand);
    lemma_sorted_tiles(hand);
    let e = Seq::<Seq<MahjongTile>>::empty();
    let a3 = gather_suit(e, h, Suit::Manzu, 3);
    let b3 = gather_suit(a3, h, Suit::Pinzu, 3);
    let c3 = gather_suit(b3, h, Suit::Souzu, 3);
    let d3 = gather_suit(c3, h, Suit::Kaze, 3);
    lemma_stage_ranked(e, h, Suit::Manzu, 3);
    lemma_stage_ranked(a3, h, Suit::Pinzu, 3);
    lemma_stage_ranked(b3, h, Suit::Souzu, 3);
    lemma_stage_ranked(c3, h, Suit::Kaze, 3);
    lemma_stage_ranked(d3, h, Suit::Sangen, 3);
    let a2 = gather_suit(e, h, Suit::Manzu, 2);
    let b2 = gather_suit(a2, h, Suit::Pinzu, 2);
    let c2 = gather_suit(b2, h, Suit::Souzu, 2);
    let d2 = gather_suit(c2, h, Suit::Kaze, 2);
    lemma_stage_ranked(e, h, Suit::Manzu, 2);
    lemma_stage_ranked(a2, h, Suit::Pinzu, 2);
    lemma_stage_ranked(b2, h, Suit::Souzu, 2);
    lemma_stage_ranked(c2, h, Suit::Kaze, 2);
    lemma_stage_ranked(d2, h, Suit::Sangen, 2);
}

} // verus!
