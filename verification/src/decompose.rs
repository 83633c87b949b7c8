//! Decompositions of a hand into melds, and the search that finds them.

use crate::hand::{
    ascending, bag, codes, lemma_bag_concat, lemma_bag_contains, lemma_bag_len, lemma_bag_push,
    lemma_bag_remove, sorted_copy,
};
use crate::melds::{is_meld, is_pair, is_run, is_triplet, lemma_melds_view, same_tiles};
use crate::tile::{lemma_code_identity, MahjongTile, Suit};
use vstd::multiset::Multiset;
use vstd::prelude::*;
use vstd::slice::slice_to_vec;

verus! {

/// The shape of a meld as a number: 0 for a pair, 1 for a triplet, 2 for a run.
pub open spec fn shape_of(m: Seq<MahjongTile>) -> int {
    if m.len() == 2 {
        0
    } else if m[0].same_kind(m[1]) {
        1
    } else {
        2
    }
}

/// The place of a meld in the order of melds: by its first tile, and among
/// melds with the same first tile the pair before the triplet before the run.
/// Melds compare by this number as their tile sequences compare.
pub open spec fn meld_rank(m: Seq<MahjongTile>) -> int {
    m[0].code() * 4 + shape_of(m)
}

/// How many of the melds are pairs.
pub open spec fn pair_count(d: Seq<Seq<MahjongTile>>) -> nat
    decreases d.len(),
{
    if d.len() == 0 {
        0
    } else if d[0].len() == 2 {
        1 + pair_count(d.drop_first())
    } else {
        pair_count(d.drop_first())
    }
}

/// The multiset of all the tiles of the melds.
pub open spec fn cover(d: Seq<Seq<MahjongTile>>) -> Multiset<int> {
    bag(d.flatten())
}

/// Every entry is a pair, a triplet or a run.
pub open spec fn all_melds(d: Seq<Seq<MahjongTile>>) -> bool {
    forall|i: int| 0 <= i < d.len() ==> is_meld(#[trigger] d[i])
}

/// The melds of `d` use each tile of the hand exactly once.
pub open spec fn is_decomposition(d: Seq<Seq<MahjongTile>>, hand: Seq<MahjongTile>) -> bool {
    all_melds(d) && cover(d) == bag(hand)
}

/// A decomposition with exactly one pair.
pub open spec fn is_standard_decomposition(
    d: Seq<Seq<MahjongTile>>,
    hand: Seq<MahjongTile>,
) -> bool {
    is_decomposition(d, hand) && pair_count(d) == 1
}

/// The melds stand in ascending order.
pub open spec fn is_canonical(d: Seq<Seq<MahjongTile>>) -> bool {
    forall|i: int, j: int| 0 <= i <= j < d.len() ==> meld_rank(d[i]) <= meld_rank(d[j])
}

/// The same melds in the same order, the bonus flags aside.
pub open spec fn same_melds(a: Seq<Seq<MahjongTile>>, b: Seq<Seq<MahjongTile>>) -> bool {
    a.len() == b.len() && forall|i: int| 0 <= i < a.len() ==> same_tiles(#[trigger] a[i], b[i])
}

/// A canonical decomposition of `rest` with `pairs` pairs whose melds are not
/// below `floor`.
pub open spec fn is_arrangement(
    d: Seq<Seq<MahjongTile>>,
    rest: Seq<MahjongTile>,
    pairs: int,
    floor: int,
) -> bool {
    &&& is_decomposition(d, rest)
    &&& pair_count(d) == pairs
    &&& is_canonical(d)
    &&& d.len() > 0 ==> floor <= meld_rank(d[0])
}

/// A meld put in front adds its tiles to those of the decomposition.
pub proof fn lemma_cover_cons(m: Seq<MahjongTile>, d: Seq<Seq<MahjongTile>>)
    ensures
        cover(seq![m] + d) == bag(m).add(cover(d)),
{
    let e = seq![m] + d;
    assert(e.drop_first() =~= d);
    assert(e.first() == m);
    lemma_bag_concat(m, d.flatten());
}

/// The tiles of a decomposition are those of its first meld and of the rest.
pub proof fn lemma_cover_unfold(d: Seq<Seq<MahjongTile>>)
    requires
        d.len() > 0,
    ensures
        cover(d) == bag(d[0]).add(cover(d.drop_first())),
{
    assert(d =~= seq![d[0]] + d.drop_first());
    lemma_cover_cons(d[0], d.drop_first());
}

/// The tiles of each meld are among the tiles of the decomposition.
pub proof fn lemma_cover_includes(d: Seq<Seq<MahjongTile>>, j: int)
    requires
        0 <= j < d.len(),
    ensures
        bag(d[j]).subset_of(cover(d)),
    decreases d.len(),
{
    broadcast use vstd::multiset::group_multiset_axioms;

    lemma_cover_unfold(d);
    if j > 0 {
        lemma_cover_includes(d.drop_first(), j - 1);
        assert(d.drop_first()[j - 1] == d[j]);
    }
}

/// A tile of the decomposition stands in one of its melds.
pub proof fn lemma_cover_find(d: Seq<Seq<MahjongTile>>, c: int) -> (at: (int, int))
    requires
        cover(d).count(c) > 0,
    ensures
        0 <= at.0 < d.len(),
        0 <= at.1 < d[at.0].len(),
        d[at.0][at.1].code() == c,
    decreases d.len(),
{
    broadcast use vstd::multiset::group_multiset_axioms;

    if d.len() == 0 {
        assert(d.flatten() =~= Seq::<MahjongTile>::empty());
        lemma_bag_len(d.flatten());
        assert(false);
        (0, 0)
    } else {
        lemma_cover_unfold(d);
        if bag(d[0]).count(c) > 0 {
            lemma_bag_contains(d[0], c);
            let p = choose|p: int| 0 <= p < d[0].len() && #[trigger] d[0][p].code() == c;
            (0, p)
        } else {
            let at = lemma_cover_find(d.drop_first(), c);
            assert(d.drop_first()[at.0] == d[at.0 + 1]);
            (at.0 + 1, at.1)
        }
    }
}

/// The multiset of a meld, tile by tile.
pub proof fn lemma_meld_bag(m: Seq<MahjongTile>)
    requires
        m.len() == 2 || m.len() == 3,
    ensures
        m.len() == 2 ==> bag(m) == Multiset::<int>::empty().insert(m[0].code()).insert(
            m[1].code(),
        ),
        m.len() == 3 ==> bag(m) == Multiset::<int>::empty().insert(m[0].code()).insert(
            m[1].code(),
        ).insert(m[2].code()),
{
    let e = Seq::<MahjongTile>::empty();
    assert(codes(e) =~= Seq::<int>::empty());
    assert(bag(e) =~= Multiset::<int>::empty()) by {
        lemma_bag_len(e);
        broadcast use vstd::multiset::group_multiset_axioms;

        assert(bag(e).len() == 0);
        vstd::multiset::lemma_multiset_empty_len(bag(e));
    }
    lemma_bag_push(e, m[0]);
    lemma_bag_push(e.push(m[0]), m[1]);
    if m.len() == 2 {
        assert(m =~= e.push(m[0]).push(m[1]));
    } else {
        lemma_bag_push(e.push(m[0]).push(m[1]), m[2]);
        assert(m =~= e.push(m[0]).push(m[1]).push(m[2]));
    }
}

/// Melds of the same tiles have the same multiset, shape and rank.
pub proof fn lemma_same_tiles(a: Seq<MahjongTile>, b: Seq<MahjongTile>)
    requires
        same_tiles(a, b),
    ensures
        codes(a) == codes(b),
        bag(a) == bag(b),
        is_meld(a) == is_meld(b),
        a.len() >= 2 ==> shape_of(a) == shape_of(b) && meld_rank(a) == meld_rank(b),
{
    assert forall|i: int| 0 <= i < a.len() implies codes(a)[i] == codes(b)[i] by {
        assert(a[i].same_kind(b[i]));
        lemma_code_identity(a[i], b[i]);
    }
    assert(codes(a) =~= codes(b));
    if a.len() >= 2 {
        assert(a[0].same_kind(b[0]));
        assert(a[1].same_kind(b[1]));
        lemma_code_identity(a[0], b[0]);
    }
    if a.len() >= 3 {
        assert(a[2].same_kind(b[2]));
    }
}


/// Whether one decomposition comes before the other: they compare meld by
/// meld, and a decomposition comes behind each that it continues.
pub open spec fn decomposition_lt(a: Seq<Seq<MahjongTile>>, b: Seq<Seq<MahjongTile>>) -> bool
    decreases a.len(),
{
    if b.len() == 0 {
        false
    } else if a.len() == 0 {
        true
    } else if meld_rank(a[0]) != meld_rank(b[0]) {
        meld_rank(a[0]) < meld_rank(b[0])
    } else {
        decomposition_lt(a.drop_first(), b.drop_first())
    }
}

/// A meld of the given shape whose first tile is of the kind of `t`.
pub open spec fn starts_with(m: Seq<MahjongTile>, t: MahjongTile, shape: int) -> bool {
    is_meld(m) && shape_of(m) == shape && m[0].same_kind(t)
}

/// Each decomposition of `subs` with `m` put in front.
pub open spec fn prefixed(m: Seq<MahjongTile>, subs: Seq<Seq<Seq<MahjongTile>>>) -> Seq<
    Seq<Seq<MahjongTile>>,
> {
    Seq::new(subs.len(), |i: int| seq![m] + subs[i])
}

/// The tiles are the tile at `i` and the others, which ascend if all do.
pub proof fn lemma_remove_split(s: Seq<MahjongTile>, i: int)
    requires
        0 <= i < s.len(),
    ensures
        bag(s) == bag(s.remove(i)).insert(s[i].code()),
        ascending(s) ==> ascending(s.remove(i)),
{
    broadcast use vstd::multiset::group_multiset_axioms;

    lemma_bag_remove(s, i);
    assert(bag(s) =~= bag(s.remove(i)).insert(s[i].code()));
    if ascending(s) {
        let r = s.remove(i);
        assert forall|a: int, b: int| 0 <= a <= b < r.len() implies r[a].code() <= r[b].code() by {
            let a2 = if a < i { a } else { a + 1 };
            let b2 = if b < i { b } else { b + 1 };
            assert(r[a] == s[a2]);
            assert(r[b] == s[b2]);
        }
    }
}

/// A code that no tile has does not occur in the multiset.
pub proof fn lemma_absent(s: Seq<MahjongTile>, c: int)
    requires
        forall|k: int| 0 <= k < s.len() ==> (#[trigger] s[k]).code() != c,
    ensures
        bag(s).count(c) == 0,
{
    lemma_bag_contains(s, c);
}

/// The first tile of a meld is its lowest.
pub proof fn lemma_meld_first(m: Seq<MahjongTile>, p: int)
    requires
        is_meld(m),
        0 <= p < m.len(),
    ensures
        m[0].code() <= m[p].code(),
        0 <= shape_of(m) <= 2,
        shape_of(m) == 0 <==> is_pair(m),
        shape_of(m) == 1 <==> is_triplet(m),
        shape_of(m) == 2 <==> is_run(m),
{
}

/// What the tiles of a meld are, given its shape and its first tile.
pub proof fn lemma_meld_codes(m: Seq<MahjongTile>)
    requires
        is_meld(m),
    ensures
        shape_of(m) == 0 ==> m.len() == 2 && m[1].code() == m[0].code(),
        shape_of(m) == 1 ==> m.len() == 3 && m[1].code() == m[0].code() && m[2].code()
            == m[0].code(),
        shape_of(m) == 2 ==> m.len() == 3 && m[1].code() == m[0].code() + 1 && m[2].code()
            == m[0].code() + 2,
{
}

/// Melds of one shape with the same first tile hold the same tiles.
pub proof fn lemma_same_start(a: Seq<MahjongTile>, b: Seq<MahjongTile>)
    requires
        is_meld(a),
        is_meld(b),
        shape_of(a) == shape_of(b),
        a[0].same_kind(b[0]),
    ensures
        same_tiles(a, b),
        bag(a) == bag(b),
{
    lemma_meld_first(a, 0);
    lemma_meld_first(b, 0);
    assert(same_tiles(a, b));
    lemma_same_tiles(a, b);
}

/// A decomposition of a hand that is not empty begins with a meld that
/// begins with the lowest tile of the hand.
proof fn lemma_head(d: Seq<Seq<MahjongTile>>, rest: Seq<MahjongTile>, pairs: int, floor: int)
    requires
        is_arrangement(d, rest, pairs, floor),
        rest.len() > 0,
        ascending(rest),
    ensures
        d.len() > 0,
        is_meld(d[0]),
        d[0][0].same_kind(rest[0]),
        0 <= shape_of(d[0]) <= 2,
        shape_of(d[0]) == 0 ==> pairs >= 1,
        floor <= meld_rank(d[0]),
        bag(d[0]).subset_of(bag(rest)),
{
    broadcast use vstd::multiset::group_multiset_axioms;

    let c = rest[0].code();
    lemma_bag_contains(rest, c);
    if d.len() == 0 {
        assert(d.flatten() =~= Seq::<MahjongTile>::empty());
        lemma_bag_len(d.flatten());
        assert(false);
    }
    let at = lemma_cover_find(d, c);
    let j = at.0;
    let p = at.1;
    lemma_meld_first(d[j], p);
    lemma_meld_first(d[j], 0);
    lemma_meld_first(d[0], 0);
    // no tile of the decomposition is below the lowest tile of the hand
    lemma_cover_includes(d, j);
    lemma_bag_contains(d[j], d[j][0].code());
    lemma_bag_contains(rest, d[j][0].code());
    lemma_cover_includes(d, 0);
    lemma_bag_contains(d[0], d[0][0].code());
    lemma_bag_contains(rest, d[0][0].code());
    assert(d[j][0].code() == c);
    assert(meld_rank(d[0]) <= meld_rank(d[j]));
    assert(d[0][0].code() == c);
    lemma_code_identity(d[0][0], rest[0]);
}

/// Without its first meld, a decomposition decomposes what is left of the hand.
proof fn lemma_tail(
    d: Seq<Seq<MahjongTile>>,
    rest: Seq<MahjongTile>,
    rem: Seq<MahjongTile>,
    pairs: int,
    floor: int,
)
    requires
        is_arrangement(d, rest, pairs, floor),
        d.len() > 0,
        bag(rest) == bag(d[0]).add(bag(rem)),
    ensures
        is_arrangement(
            d.drop_first(),
            rem,
            pairs - (if d[0].len() == 2 { 1int } else { 0int }),
            meld_rank(d[0]),
        ),
{
    broadcast use vstd::multiset::group_multiset_axioms;

    let t = d.drop_first();
    lemma_cover_unfold(d);
    assert(cover(t) =~= bag(rem)) by {
        assert forall|v: int| cover(t).count(v) == bag(rem).count(v) by {
            assert(bag(d[0]).add(cover(t)).count(v) == bag(d[0]).add(bag(rem)).count(v));
        }
    }
    assert forall|i: int| 0 <= i < t.len() implies is_meld(#[trigger] t[i]) by {
        assert(t[i] == d[i + 1]);
    }
    assert forall|i: int, j: int| 0 <= i <= j < t.len() implies meld_rank(t[i]) <= meld_rank(
        t[j],
    ) by {
        assert(t[i] == d[i + 1]);
        assert(t[j] == d[j + 1]);
    }
    if t.len() > 0 {
        assert(t[0] == d[1]);
    }
}

/// A meld put in front of a decomposition of what it leaves of the hand
/// gives a decomposition of the hand.
proof fn lemma_cons(
    m: Seq<MahjongTile>,
    sub: Seq<Seq<MahjongTile>>,
    rest: Seq<MahjongTile>,
    rem: Seq<MahjongTile>,
    pairs: int,
    floor: int,
)
    requires
        is_meld(m),
        is_arrangement(sub, rem, pairs, meld_rank(m)),
        bag(rest) == bag(m).add(bag(rem)),
        floor <= meld_rank(m),
    ensures
        is_arrangement(
            seq![m] + sub,
            rest,
            pairs + (if m.len() == 2 { 1int } else { 0int }),
            floor,
        ),
{
    let d = seq![m] + sub;
    lemma_cover_cons(m, sub);
    assert(d.drop_first() =~= sub);
    assert forall|i: int| 0 <= i < d.len() implies is_meld(#[trigger] d[i]) by {
        if i > 0 {
            assert(d[i] == sub[i - 1]);
        }
    }
    assert forall|i: int, j: int| 0 <= i <= j < d.len() implies meld_rank(d[i]) <= meld_rank(
        d[j],
    ) by {
        if j > 0 {
            assert(d[j] == sub[j - 1]);
            assert(meld_rank(sub[0]) <= meld_rank(sub[j - 1]));
            if i > 0 {
                assert(d[i] == sub[i - 1]);
            }
        }
    }
}


/// The place of the first tile of the given kind, if the tiles hold one.
pub fn position_of(tiles: &Vec<MahjongTile>, suit: Suit, value: u8) -> (r: Option<usize>)
    ensures
        match r {
            Some(i) => {
                &&& i < tiles.len()
                &&& tiles@[i as int].suit == suit
                &&& tiles@[i as int].value == value
                &&& forall|k: int|
                    0 <= k < i ==> !(tiles@[k].suit == suit && tiles@[k].value == value)
            },
            None => forall|k: int|
                0 <= k < tiles.len() ==> !(tiles@[k].suit == suit && tiles@[k].value == value),
        },
{
    let mut i: usize = 0;
    while i < tiles.len()
        invariant
            i <= tiles.len(),
            forall|k: int| 0 <= k < i ==> !(tiles@[k].suit == suit && tiles@[k].value == value),
        decreases tiles.len() - i,
    {
        if tiles[i].suit == suit && tiles[i].value == value {
            return Some(i);
        }
        i += 1;
    }
    None
}

/// The tiles are the tile at `i` and the others.
proof fn lemma_tiles_split(s: Seq<MahjongTile>, i: int)
    requires
        0 <= i < s.len(),
    ensures
        s.to_multiset() == s.remove(i).to_multiset().insert(s[i]),
{
    broadcast use vstd::multiset::group_multiset_axioms;
    broadcast use vstd::seq_lib::group_to_multiset_ensures;

    assert(s.to_multiset().count(s[i]) > 0) by {
        assert(s.contains(s[i]));
    }
    assert(s.to_multiset() =~= s.remove(i).to_multiset().insert(s[i]));
}

/// The tiles of a meld, one by one.
proof fn lemma_tiles_of(m: Seq<MahjongTile>)
    requires
        m.len() == 2 || m.len() == 3,
    ensures
        m.len() == 2 ==> m.to_multiset() == Multiset::<MahjongTile>::empty().insert(m[0]).insert(
            m[1],
        ),
        m.len() == 3 ==> m.to_multiset() == Multiset::<MahjongTile>::empty().insert(m[0]).insert(
            m[1],
        ).insert(m[2]),
{
    broadcast use vstd::multiset::group_multiset_axioms;
    broadcast use vstd::seq_lib::group_to_multiset_ensures;

    let e = Seq::<MahjongTile>::empty();
    assert(e.to_multiset() =~= Multiset::<MahjongTile>::empty()) by {
        assert(e.to_multiset().len() == 0);
        vstd::multiset::lemma_multiset_empty_len(e.to_multiset());
    }
    if m.len() == 2 {
        assert(m =~= e.push(m[0]).push(m[1]));
    } else {
        assert(m =~= e.push(m[0]).push(m[1]).push(m[2]));
    }
}

/// Takes from the ascending tiles the meld of the given shape that begins
/// with their first tile, and gives the meld and the tiles that are left; or
/// nothing, where the tiles hold no such meld.
fn take_meld(rest: &Vec<MahjongTile>, shape: u8) -> (r: Option<
    (Vec<MahjongTile>, Vec<MahjongTile>),
>)
    requires
        rest.len() > 0,
        ascending(rest@),
        shape < 3,
    ensures
        match r {
            Some((m, rem)) => {
                &&& starts_with(m@, rest@[0], shape as int)
                &&& ascending(rem@)
                &&& bag(rest@) == bag(m@).add(bag(rem@))
                &&& rest@.to_multiset() == m@.to_multiset().add(rem@.to_multiset())
                &&& rem.len() < rest.len()
            },
            None => forall|m: Seq<MahjongTile>|
                starts_with(m, rest@[0], shape as int) ==> !bag(m).subset_of(bag(rest@)),
        },
{
    broadcast use vstd::multiset::group_multiset_axioms;

    let t = rest[0];
    let ghost c = t.code();
    let mut second: usize = 1;
    let mut third: usize = 2;
    if shape == 2 {
        if !t.suit.is_series() || t.value > 253 {
            return None;
        }
        let next = position_of(rest, t.suit, t.value + 1);
        let last = position_of(rest, t.suit, t.value + 2);
        match (next, last) {
            (Some(i1), Some(i2)) => {
                second = i1;
                third = i2;
                assert(rest@[i1 as int].code() == c + 1);
                assert(rest@[i2 as int].code() == c + 2);
            },
            (None, _) => {
                proof {
                    let missing = MahjongTile {
                        suit: t.suit,
                        value: (t.value + 1) as u8,
                        is_dora: false,
                    };
                    assert forall|k: int| 0 <= k < rest@.len() implies (#[trigger] rest@[k]).code()
                        != c + 1 by {
                        lemma_code_identity(rest@[k], missing);
                    }
                    lemma_absent(rest@, c + 1);
                    assert forall|m: Seq<MahjongTile>|
                        starts_with(m, rest@[0], shape as int) implies !bag(m).subset_of(
                        bag(rest@),
                    ) by {
                        lemma_meld_codes(m);
                        lemma_code_identity(m[0], t);
                        lemma_bag_contains(m, c + 1);
                        assert(m[1].code() == c + 1);
                    }
                }
                return None;
            },
            (_, None) => {
                proof {
                    let missing = MahjongTile {
                        suit: t.suit,
                        value: (t.value + 2) as u8,
                        is_dora: false,
                    };
                    assert forall|k: int| 0 <= k < rest@.len() implies (#[trigger] rest@[k]).code()
                        != c + 2 by {
                        lemma_code_identity(rest@[k], missing);
                    }
                    lemma_absent(rest@, c + 2);
                    assert forall|m: Seq<MahjongTile>|
                        starts_with(m, rest@[0], shape as int) implies !bag(m).subset_of(
                        bag(rest@),
                    ) by {
                        lemma_meld_codes(m);
                        lemma_code_identity(m[0], t);
                        lemma_bag_contains(m, c + 2);
                        assert(m[2].code() == c + 2);
                    }
                }
                return None;
            },
        }
    } else {
        let need: usize = if shape == 0 { 2 } else { 3 };
        if rest.len() < need || rest[need - 1] != t {
            proof {
                // the tiles hold fewer than `need` tiles of this kind
                let r1 = rest@.remove(0);
                lemma_remove_split(rest@, 0);
                assert forall|m: Seq<MahjongTile>|
                    starts_with(m, rest@[0], shape as int) implies !bag(m).subset_of(
                    bag(rest@),
                ) by {
                    lemma_meld_codes(m);
                    lemma_code_identity(m[0], t);
                    lemma_meld_bag(m);
                    if need == 2 || r1.len() == 0 || r1[0].code() != c {
                        assert forall|k: int| 0 <= k < r1.len() implies (#[trigger] r1[k]).code()
                            != c by {
                            assert(r1[k] == rest@[k + 1]);
                            if need == 2 {
                                lemma_code_identity(rest@[1], t);
                            } else {
                                assert(r1[0] == rest@[1]);
                            }
                        }
                        lemma_absent(r1, c);
                        assert(bag(rest@).count(c) == 1);
                    } else {
                        let r2 = r1.remove(0);
                        lemma_remove_split(r1, 0);
                        assert forall|k: int| 0 <= k < r2.len() implies (#[trigger] r2[k]).code()
                            != c by {
                            assert(r2[k] == rest@[k + 2]);
                            lemma_code_identity(rest@[2], t);
                        }
                        lemma_absent(r2, c);
                        assert(bag(rest@).count(c) == 2);
                    }
                    assert(bag(m).count(c) >= need);
                }
            }
            return None;
        }
        proof {
            lemma_code_identity(rest@[need - 1], t);
            lemma_code_identity(rest@[1], t);
        }
    }
    assert(0 < second < rest.len());
    assert(shape != 0 ==> second < third < rest.len()) by {
        if shape == 2 && third <= second {
            assert(rest@[third as int].code() <= rest@[second as int].code());
        }
    }
    let mut m: Vec<MahjongTile> = Vec::new();
    m.push(t);
    m.push(rest[second]);
    if shape != 0 {
        m.push(rest[third]);
    }
    let mut rem = slice_to_vec(rest.as_slice());
    proof {
        lemma_meld_bag(m@);
    }
    if shape != 0 {
        proof {
            lemma_remove_split(rem@, third as int);
            lemma_tiles_split(rem@, third as int);
        }
        rem.remove(third);
    }
    proof {
        lemma_remove_split(rem@, second as int);
        lemma_tiles_split(rem@, second as int);
    }
    rem.remove(second);
    proof {
        lemma_remove_split(rem@, 0);
        lemma_tiles_split(rem@, 0);
    }
    rem.remove(0);
    proof {
        lemma_code_identity(m@[0], m@[1]);
        if shape != 0 {
            lemma_code_identity(m@[0], m@[2]);
        }
        assert(bag(rest@) =~= bag(m@).add(bag(rem@)));
        lemma_tiles_of(m@);
        assert(rest@.to_multiset() =~= m@.to_multiset().add(rem@.to_multiset()));
    }
    Some((m, rem))
}


/// Each entry of `list` is an arrangement of `rest` whose first meld has a
/// shape below `below`.
pub open spec fn listed_sound(
    list: Seq<Seq<Seq<MahjongTile>>>,
    rest: Seq<MahjongTile>,
    pairs: int,
    floor: int,
    below: int,
) -> bool {
    forall|i: int|
        0 <= i < list.len() ==> {
            &&& is_arrangement(#[trigger] list[i], rest, pairs, floor)
            &&& list[i].len() > 0 ==> shape_of(list[i][0]) < below
        }
}

/// Each arrangement of `rest` whose first meld has a shape below `below`
/// stands in `list`.
pub open spec fn listed_complete(
    list: Seq<Seq<Seq<MahjongTile>>>,
    rest: Seq<MahjongTile>,
    pairs: int,
    floor: int,
    below: int,
) -> bool {
    forall|d: Seq<Seq<MahjongTile>>|
        #![trigger is_arrangement(d, rest, pairs, floor)]
        is_arrangement(d, rest, pairs, floor) && (d.len() > 0 ==> shape_of(d[0]) < below)
            ==> exists|i: int| 0 <= i < list.len() && same_melds(#[trigger] list[i], d)
}

/// The entries of `list` stand in ascending order.
pub open spec fn listed_ordered(list: Seq<Seq<Seq<MahjongTile>>>) -> bool {
    forall|i: int, j: int|
        0 <= i < j < list.len() ==> decomposition_lt(#[trigger] list[i], #[trigger] list[j])
}

/// The melds of `d` are made of the very tiles of the hand, bonus flags
/// and all, each tile used once.
pub open spec fn uses_tiles(d: Seq<Seq<MahjongTile>>, hand: Seq<MahjongTile>) -> bool {
    d.flatten().to_multiset() == hand.to_multiset()
}

/// Each entry of `list` is made of the very tiles of `rest`.
pub open spec fn listed_exact(list: Seq<Seq<Seq<MahjongTile>>>, rest: Seq<MahjongTile>) -> bool {
    forall|i: int| 0 <= i < list.len() ==> uses_tiles(#[trigger] list[i], rest)
}

/// `list` holds, in ascending order and each once, the arrangements of
/// `rest` whose first meld has a shape below `below`.
pub open spec fn lists_arrangements(
    list: Seq<Seq<Seq<MahjongTile>>>,
    rest: Seq<MahjongTile>,
    pairs: int,
    floor: int,
    below: int,
) -> bool {
    &&& listed_sound(list, rest, pairs, floor, below)
    &&& listed_complete(list, rest, pairs, floor, below)
    &&& listed_ordered(list)
}

/// Nothing but the empty decomposition decomposes the empty hand.
proof fn lemma_empty_rest(d: Seq<Seq<MahjongTile>>, rest: Seq<MahjongTile>)
    requires
        is_decomposition(d, rest),
        rest.len() == 0,
    ensures
        d.len() == 0,
{
    if d.len() > 0 {
        lemma_cover_includes(d, 0);
        lemma_bag_contains(d[0], d[0][0].code());
        lemma_absent(rest, d[0][0].code());
    }
}

/// Where no arrangement begins with a meld of the shape, the list is
/// complete for the next shape too.
proof fn lemma_extend_none(
    list: Seq<Seq<Seq<MahjongTile>>>,
    rest: Seq<MahjongTile>,
    pairs: int,
    floor: int,
    shape: int,
)
    requires
        lists_arrangements(list, rest, pairs, floor, shape),
        forall|d: Seq<Seq<MahjongTile>>|
            is_arrangement(d, rest, pairs, floor) && d.len() > 0 ==> shape_of(d[0]) != shape,
    ensures
        lists_arrangements(list, rest, pairs, floor, shape + 1),
{
}

/// Without its first meld, an arrangement that begins with a meld of the
/// tiles of `m` arranges what `m` leaves.
proof fn lemma_tail_after(
    d: Seq<Seq<MahjongTile>>,
    rest: Seq<MahjongTile>,
    rem: Seq<MahjongTile>,
    pairs: int,
    floor: int,
    shape: int,
    m: Seq<MahjongTile>,
)
    requires
        rest.len() > 0,
        ascending(rest),
        starts_with(m, rest[0], shape),
        bag(rest) == bag(m).add(bag(rem)),
        shape == 0 ==> pairs == 1,
        is_arrangement(d, rest, pairs, floor),
        d.len() > 0,
        shape_of(d[0]) == shape,
    ensures
        is_arrangement(d.drop_first(), rem, if shape == 0 { 0 } else { pairs }, meld_rank(m)),
        same_tiles(m, d[0]),
{
    lemma_head(d, rest, pairs, floor);
    lemma_meld_first(m, 0);
    lemma_meld_first(d[0], 0);
    lemma_same_start(d[0], m);
    lemma_same_start(m, d[0]);
    lemma_same_tiles(d[0], m);
    lemma_tail(d, rest, rem, pairs, floor);
}

/// A decomposition has the melds of its first meld and of its rest.
proof fn lemma_rebuild(m: Seq<MahjongTile>, sub: Seq<Seq<MahjongTile>>, d: Seq<Seq<MahjongTile>>)
    requires
        d.len() > 0,
        same_tiles(m, d[0]),
        same_melds(sub, d.drop_first()),
    ensures
        same_melds(seq![m] + sub, d),
{
    let e = seq![m] + sub;
    let t = d.drop_first();
    assert forall|x: int| 0 <= x < e.len() implies same_tiles(#[trigger] e[x], d[x]) by {
        if x > 0 {
            assert(e[x] == sub[x - 1]);
            assert(d[x] == t[x - 1]);
            assert(same_tiles(sub[x - 1], t[x - 1]));
        }
    }
}

/// The first meld of a decomposition has one of the three shapes.
proof fn lemma_shape_below(d: Seq<Seq<MahjongTile>>)
    requires
        all_melds(d),
    ensures
        d.len() > 0 ==> 0 <= shape_of(d[0]) < 3,
{
    if d.len() > 0 {
        lemma_meld_first(d[0], 0);
    }
}

/// An arrangement whose first meld has a lower shape comes first.
proof fn lemma_order_across(
    x: Seq<Seq<MahjongTile>>,
    y: Seq<Seq<MahjongTile>>,
    rest: Seq<MahjongTile>,
    pairs: int,
    floor: int,
    shape: int,
    m: Seq<MahjongTile>,
)
    requires
        rest.len() > 0,
        ascending(rest),
        is_arrangement(x, rest, pairs, floor),
        x.len() > 0 ==> shape_of(x[0]) < shape,
        starts_with(m, rest[0], shape),
    ensures
        decomposition_lt(x, seq![m] + y),
{
    lemma_head(x, rest, pairs, floor);
    lemma_code_identity(x[0][0], rest[0]);
    lemma_code_identity(m[0], rest[0]);
    let e = seq![m] + y;
    assert(e[0] == m);
    assert(meld_rank(x[0]) < meld_rank(e[0]));
}

/// The same meld in front keeps the order.
proof fn lemma_order_within(
    m: Seq<MahjongTile>,
    a: Seq<Seq<MahjongTile>>,
    b: Seq<Seq<MahjongTile>>,
)
    requires
        decomposition_lt(a, b),
    ensures
        decomposition_lt(seq![m] + a, seq![m] + b),
{
    let x = seq![m] + a;
    let y = seq![m] + b;
    assert(x[0] == m);
    assert(y[0] == m);
    assert(x.drop_first() =~= a);
    assert(y.drop_first() =~= b);
}

/// The extended list is in ascending order.
proof fn lemma_extend_ordered(
    list: Seq<Seq<Seq<MahjongTile>>>,
    rest: Seq<MahjongTile>,
    pairs: int,
    floor: int,
    shape: int,
    m: Seq<MahjongTile>,
    subs: Seq<Seq<Seq<MahjongTile>>>,
    i: int,
    j: int,
)
    requires
        rest.len() > 0,
        ascending(rest),
        starts_with(m, rest[0], shape),
        0 <= i < j < list.len() + subs.len(),
        j < list.len() ==> decomposition_lt(list[i], list[j]),
        i < list.len() ==> is_arrangement(list[i], rest, pairs, floor) && (list[i].len() > 0
            ==> shape_of(list[i][0]) < shape),
        i >= list.len() ==> decomposition_lt(subs[i - list.len()], subs[j - list.len()]),
    ensures
        decomposition_lt((list + prefixed(m, subs))[i], (list + prefixed(m, subs))[j]),
{
    let all = list + prefixed(m, subs);
    if j < list.len() {
        assert(all[i] == list[i]);
        assert(all[j] == list[j]);
    } else {
        let b = j - list.len();
        assert(all[j] == seq![m] + subs[b]);
        if i < list.len() {
            assert(all[i] == list[i]);
            lemma_order_across(list[i], subs[b], rest, pairs, floor, shape, m);
        } else {
            let a = i - list.len();
            assert(all[i] == seq![m] + subs[a]);
            lemma_order_within(m, subs[a], subs[b]);
        }
    }
}

/// Each entry of the extended list is an arrangement.
proof fn lemma_extend_all_sound(
    list: Seq<Seq<Seq<MahjongTile>>>,
    rest: Seq<MahjongTile>,
    pairs: int,
    floor: int,
    shape: int,
    m: Seq<MahjongTile>,
    rem: Seq<MahjongTile>,
    subs: Seq<Seq<Seq<MahjongTile>>>,
)
    requires
        listed_sound(list, rest, pairs, floor, shape),
        starts_with(m, rest[0], shape),
        bag(rest) == bag(m).add(bag(rem)),
        floor <= meld_rank(m),
        shape == 0 ==> pairs == 1,
        listed_sound(subs, rem, if shape == 0 { 0 } else { pairs }, meld_rank(m), 3),
    ensures
        listed_sound(list + prefixed(m, subs), rest, pairs, floor, shape + 1),
{
    let all = list + prefixed(m, subs);
    let sub_pairs = if shape == 0 { 0 } else { pairs };
    lemma_meld_first(m, 0);
    assert forall|i: int| 0 <= i < all.len() implies {
        &&& is_arrangement(#[trigger] all[i], rest, pairs, floor)
        &&& all[i].len() > 0 ==> shape_of(all[i][0]) < shape + 1
    } by {
        if i >= list.len() {
            let k = i - list.len();
            assert(all[i] == seq![m] + subs[k]);
            assert(is_arrangement(subs[k], rem, sub_pairs, meld_rank(m)));
            lemma_cons(m, subs[k], rest, rem, sub_pairs, floor);
            assert(all[i][0] == m);
        } else {
            assert(all[i] == list[i]);
            assert(is_arrangement(list[i], rest, pairs, floor));
        }
    }
}

/// Each arrangement whose first meld has the new shape or a lower one
/// stands in the extended list.
proof fn lemma_extend_all_complete(
    list: Seq<Seq<Seq<MahjongTile>>>,
    rest: Seq<MahjongTile>,
    pairs: int,
    floor: int,
    shape: int,
    m: Seq<MahjongTile>,
    rem: Seq<MahjongTile>,
    subs: Seq<Seq<Seq<MahjongTile>>>,
)
    requires
        rest.len() > 0,
        ascending(rest),
        listed_complete(list, rest, pairs, floor, shape),
        starts_with(m, rest[0], shape),
        bag(rest) == bag(m).add(bag(rem)),
        shape == 0 ==> pairs == 1,
        listed_complete(subs, rem, if shape == 0 { 0 } else { pairs }, meld_rank(m), 3),
    ensures
        listed_complete(list + prefixed(m, subs), rest, pairs, floor, shape + 1),
{
    let all = list + prefixed(m, subs);
    let sub_pairs = if shape == 0 { 0 } else { pairs };
    assert forall|d: Seq<Seq<MahjongTile>>|
        #![trigger is_arrangement(d, rest, pairs, floor)]
        is_arrangement(d, rest, pairs, floor) && (d.len() > 0 ==> shape_of(d[0]) < shape + 1)
        implies exists|i: int| 0 <= i < all.len() && same_melds(#[trigger] all[i], d) by {
        lemma_head(d, rest, pairs, floor);
        if shape_of(d[0]) < shape {
            let i = choose|i: int| 0 <= i < list.len() && same_melds(#[trigger] list[i], d);
            assert(all[i] == list[i]);
        } else {
            lemma_tail_after(d, rest, rem, pairs, floor, shape, m);
            let t = d.drop_first();
            lemma_shape_below(t);
            assert(is_arrangement(t, rem, sub_pairs, meld_rank(m)));
            let k = choose|k: int| 0 <= k < subs.len() && same_melds(#[trigger] subs[k], t);
            lemma_rebuild(m, subs[k], d);
            let i = list.len() + k;
            assert(all[i] == seq![m] + subs[k]);
        }
    }
}

/// The extended list is in ascending order.
proof fn lemma_extend_all_ordered(
    list: Seq<Seq<Seq<MahjongTile>>>,
    rest: Seq<MahjongTile>,
    pairs: int,
    floor: int,
    shape: int,
    m: Seq<MahjongTile>,
    subs: Seq<Seq<Seq<MahjongTile>>>,
)
    requires
        rest.len() > 0,
        ascending(rest),
        listed_sound(list, rest, pairs, floor, shape),
        listed_ordered(list),
        starts_with(m, rest[0], shape),
        listed_ordered(subs),
    ensures
        listed_ordered(list + prefixed(m, subs)),
{
    let all = list + prefixed(m, subs);
    assert forall|i: int, j: int| 0 <= i < j < all.len() implies decomposition_lt(
        #[trigger] all[i],
        #[trigger] all[j],
    ) by {
        if j < list.len() {
            assert(decomposition_lt(list[i], list[j]));
        }
        if i < list.len() {
            assert(is_arrangement(list[i], rest, pairs, floor));
        } else {
            assert(decomposition_lt(subs[i - list.len()], subs[j - list.len()]));
        }
        lemma_extend_ordered(list, rest, pairs, floor, shape, m, subs, i, j);
    }
}

/// The list extended by the arrangements that begin with the meld lists
/// the arrangements up to the shape of the meld.
proof fn lemma_extend_some(
    list: Seq<Seq<Seq<MahjongTile>>>,
    rest: Seq<MahjongTile>,
    pairs: int,
    floor: int,
    shape: int,
    m: Seq<MahjongTile>,
    rem: Seq<MahjongTile>,
    subs: Seq<Seq<Seq<MahjongTile>>>,
)
    requires
        rest.len() > 0,
        ascending(rest),
        lists_arrangements(list, rest, pairs, floor, shape),
        starts_with(m, rest[0], shape),
        bag(rest) == bag(m).add(bag(rem)),
        floor <= meld_rank(m),
        shape == 0 ==> pairs == 1,
        lists_arrangements(subs, rem, if shape == 0 { 0 } else { pairs }, meld_rank(m), 3),
    ensures
        lists_arrangements(list + prefixed(m, subs), rest, pairs, floor, shape + 1),
{
    lemma_extend_all_sound(list, rest, pairs, floor, shape, m, rem, subs);
    lemma_extend_all_complete(list, rest, pairs, floor, shape, m, rem, subs);
    lemma_extend_all_ordered(list, rest, pairs, floor, shape, m, subs);
}

/// Putting a meld in front of decompositions made of the tiles that it
/// leaves gives decompositions made of all the tiles.
proof fn lemma_extend_exact(
    list: Seq<Seq<Seq<MahjongTile>>>,
    rest: Seq<MahjongTile>,
    m: Seq<MahjongTile>,
    rem: Seq<MahjongTile>,
    subs: Seq<Seq<Seq<MahjongTile>>>,
)
    requires
        listed_exact(list, rest),
        listed_exact(subs, rem),
        rest.to_multiset() == m.to_multiset().add(rem.to_multiset()),
    ensures
        listed_exact(list + prefixed(m, subs), rest),
{
    let all = list + prefixed(m, subs);
    assert forall|i: int| 0 <= i < all.len() implies uses_tiles(#[trigger] all[i], rest) by {
        if i < list.len() {
            assert(all[i] == list[i]);
        } else {
            let k = i - list.len();
            let d = seq![m] + subs[k];
            assert(all[i] == d);
            assert(uses_tiles(subs[k], rem));
            assert(d.drop_first() =~= subs[k]);
            assert(d.first() == m);
            vstd::seq_lib::lemma_multiset_commutative(m, subs[k].flatten());
        }
    }
}

/// A copy of the decomposition with the meld put in front.
fn with_first(m: &Vec<MahjongTile>, d: &Vec<Vec<MahjongTile>>) -> (r: Vec<Vec<MahjongTile>>)
    ensures
        r.deep_view() == seq![m@] + d.deep_view(),
{
    let mut r: Vec<Vec<MahjongTile>> = Vec::new();
    r.push(slice_to_vec(m.as_slice()));
    let mut i: usize = 0;
    proof {
        lemma_melds_view(&r);
        assert(r.deep_view() =~= seq![m@] + d.deep_view().take(0));
    }
    while i < d.len()
        invariant
            i <= d.len(),
            r.deep_view() == seq![m@] + d.deep_view().take(i as int),
        decreases d.len() - i,
    {
        let ghost before = r;
        r.push(slice_to_vec(d[i].as_slice()));
        proof {
            lemma_melds_view(&before);
            lemma_melds_view(&r);
            lemma_melds_view(d);
            assert(r.deep_view() =~= before.deep_view().push(d@[i as int]@));
            assert(d.deep_view().take(i + 1) =~= d.deep_view().take(i as int).push(d@[i as int]@));
            assert(r.deep_view() =~= seq![m@] + d.deep_view().take(i + 1));
        }
        i += 1;
    }
    assert(d.deep_view().take(i as int) =~= d.deep_view());
    r
}

/// Adds to `out` each decomposition of `subs` with the meld put in front.
fn prepend_all(
    m: &Vec<MahjongTile>,
    subs: &Vec<Vec<Vec<MahjongTile>>>,
    out: &mut Vec<Vec<Vec<MahjongTile>>>,
)
    ensures
        final(out).deep_view() == old(out).deep_view() + prefixed(m@, subs.deep_view()),
{
    let mut i: usize = 0;
    assert(out.deep_view() =~= old(out).deep_view() + prefixed(m@, subs.deep_view().take(0)));
    while i < subs.len()
        invariant
            i <= subs.len(),
            out.deep_view() == old(out).deep_view() + prefixed(
                m@,
                subs.deep_view().take(i as int),
            ),
        decreases subs.len() - i,
    {
        let ghost before = out.deep_view();
        let d = with_first(m, &subs[i]);
        out.push(d);
        proof {
            assert(out.deep_view() =~= before.push(d.deep_view()));
            assert(subs.deep_view()[i as int] =~= subs@[i as int].deep_view());
            assert(prefixed(m@, subs.deep_view().take(i + 1)) =~= prefixed(
                m@,
                subs.deep_view().take(i as int),
            ).push(seq![m@] + subs.deep_view()[i as int]));
        }
        i += 1;
    }
    assert(subs.deep_view().take(i as int) =~= subs.deep_view());
}

/// All arrangements of the ascending tiles, in ascending order.
fn arrangements(rest: &Vec<MahjongTile>, need_pair: bool, floor: u16) -> (res: Vec<
    Vec<Vec<MahjongTile>>,
>)
    requires
        ascending(rest@),
    ensures
        lists_arrangements(
            res.deep_view(),
            rest@,
            if need_pair { 1 } else { 0 },
            floor as int,
            3,
        ),
        listed_exact(res.deep_view(), rest@),
    decreases rest.len(),
{
    let ghost pairs: int = if need_pair { 1 } else { 0 };
    let mut out: Vec<Vec<Vec<MahjongTile>>> = Vec::new();
    if rest.len() == 0 {
        if !need_pair {
            out.push(Vec::new());
        }
        proof {
            let list = out.deep_view();
            let none = Seq::<Seq<MahjongTile>>::empty();
            assert(none.flatten() =~= Seq::<MahjongTile>::empty());
            assert(rest@ =~= Seq::<MahjongTile>::empty());
            if !need_pair {
                assert(list[0] =~= none);
                assert(is_arrangement(list[0], rest@, pairs, floor as int));
                assert(uses_tiles(list[0], rest@));
            }
            assert forall|d: Seq<Seq<MahjongTile>>|
                is_arrangement(d, rest@, pairs, floor as int) implies exists|i: int|
                0 <= i < list.len() && same_melds(#[trigger] list[i], d) by {
                lemma_empty_rest(d, rest@);
                assert(same_melds(list[0], d));
            }
        }
        return out;
    }
    let base: u16 = rest[0].sort_key() * 4;
    let mut shape: u8 = 0;
    proof {
        assert(out.deep_view() =~= Seq::<Seq<Seq<MahjongTile>>>::empty());
        assert forall|d: Seq<Seq<MahjongTile>>|
            is_arrangement(d, rest@, pairs, floor as int) implies d.len() > 0 && shape_of(d[0])
            >= 0 by {
            lemma_head(d, rest@, pairs, floor as int);
        }
    }
    while shape < 3
        invariant
            shape <= 3,
            rest.len() > 0,
            ascending(rest@),
            base == rest@[0].code() * 4,
            pairs == (if need_pair { 1int } else { 0int }),
            lists_arrangements(out.deep_view(), rest@, pairs, floor as int, shape as int),
            listed_exact(out.deep_view(), rest@),
        decreases 3 - shape,
    {
        let rank: u16 = base + shape as u16;
        let ghost before = out.deep_view();
        let mut extended = false;
        if (shape != 0 || need_pair) && rank >= floor {
            match take_meld(rest, shape) {
                Some((m, rem)) => {
                    proof {
                        lemma_code_identity(m@[0], rest@[0]);
                    }
                    let subs = arrangements(&rem, need_pair && shape != 0, rank);
                    prepend_all(&m, &subs, &mut out);
                    proof {
                        lemma_extend_some(
                            before,
                            rest@,
                            pairs,
                            floor as int,
                            shape as int,
                            m@,
                            rem@,
                            subs.deep_view(),
                        );
                        lemma_extend_exact(before, rest@, m@, rem@, subs.deep_view());
                    }
                    extended = true;
                },
                None => {
                    proof {
                        assert forall|d: Seq<Seq<MahjongTile>>|
                            is_arrangement(d, rest@, pairs, floor as int) && d.len()
                                > 0 implies shape_of(d[0]) != shape by {
                            lemma_head(d, rest@, pairs, floor as int);
                            if shape_of(d[0]) == shape {
                                assert(starts_with(d[0], rest@[0], shape as int));
                            }
                        }
                    }
                },
            }
        } else {
            proof {
                assert forall|d: Seq<Seq<MahjongTile>>|
                    is_arrangement(d, rest@, pairs, floor as int) && d.len() > 0 implies shape_of(
                    d[0],
                ) != shape by {
                    lemma_head(d, rest@, pairs, floor as int);
                    lemma_code_identity(d[0][0], rest@[0]);
                }
            }
        }
        proof {
            if !extended {
                lemma_extend_none(before, rest@, pairs, floor as int, shape as int);
            }
        }
        shape += 1;
    }
    out
}


/// Whether the hand can be decomposed into melds with exactly one pair.
pub open spec fn has_standard_decomposition(hand: Seq<MahjongTile>) -> bool {
    exists|d: Seq<Seq<MahjongTile>>| is_standard_decomposition(d, hand)
}

/// The meld `m` put into the canonical `d` at its place.
pub open spec fn insert_meld(d: Seq<Seq<MahjongTile>>, m: Seq<MahjongTile>) -> Seq<
    Seq<MahjongTile>,
>
    decreases d.len(),
{
    if d.len() == 0 || meld_rank(m) <= meld_rank(d[0]) {
        seq![m] + d
    } else {
        seq![d[0]] + insert_meld(d.drop_first(), m)
    }
}

/// The melds of `d` in ascending order.
pub open spec fn canonical_form(d: Seq<Seq<MahjongTile>>) -> Seq<Seq<MahjongTile>>
    decreases d.len(),
{
    if d.len() == 0 {
        d
    } else {
        insert_meld(canonical_form(d.drop_first()), d[0])
    }
}

/// What `insert_meld` gives: a canonical list with the meld added.
proof fn lemma_insert_meld(d: Seq<Seq<MahjongTile>>, m: Seq<MahjongTile>)
    requires
        is_canonical(d),
    ensures
        is_canonical(insert_meld(d, m)),
        cover(insert_meld(d, m)) == bag(m).add(cover(d)),
        pair_count(insert_meld(d, m)) == pair_count(d) + (if m.len() == 2 { 1nat } else { 0nat }),
        all_melds(d) && is_meld(m) ==> all_melds(insert_meld(d, m)),
        insert_meld(d, m).len() == d.len() + 1,
        forall|i: int|
            0 <= i < insert_meld(d, m).len() ==> (#[trigger] insert_meld(d, m)[i]) == m
                || d.contains(insert_meld(d, m)[i]),
    decreases d.len(),
{
    broadcast use vstd::multiset::group_multiset_axioms;

    let r = insert_meld(d, m);
    if d.len() == 0 || meld_rank(m) <= meld_rank(d[0]) {
        lemma_cover_cons(m, d);
        assert(r.drop_first() =~= d);
        assert(r[0] == m);
        assert forall|i: int| 0 <= i < r.len() implies (#[trigger] r[i]) == m || d.contains(
            r[i],
        ) by {
            if i > 0 {
                assert(r[i] == d[i - 1]);
            }
        }
        assert forall|i: int, j: int| 0 <= i <= j < r.len() implies meld_rank(r[i]) <= meld_rank(
            r[j],
        ) by {
            if j > 0 {
                assert(r[j] == d[j - 1]);
                if i > 0 {
                    assert(r[i] == d[i - 1]);
                }
            }
        }
        if all_melds(d) && is_meld(m) {
            assert forall|i: int| 0 <= i < r.len() implies is_meld(#[trigger] r[i]) by {
                if i > 0 {
                    assert(r[i] == d[i - 1]);
                }
            }
        }
    } else {
        let t = d.drop_first();
        assert forall|i: int, j: int| 0 <= i <= j < t.len() implies meld_rank(t[i]) <= meld_rank(
            t[j],
        ) by {
            assert(t[i] == d[i + 1]);
            assert(t[j] == d[j + 1]);
        }
        lemma_insert_meld(t, m);
        let u = insert_meld(t, m);
        lemma_cover_cons(d[0], u);
        lemma_cover_unfold(d);
        assert(cover(r) =~= bag(m).add(cover(d)));
        assert(r.drop_first() =~= u);
        assert(r[0] == d[0]);
        assert forall|i: int| 0 <= i < r.len() implies (#[trigger] r[i]) == m || d.contains(
            r[i],
        ) by {
            if i > 0 {
                assert(r[i] == u[i - 1]);
                if u[i - 1] != m {
                    let k = choose|k: int| 0 <= k < t.len() && t[k] == u[i - 1];
                    assert(d[k + 1] == r[i]);
                }
            } else {
                assert(d[0] == r[0]);
            }
        }
        assert forall|i: int, j: int| 0 <= i <= j < r.len() implies meld_rank(r[i]) <= meld_rank(
            r[j],
        ) by {
            if j > 0 {
                assert(r[j] == u[j - 1]);
                if i > 0 {
                    assert(r[i] == u[i - 1]);
                } else {
                    if u[j - 1] != m {
                        let k = choose|k: int| 0 <= k < t.len() && t[k] == u[j - 1];
                        assert(d[k + 1] == r[j]);
                    }
                }
            }
        }
        if all_melds(d) && is_meld(m) {
            assert forall|i: int| 0 <= i < t.len() implies is_meld(#[trigger] t[i]) by {
                assert(t[i] == d[i + 1]);
            }
            assert forall|i: int| 0 <= i < r.len() implies is_meld(#[trigger] r[i]) by {
                if i > 0 {
                    assert(r[i] == u[i - 1]);
                }
            }
        }
    }
}

/// Putting the melds of a decomposition in ascending order gives a canonical
/// decomposition of the same hand with as many pairs.
pub proof fn lemma_canonical_form(d: Seq<Seq<MahjongTile>>)
    ensures
        is_canonical(canonical_form(d)),
        cover(canonical_form(d)) == cover(d),
        pair_count(canonical_form(d)) == pair_count(d),
        all_melds(d) ==> all_melds(canonical_form(d)),
        canonical_form(d).len() == d.len(),
    decreases d.len(),
{
    if d.len() > 0 {
        let t = d.drop_first();
        lemma_canonical_form(t);
        lemma_insert_meld(canonical_form(t), d[0]);
        lemma_cover_unfold(d);
        if all_melds(d) {
            assert forall|i: int| 0 <= i < t.len() implies is_meld(#[trigger] t[i]) by {
                assert(t[i] == d[i + 1]);
            }
        }
    }
}

/// Melds of the same tiles do not come before one another.
pub proof fn lemma_same_melds_not_lt(a: Seq<Seq<MahjongTile>>, b: Seq<Seq<MahjongTile>>)
    requires
        same_melds(a, b),
        all_melds(a),
    ensures
        !decomposition_lt(a, b),
        !decomposition_lt(b, a),
    decreases a.len(),
{
    if a.len() > 0 {
        assert(same_tiles(a[0], b[0]));
        assert(is_meld(a[0]));
        lemma_same_tiles(a[0], b[0]);
        let x = a.drop_first();
        let y = b.drop_first();
        assert forall|i: int| 0 <= i < x.len() implies same_tiles(#[trigger] x[i], y[i]) by {
            assert(x[i] == a[i + 1]);
            assert(y[i] == b[i + 1]);
        }
        assert forall|i: int| 0 <= i < x.len() implies is_meld(#[trigger] x[i]) by {
            assert(x[i] == a[i + 1]);
        }
        lemma_same_melds_not_lt(x, y);
    }
}

/// The order of decompositions does not tell melds of the same tiles apart.
pub proof fn lemma_lt_same_melds(
    a: Seq<Seq<MahjongTile>>,
    b: Seq<Seq<MahjongTile>>,
    c: Seq<Seq<MahjongTile>>,
)
    requires
        decomposition_lt(a, b),
        same_melds(b, c),
        all_melds(b),
    ensures
        decomposition_lt(a, c),
    decreases a.len(),
{
    if a.len() > 0 {
        assert(same_tiles(b[0], c[0]));
        assert(is_meld(b[0]));
        lemma_same_tiles(b[0], c[0]);
        if meld_rank(a[0]) == meld_rank(b[0]) {
            let y = b.drop_first();
            let z = c.drop_first();
            assert forall|i: int| 0 <= i < y.len() implies same_tiles(#[trigger] y[i], z[i]) by {
                assert(y[i] == b[i + 1]);
                assert(z[i] == c[i + 1]);
            }
            assert forall|i: int| 0 <= i < y.len() implies is_meld(#[trigger] y[i]) by {
                assert(y[i] == b[i + 1]);
            }
            lemma_lt_same_melds(a.drop_first(), y, z);
        }
    }
}

/// Of two decompositions, at most one comes before the other.
pub proof fn lemma_lt_asymmetric(a: Seq<Seq<MahjongTile>>, b: Seq<Seq<MahjongTile>>)
    requires
        decomposition_lt(a, b),
    ensures
        !decomposition_lt(b, a),
    decreases a.len(),
{
    if a.len() > 0 && b.len() > 0 && meld_rank(a[0]) == meld_rank(b[0]) {
        lemma_lt_asymmetric(a.drop_first(), b.drop_first());
    }
}

/// A canonical decomposition of the hand with one pair is an arrangement
/// of the sorted hand.
proof fn lemma_standard_is_arrangement(
    d: Seq<Seq<MahjongTile>>,
    sorted: Seq<MahjongTile>,
    hand: Seq<MahjongTile>,
)
    requires
        bag(sorted) == bag(hand),
        is_standard_decomposition(d, hand),
        is_canonical(d),
    ensures
        is_arrangement(d, sorted, 1, 0),
        d.len() > 0 ==> shape_of(d[0]) < 3,
{
    lemma_shape_below(d);
    if d.len() > 0 {
        lemma_meld_first(d[0], 0);
        assert(d[0][0].code() >= 0);
    }
}

/// A hand with a decomposition has a canonical one.
pub proof fn lemma_has_canonical(hand: Seq<MahjongTile>) -> (c: Seq<Seq<MahjongTile>>)
    requires
        has_standard_decomposition(hand),
    ensures
        is_standard_decomposition(c, hand),
        is_canonical(c),
{
    let d = choose|d: Seq<Seq<MahjongTile>>| is_standard_decomposition(d, hand);
    lemma_canonical_form(d);
    canonical_form(d)
}

/// The arrangements of the sorted hand are the canonical decompositions
/// of the hand with one pair.
proof fn lemma_lists_standard(
    list: Seq<Seq<Seq<MahjongTile>>>,
    sorted: Seq<MahjongTile>,
    hand: Seq<MahjongTile>,
)
    requires
        bag(sorted) == bag(hand),
        lists_arrangements(list, sorted, 1, 0, 3),
    ensures
        forall|i: int|
            0 <= i < list.len() ==> is_standard_decomposition(#[trigger] list[i], hand)
                && is_canonical(list[i]),
        forall|d: Seq<Seq<MahjongTile>>|
            is_standard_decomposition(d, hand) && is_canonical(d) ==> exists|i: int|
                0 <= i < list.len() && same_melds(#[trigger] list[i], d),
        forall|i: int, j: int|
            0 <= i < j < list.len() ==> decomposition_lt(#[trigger] list[i], #[trigger] list[j]),
        list.len() > 0 <==> has_standard_decomposition(hand),
{
    assert forall|i: int| 0 <= i < list.len() implies is_standard_decomposition(
        #[trigger] list[i],
        hand,
    ) && is_canonical(list[i]) by {
        assert(is_arrangement(list[i], sorted, 1, 0));
    }
    assert forall|d: Seq<Seq<MahjongTile>>|
        is_standard_decomposition(d, hand) && is_canonical(d) implies exists|i: int|
        0 <= i < list.len() && same_melds(#[trigger] list[i], d) by {
        lemma_standard_is_arrangement(d, sorted, hand);
    }
    if list.len() > 0 {
        assert(is_standard_decomposition(list[0], hand));
    }
    if has_standard_decomposition(hand) {
        let c = lemma_has_canonical(hand);
        lemma_standard_is_arrangement(c, sorted, hand);
    }
}

/// All decompositions of the hand into melds with exactly one pair: each
/// once, its melds in ascending order, the decompositions in ascending order.
/// The melds of each are made of the very tiles of the hand.
pub fn decompose(hand: &[MahjongTile]) -> (res: Vec<Vec<Vec<MahjongTile>>>)
    ensures
        forall|i: int|
            0 <= i < res.len() ==> is_standard_decomposition(#[trigger] res.deep_view()[i], hand@)
                && is_canonical(res.deep_view()[i]),
        forall|d: Seq<Seq<MahjongTile>>|
            is_standard_decomposition(d, hand@) && is_canonical(d) ==> exists|i: int|
                0 <= i < res.len() && same_melds(#[trigger] res.deep_view()[i], d),
        forall|i: int, j: int|
            0 <= i < j < res.len() ==> decomposition_lt(
                #[trigger] res.deep_view()[i],
                #[trigger] res.deep_view()[j],
            ),
        res.len() > 0 <==> has_standard_decomposition(hand@),
        forall|i: int| 0 <= i < res.len() ==> uses_tiles(#[trigger] res.deep_view()[i], hand@),
{
    let sorted = sorted_copy(hand);
    let res = arrangements(&sorted, true, 0);
    proof {
        lemma_lists_standard(res.deep_view(), sorted@, hand@);
        assert forall|i: int| 0 <= i < res.len() implies uses_tiles(
            #[trigger] res.deep_view()[i],
            hand@,
        ) by {
            assert(uses_tiles(res.deep_view()[i], sorted@));
        }
    }
    res
}

/// The canonical decomposition of a complete hand: of its decompositions
/// into melds with exactly one pair, each with its melds in ascending
/// order, the one that comes first.
pub fn construct_unique_meld_set(hand: &[MahjongTile]) -> (res: Vec<Vec<MahjongTile>>)
    requires
        has_standard_decomposition(hand@),
    ensures
        is_unique_meld_set(res.deep_view(), hand@),
        uses_tiles(res.deep_view(), hand@),
{
    let mut all = decompose(hand);
    let ghost list = all.deep_view();
    let first = all.remove(0);
    proof {
        assert(first.deep_view() =~= list[0]);
        assert(uses_tiles(list[0], hand@));
        assert forall|d: Seq<Seq<MahjongTile>>|
            is_standard_decomposition(d, hand@) && is_canonical(d) implies !decomposition_lt(
            d,
            first.deep_view(),
        ) by {
            let i = choose|i: int| 0 <= i < list.len() && same_melds(#[trigger] list[i], d);
            assert(is_standard_decomposition(list[i], hand@));
            if i == 0 {
                lemma_same_melds_not_lt(list[0], d);
            } else {
                assert(decomposition_lt(list[0], list[i]));
                lemma_lt_same_melds(list[0], list[i], d);
                lemma_lt_asymmetric(list[0], d);
            }
        }
    }
    first
}


/// The canonical decomposition of a complete hand: a decomposition with
/// exactly one pair, its melds ascending, before which no other such
/// decomposition comes.
pub open spec fn is_unique_meld_set(d: Seq<Seq<MahjongTile>>, hand: Seq<MahjongTile>) -> bool {
    &&& is_standard_decomposition(d, hand)
    &&& is_canonical(d)
    &&& forall|e: Seq<Seq<MahjongTile>>|
        is_standard_decomposition(e, hand) && is_canonical(e) ==> !decomposition_lt(e, d)
}

/// Melds with the same rank hold the same tiles.
pub proof fn lemma_rank_identity(a: Seq<MahjongTile>, b: Seq<MahjongTile>)
    requires
        is_meld(a),
        is_meld(b),
        meld_rank(a) == meld_rank(b),
    ensures
        same_tiles(a, b),
{
    lemma_meld_first(a, 0);
    lemma_meld_first(b, 0);
    assert(a[0].code() == b[0].code());
    lemma_code_identity(a[0], b[0]);
    lemma_same_start(a, b);
}

/// Of two decompositions, one comes before the other, or they hold the same
/// melds.
pub proof fn lemma_lt_total(a: Seq<Seq<MahjongTile>>, b: Seq<Seq<MahjongTile>>)
    requires
        all_melds(a),
        all_melds(b),
        !decomposition_lt(a, b),
        !decomposition_lt(b, a),
    ensures
        same_melds(a, b),
    decreases a.len(),
{
    if a.len() > 0 && b.len() > 0 {
        assert(is_meld(a[0]));
        assert(is_meld(b[0]));
        lemma_rank_identity(a[0], b[0]);
        let x = a.drop_first();
        let y = b.drop_first();
        assert forall|i: int| 0 <= i < x.len() implies is_meld(#[trigger] x[i]) by {
            assert(x[i] == a[i + 1]);
        }
        assert forall|i: int| 0 <= i < y.len() implies is_meld(#[trigger] y[i]) by {
            assert(y[i] == b[i + 1]);
        }
        lemma_lt_total(x, y);
        assert forall|i: int| 0 <= i < a.len() implies same_tiles(#[trigger] a[i], b[i]) by {
            if i > 0 {
                assert(a[i] == x[i - 1]);
                assert(b[i] == y[i - 1]);
                assert(same_tiles(x[i - 1], y[i - 1]));
            }
        }
    }
}

/// A hand has one canonical decomposition: two of them hold the same melds,
/// and so do the canonical decompositions of two hands that hold the same
/// tiles in another order.
pub proof fn lemma_unique_meld_set(
    d1: Seq<Seq<MahjongTile>>,
    h1: Seq<MahjongTile>,
    d2: Seq<Seq<MahjongTile>>,
    h2: Seq<MahjongTile>,
)
    requires
        bag(h1) == bag(h2),
        is_unique_meld_set(d1, h1),
        is_unique_meld_set(d2, h2),
    ensures
        same_melds(d1, d2),
{
    assert(is_standard_decomposition(d1, h2));
    assert(is_standard_decomposition(d2, h1));
    lemma_lt_total(d1, d2);
}

/// The melds of a decomposition hold at least two tiles each.
pub proof fn lemma_decomposition_len(d: Seq<Seq<MahjongTile>>, hand: Seq<MahjongTile>)
    requires
        is_decomposition(d, hand),
    ensures
        2 * d.len() <= hand.len(),
    decreases d.len(),
{
    lemma_flat_len(d);
    lemma_bag_len(d.flatten());
    lemma_bag_len(hand);
}

/// Melds hold at least two tiles each.
proof fn lemma_flat_len(d: Seq<Seq<MahjongTile>>)
    requires
        all_melds(d),
    ensures
        2 * d.len() <= d.flatten().len(),
    decreases d.len(),
{
    if d.len() > 0 {
        let t = d.drop_first();
        assert forall|i: int| 0 <= i < t.len() implies is_meld(#[trigger] t[i]) by {
            assert(t[i] == d[i + 1]);
        }
        lemma_flat_len(t);
        assert(is_meld(d[0]));
    }
}

} // verus!
