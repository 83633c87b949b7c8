//! Hands as sequences of tiles: the multiset of a hand and the sorted form.

use crate::tile::{lemma_code_identity, MahjongTile};
use vstd::multiset::Multiset;
use vstd::prelude::*;
use vstd::seq_lib::*;

verus! {

/// The identities of the tiles, in order.
pub open spec fn codes(s: Seq<MahjongTile>) -> Seq<int> {
    s.map_values(|t: MahjongTile| t.code())
}

/// The multiset of a hand: how often each identity occurs in it.
pub open spec fn bag(s: Seq<MahjongTile>) -> Multiset<int> {
    codes(s).to_multiset()
}

/// Tiles in ascending order.
pub open spec fn ascending(s: Seq<MahjongTile>) -> bool {
    forall|i: int, j: int| 0 <= i <= j < s.len() ==> s[i].code() <= s[j].code()
}

/// `t` put into the ascending sequence `s`, behind the tiles that are not
/// greater than it.
pub open spec fn insert_tile(s: Seq<MahjongTile>, t: MahjongTile) -> Seq<MahjongTile>
    decreases s.len(),
{
    if s.len() == 0 || s.last().code() <= t.code() {
        s.push(t)
    } else {
        insert_tile(s.drop_last(), t).push(s.last())
    }
}

/// The tiles of `s` in ascending order; equal tiles keep their order.
pub open spec fn sorted_tiles(s: Seq<MahjongTile>) -> Seq<MahjongTile>
    decreases s.len(),
{
    if s.len() == 0 {
        s
    } else {
        insert_tile(sorted_tiles(s.drop_last()), s.last())
    }
}

/// A tile put behind the others adds its identity to the multiset.
pub proof fn lemma_bag_push(s: Seq<MahjongTile>, t: MahjongTile)
    ensures
        bag(s.push(t)) == bag(s).insert(t.code()),
{
    broadcast use group_to_multiset_ensures;

    assert(codes(s.push(t)) =~= codes(s).push(t.code()));
}

/// A tile taken out takes its identity out of the multiset.
pub proof fn lemma_bag_remove(s: Seq<MahjongTile>, i: int)
    requires
        0 <= i < s.len(),
    ensures
        bag(s.remove(i)) == bag(s).remove(s[i].code()),
        bag(s).count(s[i].code()) > 0,
{
    broadcast use group_to_multiset_ensures;

    assert(codes(s.remove(i)) =~= codes(s).remove(i));
    assert(codes(s)[i] == s[i].code());
    assert(codes(s).contains(s[i].code()));
}

/// A tile put in anywhere adds its identity to the multiset.
pub proof fn lemma_bag_insert(s: Seq<MahjongTile>, i: int, t: MahjongTile)
    requires
        0 <= i <= s.len(),
    ensures
        bag(s.insert(i, t)) == bag(s).insert(t.code()),
{
    broadcast use group_to_multiset_ensures;

    assert(codes(s.insert(i, t)) =~= codes(s).insert(i, t.code()));
}

/// The multiset of two hands put together is the sum of their multisets.
pub proof fn lemma_bag_concat(a: Seq<MahjongTile>, b: Seq<MahjongTile>)
    ensures
        bag(a + b) == bag(a).add(bag(b)),
{
    assert(codes(a + b) =~= codes(a) + codes(b));
    lemma_multiset_commutative(codes(a), codes(b));
}

/// The multiset holds as many tiles as the hand.
pub proof fn lemma_bag_len(s: Seq<MahjongTile>)
    ensures
        bag(s).len() == s.len(),
{
    broadcast use group_to_multiset_ensures;

}

/// An identity occurs in the multiset of a hand exactly when a tile of the
/// hand has it.
pub proof fn lemma_bag_contains(s: Seq<MahjongTile>, c: int)
    ensures
        bag(s).count(c) > 0 <==> exists|i: int| 0 <= i < s.len() && #[trigger] s[i].code() == c,
{
    broadcast use group_to_multiset_ensures;

    if bag(s).count(c) > 0 {
        assert(codes(s).contains(c));
        let i = choose|i: int| 0 <= i < codes(s).len() && codes(s)[i] == c;
        assert(s[i].code() == c);
    }
    if exists|i: int| 0 <= i < s.len() && #[trigger] s[i].code() == c {
        let i = choose|i: int| 0 <= i < s.len() && #[trigger] s[i].code() == c;
        assert(codes(s)[i] == c);
        assert(codes(s).contains(c));
    }
}

/// Where `insert_tile` puts the tile.
pub proof fn lemma_insert_tile_at(s: Seq<MahjongTile>, t: MahjongTile, pos: int)
    requires
        0 <= pos <= s.len(),
        pos == 0 || s[pos - 1].code() <= t.code(),
        forall|k: int| pos <= k < s.len() ==> s[k].code() > t.code(),
    ensures
        insert_tile(s, t) == s.insert(pos, t),
    decreases s.len() - pos,
{
    if pos == s.len() {
        assert(s.insert(pos, t) =~= s.push(t));
    } else {
        lemma_insert_tile_at(s.drop_last(), t, pos);
        assert(s.drop_last().insert(pos, t).push(s.last()) =~= s.insert(pos, t));
    }
}

/// Sorting gives an ascending sequence that holds the same tiles.
pub proof fn lemma_sorted_tiles(s: Seq<MahjongTile>)
    ensures
        ascending(sorted_tiles(s)),
        sorted_tiles(s).len() == s.len(),
        sorted_tiles(s).to_multiset() == s.to_multiset(),
        bag(sorted_tiles(s)) == bag(s),
    decreases s.len(),
{
    broadcast use group_to_multiset_ensures;

    if s.len() == 0 {
    } else {
        let p = sorted_tiles(s.drop_last());
        let t = s.last();
        lemma_sorted_tiles(s.drop_last());
        let pos = insert_position(p, t);
        lemma_insert_position(p, t);
        lemma_insert_tile_at(p, t, pos);
        assert(s =~= s.drop_last().push(t));
        lemma_bag_insert(p, pos, t);
        lemma_bag_push(s.drop_last(), t);
        let r = p.insert(pos, t);
        assert forall|i: int, j: int| 0 <= i <= j < r.len() implies r[i].code() <= r[j].code() by {
            if i < pos && j > pos {
                assert(r[i] == p[i]);
                assert(r[j] == p[j - 1]);
            }
        }
    }
}

/// Sorting an ascending sequence changes nothing.
pub proof fn lemma_sorted_tiles_of_ascending(s: Seq<MahjongTile>)
    requires
        ascending(s),
    ensures
        sorted_tiles(s) == s,
    decreases s.len(),
{
    if s.len() > 0 {
        lemma_sorted_tiles_of_ascending(s.drop_last());
        assert(s =~= s.drop_last().push(s.last()));
        if s.len() > 1 {
            assert(s.drop_last().last() == s[s.len() - 2]);
        }
    }
}

/// The tiles of the kind of `t`, in the order of the hand.
pub open spec fn of_kind(s: Seq<MahjongTile>, t: MahjongTile) -> Seq<MahjongTile>
    decreases s.len(),
{
    if s.len() == 0 {
        s
    } else if s.last().same_kind(t) {
        of_kind(s.drop_last(), t).push(s.last())
    } else {
        of_kind(s.drop_last(), t)
    }
}

/// A tile put in at its place stands behind the tiles of its kind.
proof fn lemma_insert_keeps_order(s: Seq<MahjongTile>, x: MahjongTile, t: MahjongTile)
    ensures
        of_kind(insert_tile(s, x), t) == (if x.same_kind(t) {
            of_kind(s, t).push(x)
        } else {
            of_kind(s, t)
        }),
    decreases s.len(),
{
    if s.len() == 0 || s.last().code() <= x.code() {
        assert(s.push(x).drop_last() =~= s);
    } else {
        let r = insert_tile(s.drop_last(), x);
        lemma_insert_keeps_order(s.drop_last(), x, t);
        lemma_code_identity(s.last(), x);
        assert(r.push(s.last()).drop_last() =~= r);
    }
}

/// Sorting keeps the tiles of each kind in the order in which they stood.
pub proof fn lemma_sorting_is_stable(s: Seq<MahjongTile>, t: MahjongTile)
    ensures
        of_kind(sorted_tiles(s), t) == of_kind(s, t),
    decreases s.len(),
{
    if s.len() > 0 {
        lemma_sorting_is_stable(s.drop_last(), t);
        lemma_insert_keeps_order(sorted_tiles(s.drop_last()), s.last(), t);
    }
}

/// The index behind the last tile of the ascending `s` that is not greater than `t`.
pub open spec fn insert_position(s: Seq<MahjongTile>, t: MahjongTile) -> int
    decreases s.len(),
{
    if s.len() == 0 || s.last().code() <= t.code() {
        s.len() as int
    } else {
        insert_position(s.drop_last(), t)
    }
}

/// What `insert_position` finds.
proof fn lemma_insert_position(s: Seq<MahjongTile>, t: MahjongTile)
    ensures
        0 <= insert_position(s, t) <= s.len(),
        insert_position(s, t) == 0 || s[insert_position(s, t) - 1].code() <= t.code(),
        forall|k: int| insert_position(s, t) <= k < s.len() ==> s[k].code() > t.code(),
    decreases s.len(),
{
    if s.len() == 0 || s.last().code() <= t.code() {
    } else {
        lemma_insert_position(s.drop_last(), t);
        let pos = insert_position(s, t);
        assert forall|k: int| pos <= k < s.len() implies s[k].code() > t.code() by {
            if k < s.len() - 1 {
                assert(s.drop_last()[k] == s[k]);
            }
        }
    }
}

/// Sorts the tiles in place, ascending by suit and then by rank. Equal tiles
/// keep their order.
pub fn sort_tiles(tiles: &mut Vec<MahjongTile>)
    ensures
        final(tiles)@ == sorted_tiles(old(tiles)@),
        ascending(final(tiles)@),
        final(tiles)@.to_multiset() == old(tiles)@.to_multiset(),
{
    let sorted = sorted_copy(tiles.as_slice());
    *tiles = sorted;
}

/// A sorted copy of the hand, ascending by suit and then by rank. Equal tiles
/// keep their order.
pub fn sorted_copy(hand: &[MahjongTile]) -> (out: Vec<MahjongTile>)
    ensures
        out@ == sorted_tiles(hand@),
        ascending(out@),
        out@.to_multiset() == hand@.to_multiset(),
        bag(out@) == bag(hand@),
        out.len() == hand.len(),
{
    let mut out: Vec<MahjongTile> = Vec::new();
    let mut n: usize = 0;
    while n < hand.len()
        invariant
            n <= hand.len(),
            out@ == sorted_tiles(hand@.take(n as int)),
            out.len() == n,
        decreases hand.len() - n,
    {
        let t = hand[n];
        let key = t.sort_key();
        let mut pos: usize = out.len();
        while pos > 0 && out[pos - 1].sort_key() > key
            invariant
                pos <= out.len(),
                key == t.code(),
                forall|k: int| pos <= k < out.len() ==> out[k].code() > t.code(),
            decreases pos,
        {
            pos -= 1;
        }
        proof {
            lemma_insert_tile_at(out@, t, pos as int);
            assert(hand@.take(n + 1).drop_last() =~= hand@.take(n as int));
            assert(hand@.take(n + 1).last() == t);
            lemma_sorted_tiles(hand@.take(n as int));
        }
        out.insert(pos, t);
        n += 1;
    }
    proof {
        assert(hand@.take(n as int) =~= hand@);
        lemma_sorted_tiles(hand@);
    }
    out
}

} // verus!
