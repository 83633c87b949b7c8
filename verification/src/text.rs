//! Tiles and hands written out as text.

use crate::melds::{of_suit, tiles_of_suit};
use crate::tile::{MahjongTile, Suit};
use vstd::prelude::*;
use vstd::slice::slice_to_vec;

verus! {

/// The character of a decimal digit.
pub open spec fn digit(n: int) -> char {
    if n == 0 {
        '0'
    } else if n == 1 {
        '1'
    } else if n == 2 {
        '2'
    } else if n == 3 {
        '3'
    } else if n == 4 {
        '4'
    } else if n == 5 {
        '5'
    } else if n == 6 {
        '6'
    } else if n == 7 {
        '7'
    } else if n == 8 {
        '8'
    } else {
        '9'
    }
}

/// The rank in decimal digits, without leading zeros.
pub open spec fn rank_text(value: u8) -> Seq<char> {
    if value < 10 {
        seq![digit(value as int)]
    } else if value < 100 {
        seq![digit(value as int / 10), digit(value as int % 10)]
    } else {
        seq![digit(value as int / 100), digit(value as int / 10 % 10), digit(value as int % 10)]
    }
}

/// The letter of a suit.
pub open spec fn suit_letter(suit: Suit) -> char {
    match suit {
        Suit::Manzu => 'm',
        Suit::Pinzu => 'p',
        Suit::Souzu => 's',
        Suit::Kaze => 'k',
        Suit::Sangen => 'z',
    }
}

/// A tile as text: its rank and the letter of its suit.
pub open spec fn tile_chars(tile: MahjongTile) -> Seq<char> {
    rank_text(tile.value).push(suit_letter(tile.suit))
}

/// The ranks of the tiles, one after the other.
pub open spec fn ranks_text(tiles: Seq<MahjongTile>) -> Seq<char>
    decreases tiles.len(),
{
    if tiles.len() == 0 {
        Seq::empty()
    } else {
        ranks_text(tiles.drop_last()) + rank_text(tiles.last().value)
    }
}

/// The tiles of one suit as text: their ranks and the letter of the suit;
/// nothing where the hand holds no tile of the suit.
pub open spec fn suit_chars(hand: Seq<MahjongTile>, suit: Suit) -> Seq<char> {
    if of_suit(hand, suit).len() == 0 {
        Seq::empty()
    } else {
        ranks_text(of_suit(hand, suit)).push(suit_letter(suit))
    }
}

/// A hand as text, suit by suit, such as `123m44p789s11k`.
pub open spec fn hand_chars(hand: Seq<MahjongTile>) -> Seq<char> {
    suit_chars(hand, Suit::Manzu) + suit_chars(hand, Suit::Pinzu) + suit_chars(hand, Suit::Souzu)
        + suit_chars(hand, Suit::Kaze) + suit_chars(hand, Suit::Sangen)
}

/// The character of a decimal digit.
fn digit_char(n: u8) -> (c: char)
    requires
        n < 10,
    ensures
        c == digit(n as int),
{
    if n == 0 {
        '0'
    } else if n == 1 {
        '1'
    } else if n == 2 {
        '2'
    } else if n == 3 {
        '3'
    } else if n == 4 {
        '4'
    } else if n == 5 {
        '5'
    } else if n == 6 {
        '6'
    } else if n == 7 {
        '7'
    } else if n == 8 {
        '8'
    } else {
        '9'
    }
}

/// Puts the digits of the rank behind the text.
fn push_rank(text: &mut Vec<char>, value: u8)
    ensures
        final(text)@ == old(text)@ + rank_text(value),
{
    if value >= 100 {
        text.push(digit_char(value / 100));
    }
    if value >= 10 {
        text.push(digit_char(value / 10 % 10));
    }
    text.push(digit_char(value % 10));
    assert(text@ =~= old(text)@ + rank_text(value));
}

/// The letter of a suit.
fn letter_of(suit: Suit) -> (c: char)
    ensures
        c == suit_letter(suit),
{
    match suit {
        Suit::Manzu => 'm',
        Suit::Pinzu => 'p',
        Suit::Souzu => 's',
        Suit::Kaze => 'k',
        Suit::Sangen => 'z',
    }
}

/// The tile as text: its rank and the letter of its suit.
pub fn tile_text(tile: &MahjongTile) -> (text: Vec<char>)
    ensures
        text@ == tile_chars(*tile),
{
    let mut text: Vec<char> = Vec::new();
    push_rank(&mut text, tile.value);
    text.push(letter_of(tile.suit));
    assert(text@ =~= tile_chars(*tile));
    text
}

/// Puts the tiles of one suit behind the text.
fn push_suit_text(text: &mut Vec<char>, hand: &Vec<MahjongTile>, suit: Suit)
    ensures
        final(text)@ == old(text)@ + suit_chars(hand@, suit),
{
    let tiles = tiles_of_suit(hand, suit);
    if tiles.len() == 0 {
        assert(text@ =~= old(text)@ + suit_chars(hand@, suit));
        return ;
    }
    let mut n: usize = 0;
    assert(tiles@.take(0) =~= Seq::<MahjongTile>::empty());
    assert(text@ =~= old(text)@ + ranks_text(tiles@.take(0)));
    while n < tiles.len()
        invariant
            n <= tiles.len(),
            text@ == old(text)@ + ranks_text(tiles@.take(n as int)),
        decreases tiles.len() - n,
    {
        proof {
            assert(tiles@.take(n + 1).drop_last() =~= tiles@.take(n as int));
            assert(tiles@.take(n + 1).last() == tiles@[n as int]);
        }
        let ghost before = text@;
        push_rank(text, tiles[n].value);
        assert(text@ =~= old(text)@ + ranks_text(tiles@.take(n + 1)));
        n += 1;
    }
    assert(tiles@.take(n as int) =~= tiles@);
    text.push(letter_of(suit));
    assert(text@ =~= old(text)@ + suit_chars(hand@, suit));
}

/// The hand as text: for each suit of which it holds tiles, their ranks in
/// the order of the hand and the letter of the suit.
pub fn hand_text(tiles: &[MahjongTile]) -> (text: Vec<char>)
    ensures
        text@ == hand_chars(tiles@),
{
    let hand = slice_to_vec(tiles);
    let mut text: Vec<char> = Vec::new();
    push_suit_text(&mut text, &hand, Suit::Manzu);
    push_suit_text(&mut text, &hand, Suit::Pinzu);
    push_suit_text(&mut text, &hand, Suit::Souzu);
    push_suit_text(&mut text, &hand, Suit::Kaze);
    push_suit_text(&mut text, &hand, Suit::Sangen);
    assert(text@ =~= hand_chars(tiles@));
    text
}

} // verus!
