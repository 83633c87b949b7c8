use mahjong::round::{
    any_bust, call_discard, deal_round, discard_tile, play_round, take_turn, TurnOutcome,
};
use mahjong::strategy::initialize_players;
use mahjong::table::{
    change_dora_bool, draw_hands, draw_tile, flip_dora_indicator, initialize_wall, move_tile,
    ordered_tiles, split_wall, BoardTiles, PlayerTiles,
};
use mahjong::text::{hand_text, tile_text};
use mahjong::tile::{MahjongTile, Suit};

fn tile(suit: Suit, value: u8) -> MahjongTile {
    MahjongTile { suit, value, is_dora: false }
}

fn hand_of(parts: &[(Suit, &[u8])]) -> Vec<MahjongTile> {
    let mut hand = Vec::new();
    for (suit, values) in parts {
        for v in values.iter() {
            hand.push(tile(*suit, *v));
        }
    }
    hand
}

fn count(tiles: &[MahjongTile], t: &MahjongTile) -> usize {
    tiles.iter().filter(|x| *x == t).count()
}

fn text(chars: Vec<char>) -> String {
    chars.into_iter().collect()
}

#[test]
fn the_full_set_holds_four_of_each_tile() {
    let tiles = ordered_tiles();
    assert_eq!(tiles.len(), 136);
    assert_eq!(tiles[0], tile(Suit::Manzu, 1));
    assert_eq!(tiles[3], tile(Suit::Manzu, 1));
    assert_eq!(tiles[4], tile(Suit::Manzu, 2));
    assert_eq!(tiles[36], tile(Suit::Pinzu, 1));
    assert_eq!(tiles[108], tile(Suit::Kaze, 1));
    assert_eq!(tiles[124], tile(Suit::Sangen, 1));
    assert_eq!(tiles[135], tile(Suit::Sangen, 3));
    for t in &tiles {
        assert!(t.well_formed());
        assert!(!t.is_dora);
        assert_eq!(count(&tiles, t), 4);
    }
}

#[test]
fn the_wall_is_the_full_set_in_some_order() {
    let (wall, dead, indicators) = initialize_wall();
    assert_eq!(wall.len(), 122);
    assert_eq!(dead.len(), 4);
    assert_eq!(indicators.len(), 10);
    let mut all = wall.clone();
    all.extend(dead);
    all.extend(indicators);
    for t in ordered_tiles() {
        assert_eq!(count(&all, &t), 4);
    }
}

#[test]
fn the_wall_is_shuffled() {
    let ordered = ordered_tiles();
    let mut moved = false;
    for _ in 0..4 {
        let (wall, _, _) = initialize_wall();
        if wall[..] != ordered[..122] {
            moved = true;
        }
    }
    assert!(moved);
}

#[test]
fn the_wall_is_parted_from_its_end() {
    let tiles = ordered_tiles();
    let (wall, dead, indicators) = split_wall(tiles.clone());
    assert_eq!(wall, tiles[..122].to_vec());
    assert_eq!(dead, tiles[122..126].to_vec());
    assert_eq!(indicators, tiles[126..].to_vec());
}

#[test]
fn hands_are_dealt_from_the_end_of_the_wall() {
    let tiles = ordered_tiles();
    let (rest, a, b, c, d) = draw_hands(tiles.clone());
    assert_eq!(rest, tiles[..84].to_vec());
    assert_eq!(a, tiles[123..].to_vec());
    assert_eq!(b, tiles[110..123].to_vec());
    assert_eq!(c, tiles[97..110].to_vec());
    assert_eq!(d, tiles[84..97].to_vec());
}

#[test]
fn a_tile_is_drawn_from_the_end() {
    let mut wall = hand_of(&[(Suit::Manzu, &[1, 2, 3])]);
    let mut hand = hand_of(&[(Suit::Pinzu, &[9])]);
    draw_tile(&mut wall, &mut hand);
    assert_eq!(wall, hand_of(&[(Suit::Manzu, &[1, 2])]));
    assert_eq!(hand, hand_of(&[(Suit::Pinzu, &[9]), (Suit::Manzu, &[3])]));
    let mut empty: Vec<MahjongTile> = Vec::new();
    draw_tile(&mut empty, &mut hand);
    assert!(empty.is_empty());
    assert_eq!(hand.len(), 2);
}

#[test]
fn a_tile_is_moved_to_the_end_of_another_list() {
    let mut hand = hand_of(&[(Suit::Manzu, &[1, 2, 3])]);
    let mut discards = hand_of(&[(Suit::Pinzu, &[9])]);
    move_tile(&mut hand, &mut discards, 1);
    assert_eq!(hand, hand_of(&[(Suit::Manzu, &[1, 3])]));
    assert_eq!(discards, hand_of(&[(Suit::Pinzu, &[9]), (Suit::Manzu, &[2])]));
}

#[test]
fn the_bonus_flag_is_set_by_kind() {
    let mut tiles = hand_of(&[(Suit::Manzu, &[1, 2, 2]), (Suit::Pinzu, &[2])]);
    change_dora_bool(&mut tiles, Suit::Manzu, 2);
    let flags: Vec<bool> = tiles.iter().map(|t| t.is_dora).collect();
    assert_eq!(flags, vec![false, true, true, false]);
}

fn board(indicator: MahjongTile) -> BoardTiles {
    BoardTiles {
        wall: ordered_tiles(),
        wall_dead: hand_of(&[(Suit::Manzu, &[1]), (Suit::Kaze, &[1]), (Suit::Sangen, &[1])]),
        dora_indicators: vec![indicator, tile(Suit::Pinzu, 1)],
        dora_index: 0,
    }
}

fn bonus_of(indicator: MahjongTile) -> Vec<MahjongTile> {
    let mut board = board(indicator);
    let mut tiles = PlayerTiles::default();
    flip_dora_indicator(&mut board, &mut tiles);
    let mut found: Vec<MahjongTile> = Vec::new();
    for t in &board.wall {
        if t.is_dora && !found.contains(t) {
            found.push(*t);
        }
    }
    found
}

#[test]
fn the_indicator_points_to_the_next_rank() {
    assert_eq!(bonus_of(tile(Suit::Manzu, 1)), vec![tile(Suit::Manzu, 2)]);
    assert_eq!(bonus_of(tile(Suit::Souzu, 9)), vec![tile(Suit::Souzu, 1)]);
    assert_eq!(bonus_of(tile(Suit::Kaze, 4)), vec![tile(Suit::Kaze, 1)]);
    assert_eq!(bonus_of(tile(Suit::Kaze, 2)), vec![tile(Suit::Kaze, 3)]);
    assert_eq!(bonus_of(tile(Suit::Sangen, 3)), vec![tile(Suit::Sangen, 1)]);
}

#[test]
fn the_indicator_flags_walls_and_hands() {
    let mut board = board(tile(Suit::Manzu, 9));
    let mut tiles = PlayerTiles::default();
    tiles.hand[1] = hand_of(&[(Suit::Manzu, &[1, 2])]);
    tiles.open_hand[3] = hand_of(&[(Suit::Manzu, &[1, 1, 1])]);
    tiles.discards[0] = hand_of(&[(Suit::Manzu, &[1])]);
    flip_dora_indicator(&mut board, &mut tiles);
    assert!(board.wall_dead[0].is_dora);
    assert!(!board.wall_dead[1].is_dora);
    assert!(tiles.hand[1][0].is_dora);
    assert!(!tiles.hand[1][1].is_dora);
    assert!(tiles.open_hand[3].iter().all(|t| t.is_dora));
    assert!(!tiles.discards[0][0].is_dora);
    assert_eq!(board.dora_index, 0);
}

#[test]
fn tiles_and_hands_as_text() {
    assert_eq!(text(tile_text(&tile(Suit::Manzu, 5))), "5m");
    assert_eq!(text(tile_text(&tile(Suit::Sangen, 3))), "3z");
    assert_eq!(text(tile_text(&tile(Suit::Kaze, 10))), "10k");
    assert_eq!(text(tile_text(&tile(Suit::Pinzu, 255))), "255p");
    let hand = hand_of(&[
        (Suit::Kaze, &[1, 1]),
        (Suit::Manzu, &[1, 2, 3]),
        (Suit::Souzu, &[7, 8, 9]),
        (Suit::Manzu, &[4]),
        (Suit::Pinzu, &[4, 4]),
    ]);
    assert_eq!(text(hand_text(&hand)), "1234m44p789s11k");
    assert_eq!(text(hand_text(&[])), "");
    assert_eq!(text(hand_text(&[tile(Suit::Sangen, 2)])), "2z");
}

#[test]
fn a_round_is_dealt_flagged_and_sorted() {
    let mut wall = ordered_tiles();
    wall.reverse();
    let dead = hand_of(&[(Suit::Manzu, &[1, 2, 3, 4])]);
    let indicators = hand_of(&[(Suit::Manzu, &[1, 5])]);
    let (board, tiles) = deal_round(wall, dead, indicators);
    assert_eq!(board.wall.len(), 84);
    assert_eq!(board.dora_index, 0);
    assert!(board.wall_dead[1].is_dora);
    assert_eq!(tiles.hand.len(), 4);
    assert_eq!(
        tiles.hand[0],
        hand_of(&[(Suit::Manzu, &[1, 1, 1, 1, 2, 2, 2, 2, 3, 3, 3, 3, 4])])
    );
    assert!(tiles.hand[0][4].is_dora);
    assert!(!tiles.hand[0][3].is_dora);
    assert_eq!(
        tiles.hand[1],
        hand_of(&[(Suit::Manzu, &[4, 4, 4, 5, 5, 5, 5, 6, 6, 6, 6, 7, 7])])
    );
    assert!(tiles.open_hand.iter().all(|h| h.is_empty()));
    assert!(tiles.discards.iter().all(|h| h.is_empty()));
}

#[test]
fn a_player_without_points_ends_the_game() {
    let mut players = initialize_players();
    assert!(!any_bust(&players));
    players[1].points = 0;
    assert!(!any_bust(&players));
    players[3].points = -100;
    assert!(any_bust(&players));
}

fn seats(hands: Vec<Vec<MahjongTile>>) -> PlayerTiles {
    let mut tiles = PlayerTiles::default();
    tiles.hand = hands;
    tiles
}

#[test]
fn a_discard_goes_to_the_discards_and_may_be_called() {
    let mut tiles = seats(vec![
        hand_of(&[(Suit::Manzu, &[1, 2, 3])]),
        hand_of(&[(Suit::Pinzu, &[9])]),
        hand_of(&[(Suit::Souzu, &[5]), (Suit::Manzu, &[2, 7, 2])]),
        hand_of(&[(Suit::Manzu, &[2, 2])]),
    ]);
    let discarded = discard_tile(&mut tiles, 0, 1);
    assert_eq!(discarded, tile(Suit::Manzu, 2));
    assert_eq!(tiles.hand[0], hand_of(&[(Suit::Manzu, &[1, 3])]));
    assert_eq!(tiles.discards[0], hand_of(&[(Suit::Manzu, &[2])]));
    let before = tiles.clone();
    call_discard(&mut tiles, discarded, 0, false);
    assert_eq!(tiles.hand, before.hand);
    call_discard(&mut tiles, discarded, 0, true);
    assert_eq!(tiles.hand[2], hand_of(&[(Suit::Manzu, &[7]), (Suit::Souzu, &[5])]));
    assert_eq!(tiles.open_hand[2], hand_of(&[(Suit::Manzu, &[2, 2, 2])]));
    assert_eq!(tiles.hand[3], hand_of(&[(Suit::Manzu, &[2, 2])]));
    assert_eq!(tiles.discards[0], hand_of(&[(Suit::Manzu, &[2])]));
}

fn round_with(wall: Vec<MahjongTile>, first_hand: Vec<MahjongTile>) -> (BoardTiles, PlayerTiles) {
    let idle = hand_of(&[
        (Suit::Pinzu, &[1, 2, 2, 3, 5, 6, 7]),
        (Suit::Souzu, &[2, 4, 5, 6]),
        (Suit::Kaze, &[1, 1]),
    ]);
    let board = BoardTiles {
        wall,
        wall_dead: Vec::new(),
        dora_indicators: hand_of(&[(Suit::Sangen, &[1])]),
        dora_index: 0,
    };
    (board, seats(vec![first_hand, idle.clone(), idle.clone(), idle]))
}

#[test]
fn a_turn_ends_in_a_win_on_the_drawn_tile() {
    let waiting = hand_of(&[
        (Suit::Manzu, &[2, 3, 4, 9, 9]),
        (Suit::Pinzu, &[3, 3, 4, 4, 5, 5]),
        (Suit::Souzu, &[5, 6]),
    ]);
    let (mut board, mut tiles) =
        round_with(hand_of(&[(Suit::Kaze, &[2]), (Suit::Souzu, &[7])]), waiting);
    let mut players = initialize_players();
    let out = take_turn(&mut board, &mut tiles, &mut players, 0);
    assert_eq!(out, TurnOutcome::Win);
    assert_eq!(board.wall, hand_of(&[(Suit::Kaze, &[2])]));
    assert_eq!(tiles.hand[0].len(), 14);
    let points: Vec<i32> = players.iter().map(|p| p.points).collect();
    assert_eq!(points, vec![28900, 23700, 23700, 23700]);
}

#[test]
fn a_turn_ends_in_a_discard() {
    let hand = hand_of(&[
        (Suit::Manzu, &[2, 3, 4, 9, 9]),
        (Suit::Pinzu, &[3, 3, 4, 4, 5, 5]),
        (Suit::Souzu, &[5, 6]),
    ]);
    let (mut board, mut tiles) = round_with(hand_of(&[(Suit::Kaze, &[3])]), hand.clone());
    let mut players = initialize_players();
    let out = take_turn(&mut board, &mut tiles, &mut players, 0);
    assert_eq!(out, TurnOutcome::Continue);
    assert!(board.wall.is_empty());
    assert_eq!(tiles.hand[0].len(), 13);
    assert_eq!(tiles.discards[0].len(), 1);
    let points: Vec<i32> = players.iter().map(|p| p.points).collect();
    assert_eq!(points, vec![25000; 4]);
}

#[test]
fn a_turn_with_an_empty_wall_is_a_draw() {
    let waiting = hand_of(&[
        (Suit::Manzu, &[2, 3, 4, 9, 9]),
        (Suit::Pinzu, &[3, 3, 4, 4, 5, 5]),
        (Suit::Souzu, &[5, 6]),
    ]);
    let (mut board, mut tiles) = round_with(Vec::new(), waiting);
    let mut players = initialize_players();
    let out = take_turn(&mut board, &mut tiles, &mut players, 1);
    assert_eq!(out, TurnOutcome::Draw);
    let points: Vec<i32> = players.iter().map(|p| p.points).collect();
    assert_eq!(points, vec![28000, 24000, 24000, 24000]);
    assert_eq!(players[0].seat_wind, mahjong::player::SeatWind::East);
}

#[test]
fn a_round_is_played_to_its_end() {
    let waiting = hand_of(&[
        (Suit::Manzu, &[2, 3, 4, 9, 9]),
        (Suit::Pinzu, &[3, 3, 4, 4, 5, 5]),
        (Suit::Souzu, &[5, 6]),
    ]);
    let wall = hand_of(&[(Suit::Souzu, &[7]), (Suit::Sangen, &[3, 3]), (Suit::Kaze, &[4])]);
    let (mut board, mut tiles) = round_with(wall, waiting);
    let mut players = initialize_players();
    let out = play_round(&mut board, &mut tiles, &mut players, 1);
    assert_eq!(out, TurnOutcome::Win);
    assert!(board.wall.is_empty());
    assert_eq!(tiles.discards[1].len(), 1);
    assert_eq!(tiles.discards[2].len(), 1);
    assert_eq!(tiles.discards[3].len(), 1);
    assert_eq!(tiles.discards[0].len(), 0);
    assert_eq!(tiles.hand[0].len(), 14);
    assert_eq!(tiles.hand[1].len(), 13);
    let points: Vec<i32> = players.iter().map(|p| p.points).collect();
    assert_eq!(points, vec![28900, 23700, 23700, 23700]);
}

#[test]
fn a_round_without_a_winner_is_drawn() {
    let idle = hand_of(&[
        (Suit::Pinzu, &[1, 2, 2, 3, 5, 6, 7]),
        (Suit::Souzu, &[2, 4, 5, 6]),
        (Suit::Kaze, &[1, 1]),
    ]);
    let wall = hand_of(&[(Suit::Sangen, &[3, 2, 1])]);
    let (mut board, mut tiles) = round_with(wall, idle);
    let mut players = initialize_players();
    let out = play_round(&mut board, &mut tiles, &mut players, 0);
    assert_eq!(out, TurnOutcome::Draw);
    assert!(board.wall.is_empty());
    assert_eq!(tiles.discards.iter().map(|d| d.len()).sum::<usize>(), 3);
    let points: Vec<i32> = players.iter().map(|p| p.points).collect();
    assert_eq!(points, vec![25000; 4]);
    assert_eq!(players[0].seat_wind, mahjong::player::SeatWind::South);
}
