use mahjong::partial::get_partial_completion;
use mahjong::player::{
    default_boolean_strategy, default_discard_strategy, never_open_hand, CallPolicy, DiscardPolicy,
    Player, SeatWind, Strategy, StrategyInput,
};
use mahjong::score::{
    calculate_hand_score, capped_score, game_result, round_up_to_10, round_up_to_100,
    scoring_tenpai, scoring_tsumo,
};
use mahjong::strategy::{initialize_players, pinfu_hunter, standard_discarder};
use mahjong::table::PlayerTiles;
use mahjong::tile::{MahjongTile, Suit};

fn tile(suit: Suit, value: u8) -> MahjongTile {
    MahjongTile { suit, value, is_dora: false }
}

fn hand_of(parts: &[(Suit, &[u8])]) -> Vec<MahjongTile> {
    let mut hand = Vec::new();
    for (suit, values) in parts {
        for v in values.iter() {
            hand.push(tile(*suit, *v));
        }
    }
    hand
}

fn with_bonus(mut hand: Vec<MahjongTile>, count: usize) -> Vec<MahjongTile> {
    for t in hand.iter_mut().take(count) {
        t.is_dora = true;
    }
    hand
}

fn two_runs_twice() -> Vec<MahjongTile> {
    hand_of(&[
        (Suit::Manzu, &[2, 3, 4, 9, 9]),
        (Suit::Pinzu, &[3, 3, 4, 4, 5, 5]),
        (Suit::Souzu, &[5, 6, 7]),
    ])
}

fn one_pair_only() -> Vec<MahjongTile> {
    hand_of(&[
        (Suit::Manzu, &[1, 2, 3, 4, 5, 6]),
        (Suit::Pinzu, &[7, 8, 9]),
        (Suit::Souzu, &[2, 3, 4]),
        (Suit::Sangen, &[2, 2]),
    ])
}

fn three_triplets() -> Vec<MahjongTile> {
    hand_of(&[
        (Suit::Manzu, &[1, 1, 1]),
        (Suit::Pinzu, &[9, 9, 9]),
        (Suit::Souzu, &[2, 3, 4]),
        (Suit::Kaze, &[1, 1, 1]),
        (Suit::Sangen, &[2, 2]),
    ])
}

fn seven_pairs() -> Vec<MahjongTile> {
    hand_of(&[
        (Suit::Souzu, &[2, 2, 3, 3, 4, 4, 8, 8]),
        (Suit::Pinzu, &[9, 9]),
        (Suit::Sangen, &[2, 2]),
        (Suit::Kaze, &[1, 1]),
    ])
}

fn waiting_hand() -> Vec<MahjongTile> {
    hand_of(&[
        (Suit::Pinzu, &[1, 2, 3, 3, 4, 5]),
        (Suit::Souzu, &[1, 3, 6, 6, 6]),
        (Suit::Kaze, &[1, 1]),
    ])
}

fn idle_hand() -> Vec<MahjongTile> {
    hand_of(&[
        (Suit::Pinzu, &[1, 2, 2, 3, 5, 6, 7]),
        (Suit::Souzu, &[2, 4, 5, 6]),
        (Suit::Kaze, &[1, 1]),
    ])
}

fn seats(hands: Vec<Vec<MahjongTile>>) -> PlayerTiles {
    let mut tiles = PlayerTiles::default();
    tiles.hand = hands;
    tiles
}

fn points(players: &[Player]) -> Vec<i32> {
    players.iter().map(|p| p.points).collect()
}

fn winds(players: &[Player]) -> Vec<SeatWind> {
    players.iter().map(|p| p.seat_wind).collect()
}

#[test]
fn rounding_goes_up_to_the_next_step() {
    assert_eq!(round_up_to_10(20), 20);
    assert_eq!(round_up_to_10(21), 30);
    assert_eq!(round_up_to_10(58), 60);
    assert_eq!(round_up_to_10(0), 0);
    assert_eq!(round_up_to_100(640), 700);
    assert_eq!(round_up_to_100(1280), 1300);
    assert_eq!(round_up_to_100(2000), 2000);
    assert_eq!(round_up_to_100(1), 100);
    assert_eq!(round_up_to_100(-150), 0);
    assert_eq!(round_up_to_100(-250), -100);
}

#[test]
fn a_fee_is_doubled_and_capped() {
    assert_eq!(capped_score(20, 5, 3), 640);
    assert_eq!(capped_score(25, 5, 1), 800);
    assert_eq!(capped_score(30, 6, 4), 1920);
    assert_eq!(capped_score(40, 6, 4), 2000);
    assert_eq!(capped_score(50, 6, 4), 2000);
    assert_eq!(capped_score(30, 8, 6), 3000);
    assert_eq!(capped_score(30, 9, 7), 3000);
    assert_eq!(capped_score(30, 10, 8), 4000);
    assert_eq!(capped_score(30, 12, 10), 4000);
    assert_eq!(capped_score(30, 13, 11), 6000);
    assert_eq!(capped_score(30, 14, 12), 6000);
    assert_eq!(capped_score(30, 15, 13), 8000);
    assert_eq!(capped_score(30, 40, 38), 8000);
    assert_eq!(capped_score(600, 2, 0), 2000);
    assert_eq!(capped_score(1, 10, 0), 1024);
    assert_eq!(capped_score(1, 16, 0), 2000);
}

#[test]
fn a_closed_hand_of_runs_won_on_an_open_wait() {
    let hand = two_runs_twice();
    assert_eq!(calculate_hand_score(&hand, &[], true, &SeatWind::East), 640);
    assert_eq!(calculate_hand_score(&hand, &[], false, &SeatWind::East), 240);
    let open = vec![tile(Suit::Kaze, 2); 3];
    assert_eq!(calculate_hand_score(&hand, &open, true, &SeatWind::East), 160);
}

#[test]
fn triplets_add_to_the_fee_and_double_the_value() {
    let hand = three_triplets();
    assert_eq!(calculate_hand_score(&hand, &[], false, &SeatWind::East), 1920);
    assert_eq!(calculate_hand_score(&hand, &[], true, &SeatWind::East), 2000);
    assert_eq!(calculate_hand_score(&hand, &[], false, &SeatWind::South), 960);
}

#[test]
fn seven_pairs_have_a_fee_of_their_own() {
    let hand = seven_pairs();
    assert_eq!(calculate_hand_score(&hand, &[], true, &SeatWind::East), 800);
    assert_eq!(calculate_hand_score(&hand, &[], false, &SeatWind::East), 400);
    assert_eq!(calculate_hand_score(&with_bonus(hand.clone(), 2), &[], false, &SeatWind::East), 1600);
    assert_eq!(calculate_hand_score(&with_bonus(hand.clone(), 3), &[], false, &SeatWind::East), 2000);
    assert_eq!(calculate_hand_score(&with_bonus(hand.clone(), 6), &[], true, &SeatWind::East), 3000);
    assert_eq!(calculate_hand_score(&with_bonus(hand.clone(), 8), &[], false, &SeatWind::East), 4000);
    assert_eq!(calculate_hand_score(&with_bonus(hand.clone(), 11), &[], false, &SeatWind::East), 6000);
    assert_eq!(calculate_hand_score(&with_bonus(hand, 14), &[], false, &SeatWind::East), 8000);
}

#[test]
fn bonus_tiles_double_the_value() {
    let hand = with_bonus(two_runs_twice(), 1);
    assert_eq!(calculate_hand_score(&hand, &[], true, &SeatWind::East), 1280);
}

#[test]
fn a_win_of_the_dealer_is_paid_double_by_all() {
    let mut players = initialize_players();
    let mut tiles = seats(vec![two_runs_twice(), idle_hand(), idle_hand(), idle_hand()]);
    scoring_tsumo(&mut tiles, &mut players, 0);
    assert_eq!(points(&players), vec![25000 + 3900, 25000 - 1300, 25000 - 1300, 25000 - 1300]);
    assert_eq!(
        winds(&players),
        vec![SeatWind::East, SeatWind::South, SeatWind::West, SeatWind::North]
    );
}

#[test]
fn a_win_of_another_player_is_paid_double_by_the_dealer() {
    let mut players = initialize_players();
    let mut tiles = seats(vec![idle_hand(), idle_hand(), two_runs_twice(), idle_hand()]);
    scoring_tsumo(&mut tiles, &mut players, 2);
    assert_eq!(points(&players), vec![25000 - 1300, 25000 - 700, 25000 + 2700, 25000 - 700]);
    assert_eq!(
        winds(&players),
        vec![SeatWind::South, SeatWind::West, SeatWind::North, SeatWind::East]
    );
}

#[test]
fn a_draw_with_one_waiting_hand() {
    let mut players = initialize_players();
    let mut tiles = seats(vec![idle_hand(), waiting_hand(), idle_hand(), idle_hand()]);
    scoring_tenpai(&mut tiles, &mut players);
    assert_eq!(points(&players), vec![24000, 28000, 24000, 24000]);
    assert_eq!(
        winds(&players),
        vec![SeatWind::South, SeatWind::West, SeatWind::North, SeatWind::East]
    );
}

#[test]
fn a_draw_with_the_dealer_and_another_waiting() {
    let mut players = initialize_players();
    let mut tiles = seats(vec![waiting_hand(), idle_hand(), waiting_hand(), idle_hand()]);
    scoring_tenpai(&mut tiles, &mut players);
    assert_eq!(points(&players), vec![26500, 23500, 26500, 23500]);
    assert_eq!(
        winds(&players),
        vec![SeatWind::East, SeatWind::South, SeatWind::West, SeatWind::North]
    );
}

#[test]
fn a_draw_with_three_waiting_hands() {
    let mut players = initialize_players();
    let mut tiles = seats(vec![idle_hand(), waiting_hand(), waiting_hand(), waiting_hand()]);
    scoring_tenpai(&mut tiles, &mut players);
    assert_eq!(points(&players), vec![22000, 26000, 26000, 26000]);
    assert_eq!(players[0].seat_wind, SeatWind::South);
}

#[test]
fn a_draw_with_all_or_none_waiting_moves_no_points() {
    let mut players = initialize_players();
    let mut tiles =
        seats(vec![waiting_hand(), waiting_hand(), waiting_hand(), waiting_hand()]);
    scoring_tenpai(&mut tiles, &mut players);
    assert_eq!(points(&players), vec![25000; 4]);
    assert_eq!(players[0].seat_wind, SeatWind::East);
    let mut tiles = seats(vec![idle_hand(), idle_hand(), idle_hand(), idle_hand()]);
    scoring_tenpai(&mut tiles, &mut players);
    assert_eq!(points(&players), vec![25000; 4]);
    assert_eq!(players[0].seat_wind, SeatWind::South);
}

#[test]
fn the_final_scores_add_the_bonus_of_the_rank() {
    let mut players = initialize_players();
    players[0].points = 30000;
    players[1].points = 20000;
    let res = game_result(&players);
    assert_eq!(res.player_1_score, 45000);
    assert_eq!(res.player_2_score, 5000);
    assert_eq!(res.player_3_score, 30000);
    assert_eq!(res.player_4_score, 20000);
}

#[test]
fn seats_follow_each_other() {
    let mut player = Player::default();
    assert_eq!(player.points, 25000);
    assert_eq!(player.seat_wind, SeatWind::East);
    assert_eq!(player.id, 0);
    player.next_wind();
    assert_eq!(player.seat_wind, SeatWind::South);
    player.next_wind();
    assert_eq!(player.seat_wind, SeatWind::West);
    player.next_wind();
    assert_eq!(player.seat_wind, SeatWind::North);
    player.next_wind();
    assert_eq!(player.seat_wind, SeatWind::East);
    assert_eq!(player.points, 25000);
}

#[test]
fn players_are_told_apart_by_id() {
    let players = initialize_players();
    assert_eq!(players.len(), 4);
    let mut twin = players[2].clone();
    twin.points = 1;
    assert!(twin == players[2]);
    assert!(players[0] != players[1]);
    assert_eq!(players[1].strategy.discard, DiscardPolicy::PinfuHunter);
    assert_eq!(players[0].strategy.discard, DiscardPolicy::Standard);
    assert_eq!(players[3].strategy.call_pon, CallPolicy::Never);
    assert_eq!(players[3].strategy.tsumo, CallPolicy::Always);
    assert_eq!(winds(&players), vec![SeatWind::East, SeatWind::South, SeatWind::West, SeatWind::North]);
}

fn input(hand: Vec<MahjongTile>) -> StrategyInput {
    StrategyInput { hand, discards: vec![vec![]; 4] }
}

#[test]
fn the_default_policies() {
    let strategy = Strategy::default();
    assert_eq!(strategy.discard, DiscardPolicy::First);
    assert_eq!(strategy.call_chi, CallPolicy::Always);
    assert_eq!(default_discard_strategy(input(idle_hand())), 0);
    assert!(default_boolean_strategy(input(idle_hand())));
    assert!(!never_open_hand(input(idle_hand())));
    assert!(CallPolicy::Always.decide(input(idle_hand())));
    assert!(!CallPolicy::Never.decide(input(idle_hand())));
    assert_eq!(DiscardPolicy::First.decide(input(idle_hand())), 0);
}

#[test]
fn the_tiles_that_no_meld_uses() {
    let hand = hand_of(&[(Suit::Pinzu, &[5]), (Suit::Manzu, &[1, 2, 3])]);
    assert_eq!(get_partial_completion(&hand), vec![tile(Suit::Pinzu, 5)]);
    let no_sets = hand_of(&[(Suit::Pinzu, &[5, 5]), (Suit::Manzu, &[1, 3])]);
    assert_eq!(get_partial_completion(&no_sets), no_sets);
    assert_eq!(get_partial_completion(&one_pair_only()), vec![]);
    let many_pairs = two_runs_twice();
    assert_eq!(get_partial_completion(&many_pairs), many_pairs);
    let loose = hand_of(&[
        (Suit::Manzu, &[1, 2, 3, 7]),
        (Suit::Pinzu, &[4, 5, 6]),
        (Suit::Souzu, &[2, 2, 9]),
        (Suit::Kaze, &[3]),
    ]);
    assert_eq!(
        get_partial_completion(&loose),
        vec![tile(Suit::Manzu, 7), tile(Suit::Souzu, 9), tile(Suit::Kaze, 3)]
    );
}

#[test]
fn the_standard_discard_is_the_last_loose_tile() {
    let hand = hand_of(&[(Suit::Pinzu, &[5]), (Suit::Manzu, &[1, 2, 3])]);
    assert_eq!(standard_discarder(input(hand.clone())), 0);
    assert_eq!(DiscardPolicy::Standard.decide(input(hand)), 0);
    let loose = hand_of(&[
        (Suit::Kaze, &[3]),
        (Suit::Manzu, &[1, 2, 3, 7]),
        (Suit::Pinzu, &[4, 5, 6]),
        (Suit::Souzu, &[2, 2, 9]),
    ]);
    assert_eq!(standard_discarder(input(loose)), 0);
    assert_eq!(standard_discarder(input(one_pair_only())), 13);
    assert_eq!(standard_discarder(input(two_runs_twice())), 13);
    assert_eq!(standard_discarder(input(hand_of(&[(Suit::Pinzu, &[5, 5, 7])]))), 2);
}

#[test]
fn the_hunter_for_runs_parts_with_honors_first() {
    let loose = hand_of(&[
        (Suit::Manzu, &[1, 2, 3, 7]),
        (Suit::Pinzu, &[4, 5, 6]),
        (Suit::Souzu, &[2, 2, 9]),
        (Suit::Kaze, &[3]),
    ]);
    assert_eq!(pinfu_hunter(input(loose)), 10);
    let no_honor = hand_of(&[
        (Suit::Manzu, &[1, 2, 3, 7, 8]),
        (Suit::Pinzu, &[4, 5, 6]),
        (Suit::Souzu, &[2, 2, 5, 9]),
    ]);
    assert_eq!(
        get_partial_completion(&no_honor),
        hand_of(&[(Suit::Manzu, &[7, 8]), (Suit::Souzu, &[5, 9])])
    );
    assert_eq!(pinfu_hunter(input(no_honor.clone())), 10);
    assert_eq!(DiscardPolicy::PinfuHunter.decide(input(no_honor)), 10);
    assert_eq!(pinfu_hunter(input(one_pair_only())), 13);
    assert_eq!(pinfu_hunter(input(two_runs_twice())), 2);
    let single = hand_of(&[(Suit::Pinzu, &[5]), (Suit::Manzu, &[1, 2, 3])]);
    assert_eq!(pinfu_hunter(input(single)), 0);
}
