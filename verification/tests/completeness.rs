use mahjong::calls::{can_chi, can_pon, find_tile_in_hand, is_subset, remove_pon_tiles};
use mahjong::complete::{check_tenpai, find_wait, is_complete, wait_candidates};
use mahjong::decompose::{construct_unique_meld_set, decompose};
use mahjong::hand::{sort_tiles, sorted_copy};
use mahjong::melds::find_pairs_melds;
use mahjong::tile::{MahjongTile, Suit};

fn tile(suit: Suit, value: u8) -> MahjongTile {
    MahjongTile { suit, value, is_dora: false }
}

fn tiles(suit: Suit, values: &[u8]) -> Vec<MahjongTile> {
    values.iter().map(|v| tile(suit, *v)).collect()
}

fn hand_of(parts: &[(Suit, &[u8])]) -> Vec<MahjongTile> {
    let mut hand = Vec::new();
    for (suit, values) in parts {
        hand.extend(tiles(*suit, values));
    }
    hand
}

fn sorted_keys(hand: &[MahjongTile]) -> Vec<(u8, u8)> {
    let mut keys: Vec<(u8, u8)> = hand.iter().map(|t| (t.suit.ordinal(), t.value)).collect();
    keys.sort();
    keys
}

#[test]
fn tiles_are_equal_whatever_the_bonus_flag() {
    let plain = tile(Suit::Pinzu, 5);
    let bonus = MahjongTile { suit: Suit::Pinzu, value: 5, is_dora: true };
    assert_eq!(plain, bonus);
    assert_ne!(plain, tile(Suit::Pinzu, 6));
    assert_ne!(plain, tile(Suit::Souzu, 5));
    assert!(tile(Suit::Manzu, 9) < tile(Suit::Pinzu, 1));
    assert!(tile(Suit::Kaze, 4) < tile(Suit::Sangen, 1));
    assert!(tile(Suit::Souzu, 2) < tile(Suit::Souzu, 3));
    assert!(!(plain < bonus) && !(bonus < plain));
}

#[test]
fn sorting_orders_by_suit_then_rank_and_keeps_equal_tiles_in_place() {
    let first = MahjongTile { suit: Suit::Manzu, value: 3, is_dora: true };
    let second = MahjongTile { suit: Suit::Manzu, value: 3, is_dora: false };
    let mut hand =
        vec![tile(Suit::Sangen, 1), first, tile(Suit::Pinzu, 2), second, tile(Suit::Manzu, 1)];
    sort_tiles(&mut hand);
    assert_eq!(
        hand,
        vec![
            tile(Suit::Manzu, 1),
            tile(Suit::Manzu, 3),
            tile(Suit::Manzu, 3),
            tile(Suit::Pinzu, 2),
            tile(Suit::Sangen, 1)
        ]
    );
    assert!(hand[1].is_dora);
    assert!(!hand[2].is_dora);
    assert_eq!(sorted_copy(&hand), hand);
}

#[test]
fn four_copies_give_one_triplet_and_one_pair() {
    let hand = tiles(Suit::Souzu, &[4, 4, 4, 4]);
    let (sets, pairs) = find_pairs_melds(&hand);
    assert_eq!(sets, vec![tiles(Suit::Souzu, &[4, 4, 4])]);
    assert_eq!(pairs, vec![tiles(Suit::Souzu, &[4, 4])]);
}

#[test]
fn melds_are_found_in_a_hand_that_is_not_sorted() {
    let hand = hand_of(&[(Suit::Pinzu, &[3, 1, 2]), (Suit::Kaze, &[2, 1, 3])]);
    let (sets, pairs) = find_pairs_melds(&hand);
    assert_eq!(sets, vec![tiles(Suit::Pinzu, &[1, 2, 3])]);
    assert_eq!(pairs, Vec::<Vec<MahjongTile>>::new());
}

#[test]
fn melds_come_grouped_by_suit_and_ascending() {
    let hand = hand_of(&[
        (Suit::Souzu, &[7, 8, 9, 9, 9]),
        (Suit::Manzu, &[1, 1, 1, 2, 3]),
        (Suit::Sangen, &[3, 3, 3]),
    ]);
    let (sets, pairs) = find_pairs_melds(&hand);
    assert_eq!(
        sets,
        vec![
            tiles(Suit::Manzu, &[1, 1, 1]),
            tiles(Suit::Manzu, &[1, 2, 3]),
            tiles(Suit::Souzu, &[7, 8, 9]),
            tiles(Suit::Souzu, &[9, 9, 9]),
            tiles(Suit::Sangen, &[3, 3, 3]),
        ]
    );
    assert_eq!(
        pairs,
        vec![tiles(Suit::Manzu, &[1, 1]), tiles(Suit::Souzu, &[9, 9]), tiles(Suit::Sangen, &[3, 3])]
    );
}

#[test]
fn honors_form_no_runs() {
    let hand = hand_of(&[(Suit::Kaze, &[1, 2, 3, 4]), (Suit::Sangen, &[1, 2, 3])]);
    let (sets, pairs) = find_pairs_melds(&hand);
    assert!(sets.is_empty());
    assert!(pairs.is_empty());
}

#[test]
fn every_decomposition_covers_the_hand() {
    let hand = hand_of(&[
        (Suit::Manzu, &[1, 1, 1, 2, 2, 2, 3, 3, 3]),
        (Suit::Pinzu, &[4, 5, 6]),
        (Suit::Kaze, &[2, 2]),
    ]);
    let all = decompose(&hand);
    assert_eq!(all.len(), 2);
    for d in &all {
        let flat: Vec<MahjongTile> = d.iter().flatten().copied().collect();
        assert_eq!(sorted_keys(&flat), sorted_keys(&hand));
        assert_eq!(d.iter().filter(|m| m.len() == 2).count(), 1);
        assert_eq!(d.iter().filter(|m| m.len() == 3).count(), 4);
    }
    assert_eq!(
        all[0],
        vec![
            tiles(Suit::Manzu, &[1, 1, 1]),
            tiles(Suit::Manzu, &[2, 2, 2]),
            tiles(Suit::Manzu, &[3, 3, 3]),
            tiles(Suit::Pinzu, &[4, 5, 6]),
            tiles(Suit::Kaze, &[2, 2]),
        ]
    );
    assert_eq!(
        all[1],
        vec![
            tiles(Suit::Manzu, &[1, 2, 3]),
            tiles(Suit::Manzu, &[1, 2, 3]),
            tiles(Suit::Manzu, &[1, 2, 3]),
            tiles(Suit::Pinzu, &[4, 5, 6]),
            tiles(Suit::Kaze, &[2, 2]),
        ]
    );
    assert_eq!(construct_unique_meld_set(&hand), all[0]);
}

#[test]
fn a_hand_is_complete_exactly_when_it_has_a_decomposition() {
    let complete = hand_of(&[
        (Suit::Manzu, &[2, 3, 4, 9, 9]),
        (Suit::Pinzu, &[3, 3, 4, 4, 5, 5]),
        (Suit::Souzu, &[5, 6, 7]),
    ]);
    assert!(!decompose(&complete).is_empty());
    assert!(is_complete(&complete));
    let incomplete = hand_of(&[
        (Suit::Manzu, &[1, 1, 1, 2, 3, 4, 4]),
        (Suit::Pinzu, &[3, 3]),
        (Suit::Souzu, &[2, 2, 3, 4, 5]),
    ]);
    assert!(decompose(&incomplete).is_empty());
    assert!(!is_complete(&incomplete));
}

#[test]
fn a_meld_and_a_pair_are_a_complete_hand() {
    let hand = hand_of(&[(Suit::Manzu, &[1, 2, 3]), (Suit::Pinzu, &[9, 9])]);
    assert!(is_complete(&hand));
    assert_eq!(
        construct_unique_meld_set(&hand),
        vec![tiles(Suit::Manzu, &[1, 2, 3]), tiles(Suit::Pinzu, &[9, 9])]
    );
    assert!(is_complete(&tiles(Suit::Kaze, &[3, 3])));
}

#[test]
fn hands_without_exactly_one_pair_are_not_complete() {
    assert!(!is_complete(&[]));
    assert!(!is_complete(&tiles(Suit::Manzu, &[1, 2, 3])));
    assert!(!is_complete(&hand_of(&[(Suit::Manzu, &[1, 1]), (Suit::Pinzu, &[2, 2])])));
    assert!(!is_complete(&tiles(Suit::Manzu, &[5])));
}

#[test]
fn seven_pairs_are_complete() {
    let hand = hand_of(&[
        (Suit::Manzu, &[1, 1, 5, 5]),
        (Suit::Pinzu, &[2, 2, 8, 8]),
        (Suit::Souzu, &[9, 9]),
        (Suit::Kaze, &[1, 1]),
        (Suit::Sangen, &[3, 3]),
    ]);
    assert!(decompose(&hand).is_empty());
    assert!(is_complete(&hand));
}

#[test]
fn seven_pairs_need_seven_different_tiles() {
    let hand = hand_of(&[
        (Suit::Manzu, &[1, 1, 1, 1]),
        (Suit::Pinzu, &[2, 2, 8, 8]),
        (Suit::Souzu, &[9, 9]),
        (Suit::Kaze, &[1, 1]),
        (Suit::Sangen, &[3, 3]),
    ]);
    assert!(!is_complete(&hand));
}

#[test]
fn seven_pairs_with_two_runs_in_them_are_not_complete() {
    let hand = hand_of(&[
        (Suit::Souzu, &[1, 1, 2, 2, 3, 3, 4, 4]),
        (Suit::Pinzu, &[5, 5, 7, 7, 9, 9]),
    ]);
    let (sets, _) = find_pairs_melds(&hand);
    assert_eq!(sets.len(), 2);
    assert!(!is_complete(&hand));
}

#[test]
fn six_pairs_are_not_complete() {
    let hand = hand_of(&[
        (Suit::Manzu, &[1, 1, 5, 5]),
        (Suit::Pinzu, &[2, 2, 8, 8]),
        (Suit::Souzu, &[9, 9]),
        (Suit::Kaze, &[1, 1]),
    ]);
    assert!(!is_complete(&hand));
}

#[test]
fn each_waiting_tile_completes_the_hand_and_no_other_tile_does() {
    let hand = hand_of(&[
        (Suit::Pinzu, &[2, 3, 4, 5, 6]),
        (Suit::Souzu, &[1, 2, 3, 6, 6, 6]),
        (Suit::Kaze, &[1, 1]),
    ]);
    let (waiting, waits) = check_tenpai(&hand);
    assert!(waiting);
    assert_eq!(waits, tiles(Suit::Pinzu, &[1, 4, 7]));
    let suits =
        [(Suit::Manzu, 9), (Suit::Pinzu, 9), (Suit::Souzu, 9), (Suit::Kaze, 4), (Suit::Sangen, 3)];
    for (suit, top) in suits {
        for value in 1..=top {
            let mut probe = hand.clone();
            probe.push(tile(suit, value));
            assert_eq!(is_complete(&probe), waits.contains(&tile(suit, value)));
        }
    }
}

#[test]
fn waits_are_found_in_the_order_of_the_hand_and_sorted_on_request() {
    let hand = hand_of(&[
        (Suit::Kaze, &[1, 1]),
        (Suit::Souzu, &[6, 6]),
        (Suit::Pinzu, &[1, 2, 3, 2, 3, 4]),
        (Suit::Souzu, &[1, 2, 3]),
    ]);
    let (found, waits) = find_wait(&hand);
    assert!(found);
    assert_eq!(waits, vec![tile(Suit::Kaze, 1), tile(Suit::Souzu, 6)]);
    let (_, sorted) = check_tenpai(&hand);
    assert_eq!(sorted, vec![tile(Suit::Souzu, 6), tile(Suit::Kaze, 1)]);
}

#[test]
fn no_tile_below_rank_one_or_above_rank_nine_is_tried() {
    let hand = hand_of(&[(Suit::Manzu, &[1, 9]), (Suit::Kaze, &[4]), (Suit::Sangen, &[1])]);
    let cands = wait_candidates(&hand);
    assert_eq!(
        cands,
        vec![
            tile(Suit::Manzu, 2),
            tile(Suit::Manzu, 1),
            tile(Suit::Manzu, 8),
            tile(Suit::Manzu, 9),
            tile(Suit::Kaze, 4),
            tile(Suit::Sangen, 1),
        ]
    );
    for c in &cands {
        assert!(c.well_formed());
    }
}

#[test]
fn an_edge_wait_at_the_top_of_a_series() {
    let hand = hand_of(&[
        (Suit::Manzu, &[1, 2, 3, 4, 5, 6]),
        (Suit::Pinzu, &[5, 5, 5]),
        (Suit::Souzu, &[8, 9]),
        (Suit::Sangen, &[2, 2]),
    ]);
    let (waiting, waits) = check_tenpai(&hand);
    assert!(waiting);
    assert_eq!(waits, vec![tile(Suit::Souzu, 7)]);
    let cands = wait_candidates(&hand);
    assert!(cands.iter().all(|c| (1..=9).contains(&c.value)));
}

#[test]
fn candidates_carry_no_bonus_flag_and_each_kind_once() {
    let hand = vec![
        MahjongTile { suit: Suit::Pinzu, value: 4, is_dora: true },
        MahjongTile { suit: Suit::Pinzu, value: 5, is_dora: true },
        MahjongTile { suit: Suit::Pinzu, value: 4, is_dora: false },
    ];
    let cands = wait_candidates(&hand);
    assert_eq!(cands, tiles(Suit::Pinzu, &[3, 5, 4, 6]));
    assert!(cands.iter().all(|c| !c.is_dora));
}

#[test]
fn the_canonical_decomposition_does_not_depend_on_the_order_of_the_hand() {
    let sorted = hand_of(&[
        (Suit::Manzu, &[1, 1, 2, 2, 2, 2, 3, 4]),
        (Suit::Souzu, &[2, 2, 2, 3, 4, 5]),
    ]);
    let mut shuffled = sorted.clone();
    shuffled.reverse();
    shuffled.swap(0, 7);
    shuffled.swap(3, 11);
    let first = construct_unique_meld_set(&sorted);
    assert_eq!(first, construct_unique_meld_set(&shuffled));
    assert_eq!(first, construct_unique_meld_set(&sorted));
}

#[test]
fn the_first_decomposition_in_order_is_the_canonical_one() {
    let hand = hand_of(&[
        (Suit::Pinzu, &[2, 2, 3, 3, 4, 4, 5, 5, 6, 6, 7, 7, 8, 8]),
    ]);
    let all = decompose(&hand);
    assert_eq!(all.len(), 3);
    assert_eq!(
        all[0],
        vec![
            tiles(Suit::Pinzu, &[2, 2]),
            tiles(Suit::Pinzu, &[3, 4, 5]),
            tiles(Suit::Pinzu, &[3, 4, 5]),
            tiles(Suit::Pinzu, &[6, 7, 8]),
            tiles(Suit::Pinzu, &[6, 7, 8]),
        ]
    );
    assert_eq!(construct_unique_meld_set(&hand), all[0]);
    assert!(all.windows(2).all(|w| w[0] != w[1]));
}

#[test]
fn subsets_count_each_tile_once() {
    let hand = tiles(Suit::Manzu, &[1, 2, 2, 3]);
    assert!(is_subset(&hand, &tiles(Suit::Manzu, &[2, 2])));
    assert!(is_subset(&hand, &tiles(Suit::Manzu, &[3, 1])));
    assert!(!is_subset(&hand, &tiles(Suit::Manzu, &[2, 2, 2])));
    assert!(!is_subset(&hand, &tiles(Suit::Pinzu, &[1])));
    assert!(is_subset(&hand, &[]));
    assert!(!is_subset(&[], &tiles(Suit::Manzu, &[1])));
    assert!(is_subset(&[1, 2, 2, 3], &[2, 3, 2]));
    assert!(!is_subset(&[1, 2, 2, 3], &[3, 3]));
    let flagged = vec![MahjongTile { suit: Suit::Manzu, value: 2, is_dora: true }];
    assert!(is_subset(&hand, &flagged));
}

#[test]
fn a_tile_is_looked_up_by_kind() {
    let hand = hand_of(&[(Suit::Manzu, &[5, 7, 7]), (Suit::Kaze, &[2])]);
    assert_eq!(find_tile_in_hand(&hand, &tile(Suit::Manzu, 7)), 1);
    assert_eq!(find_tile_in_hand(&hand, &tile(Suit::Kaze, 2)), 3);
    assert_eq!(find_tile_in_hand(&hand, &tile(Suit::Kaze, 3)), 14);
}

#[test]
fn a_call_for_a_triplet_takes_two_tiles() {
    let mut deck = tiles(Suit::Souzu, &[1, 4, 4, 4, 9]);
    remove_pon_tiles(&mut deck, &tile(Suit::Souzu, 4));
    assert_eq!(deck, tiles(Suit::Souzu, &[1, 4, 9]));
    remove_pon_tiles(&mut deck, &tile(Suit::Souzu, 4));
    assert_eq!(deck, tiles(Suit::Souzu, &[1, 9]));
    remove_pon_tiles(&mut deck, &tile(Suit::Souzu, 4));
    assert_eq!(deck, tiles(Suit::Souzu, &[1, 9]));
}

#[test]
fn calls_need_the_tiles_in_hand() {
    let hand = hand_of(&[(Suit::Pinzu, &[1, 2, 5, 5]), (Suit::Kaze, &[1, 1, 2, 3])]);
    assert!(can_pon(&hand, &tile(Suit::Pinzu, 5)));
    assert!(!can_pon(&hand, &tile(Suit::Pinzu, 1)));
    assert!(can_pon(&hand, &tile(Suit::Kaze, 1)));
    assert!(can_chi(&hand, &tile(Suit::Pinzu, 3)));
    assert!(!can_chi(&hand, &tile(Suit::Pinzu, 8)));
    assert!(!can_chi(&hand, &tile(Suit::Kaze, 4)));
    assert!(!can_chi(&tiles(Suit::Pinzu, &[2]), &tile(Suit::Pinzu, 3)));
}

#[test]
fn the_waiting_tiles_do_not_depend_on_the_order_or_the_flags_of_the_hand() {
    let hand = hand_of(&[
        (Suit::Souzu, &[2, 2, 2, 3, 4, 5, 6, 7, 7, 7]),
        (Suit::Kaze, &[1, 1, 1]),
    ]);
    let (_, waits) = check_tenpai(&hand);
    assert_eq!(waits, tiles(Suit::Souzu, &[1, 2, 3, 4, 5, 6, 7, 8]));
    let mut other = hand.clone();
    other.reverse();
    other.swap(1, 9);
    for t in other.iter_mut().take(5) {
        t.is_dora = true;
    }
    let (found, again) = check_tenpai(&other);
    assert!(found);
    assert_eq!(again, waits);
    assert!(again.iter().all(|t| !t.is_dora));
}

#[test]
fn a_tile_with_the_bonus_flag_completes_a_hand_as_well() {
    let mut hand = hand_of(&[
        (Suit::Manzu, &[2, 3, 4, 9, 9]),
        (Suit::Pinzu, &[3, 3, 4, 4, 5, 5]),
        (Suit::Souzu, &[5, 6]),
    ]);
    hand.push(MahjongTile { suit: Suit::Souzu, value: 7, is_dora: true });
    assert!(is_complete(&hand));
    let melds = construct_unique_meld_set(&hand);
    assert!(melds[4][2].is_dora);
    assert_eq!(melds.iter().flatten().filter(|t| t.is_dora).count(), 1);
}

#[test]
fn a_hand_with_a_tile_too_many_waits_for_nothing() {
    let hand = hand_of(&[
        (Suit::Pinzu, &[1, 1, 2, 2, 3, 3, 5, 6, 7]),
        (Suit::Souzu, &[2, 4, 5, 6]),
        (Suit::Kaze, &[1, 1]),
    ]);
    let (waiting, waits) = check_tenpai(&hand);
    assert!(!waiting);
    assert_eq!(waits, vec![]);
    for t in wait_candidates(&hand) {
        let mut probe = hand.clone();
        probe.push(t);
        assert!(!is_complete(&probe));
    }
}
