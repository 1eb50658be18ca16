//! Tests of the variants' checks of bets and raises and of their showdowns.

use race_poker::errors::GameError;
use race_poker::essential::Pot;
use race_poker::variant::{HoldemVariant, OmahaVariant};
use std::collections::BTreeMap;

#[test]
fn test_validate_raise_amount() {
    let v = OmahaVariant {};

    // bet 2, call 2 - bet 4, raise 10, raise ?
    let r = v.validate_raise_amount(
        1000, // player_chips
        4,    // betted
        12,   // raise_amount
        10,   // street_bet
        6,    // min_raise
        14,   // bet_sum_of_all_players
        &vec![Pot::new(vec![1, 2], 4)],
    );
    assert_eq!(r, Ok(()));

    // Pot limit-> 6(for call) + 18 (previous pot)
    let r = v.validate_raise_amount(1000, 4, 24, 10, 6, 14, &vec![Pot::new(vec![1, 2], 4)]);
    assert_eq!(r, Ok(()));

    // Over pot limit
    let r = v.validate_raise_amount(1000, 4, 25, 10, 6, 14, &vec![Pot::new(vec![1, 2], 4)]);
    assert_eq!(r, Err(GameError::RaiseExceedsPotLimit));
}

#[test]
fn test_omaha_raise_too_small_unless_all_in() {
    let v = OmahaVariant {};
    // 4 + 5 < 10 + 6
    assert_eq!(
        v.validate_raise_amount(1000, 4, 5, 10, 6, 14, &vec![Pot::new(vec![1, 2], 4)]),
        Err(GameError::RaiseAmountIsTooSmall)
    );
    // the same raise when it is all the player has
    assert_eq!(v.validate_raise_amount(5, 4, 5, 10, 6, 14, &vec![Pot::new(vec![1, 2], 4)]), Ok(()));
}

#[test]
fn test_omaha_bet_limits() {
    let v = OmahaVariant {};
    let pots = vec![Pot::new(vec![1, 2], 30), Pot::new(vec![1, 2], 20)];
    assert_eq!(v.validate_bet_amount(51, 20, 1000, &pots), Err(GameError::BetExceedsPotLimit));
    assert_eq!(v.validate_bet_amount(50, 20, 1000, &pots), Ok(()));
    assert_eq!(v.validate_bet_amount(10, 20, 1000, &pots), Err(GameError::BetAmountIsTooSmall));
    assert_eq!(v.validate_bet_amount(10, 20, 10, &pots), Ok(()));
}

#[test]
fn test_holdem_bet_and_raise_limits() {
    let v = HoldemVariant {};
    assert_eq!(v.validate_bet_amount(10, 20, 1000, &vec![]), Err(GameError::BetAmountIsTooSmall));
    assert_eq!(v.validate_bet_amount(10, 20, 10, &vec![]), Ok(()));
    assert_eq!(v.validate_bet_amount(1000, 20, 5000, &vec![]), Ok(()));
    // to 30 is less than 20 + 20
    assert_eq!(v.validate_raise_amount(1000, 10, 20, 20, 20, 0, &vec![]), Err(GameError::RaiseAmountIsTooSmall));
    assert_eq!(v.validate_raise_amount(1000, 10, 30, 20, 20, 0, &vec![]), Ok(()));
    assert_eq!(v.validate_raise_amount(20, 10, 20, 20, 20, 0, &vec![]), Ok(()));
    assert_eq!(v.hole_card_count(), 2);
    assert_eq!(OmahaVariant {}.hole_card_count(), 4);
}

#[test]
fn test_holdem_showdown_tiers() {
    let v = HoldemVariant {};
    let board: Vec<String> = vec!["sa".into(), "dt".into(), "c9".into(), "c2".into(), "hq".into()];
    let hand_index_map = BTreeMap::from([(1u64, vec![0usize, 1]), (2u64, vec![2, 3]), (3u64, vec![4, 5])]);
    let revealed = BTreeMap::from([
        (0usize, "ha".to_string()), // pair of aces
        (1, "d3".to_string()),
        (2, "hk".to_string()), // straight ten to ace
        (3, "sj".to_string()),
        (4, "ca".to_string()), // pair of aces, same kickers
        (5, "s3".to_string()),
    ]);
    let out = v.evaluate_hands(&board, &hand_index_map, &revealed).unwrap();
    assert_eq!(out.winner_sets, vec![vec![2], vec![1, 3]]);
    assert_eq!(out.showdown_map.len(), 3);
    assert_eq!(out.showdown_map[&2].hole_cards, vec!["hk".to_string(), "sj".to_string()]);
}

#[test]
fn test_holdem_showdown_needs_the_hole_cards() {
    let v = HoldemVariant {};
    let board: Vec<String> = vec!["sa".into(), "dt".into(), "c9".into(), "c2".into(), "hq".into()];
    let hand_index_map = BTreeMap::from([(1u64, vec![0usize, 1])]);
    let revealed = BTreeMap::from([(0usize, "ha".to_string())]);
    assert!(matches!(v.evaluate_hands(&board, &hand_index_map, &revealed), Err(GameError::HoleCardMissing)));
}

#[test]
fn test_holdem_showdown_refuses_a_short_board() {
    let v = HoldemVariant {};
    let board: Vec<String> = vec!["sa".into(), "dt".into(), "c9".into()];
    let hand_index_map = BTreeMap::from([(1u64, vec![0usize, 1])]);
    let revealed = BTreeMap::from([(0usize, "ha".to_string()), (1, "d3".to_string())]);
    assert!(matches!(v.evaluate_hands(&board, &hand_index_map, &revealed), Err(GameError::InvalidCards)));
}

#[test]
fn test_omaha_showdown_leaves_out_unrevealed_players() {
    let v = OmahaVariant {};
    let board: Vec<String> = vec!["sa".into(), "dt".into(), "c9".into(), "c2".into(), "hq".into()];
    let hand_index_map = BTreeMap::from([(1u64, vec![0usize, 1, 2, 3]), (2u64, vec![4, 5, 6, 7])]);
    let revealed = BTreeMap::from([
        (0usize, "ha".to_string()),
        (1, "da".to_string()),
        (2, "h4".to_string()),
        (3, "d5".to_string()),
        (4, "hk".to_string()),
    ]);
    let out = v.evaluate_hands(&board, &hand_index_map, &revealed).unwrap();
    assert_eq!(out.winner_sets, vec![vec![1]]);
    assert_eq!(out.showdown_map.len(), 1);
    assert_eq!(
        out.showdown_map[&1].hole_cards,
        vec!["ha".to_string(), "da".to_string(), "h4".to_string(), "d5".to_string()]
    );
    assert!(!out.showdown_map.contains_key(&2));
}

#[test]
fn test_omaha_showdown_uses_two_hole_cards() {
    let v = OmahaVariant {};
    // a flush on the board does not count: only two hole cards may be used
    let board: Vec<String> = vec!["s2".into(), "s5".into(), "s9".into(), "sj".into(), "sk".into()];
    let hand_index_map = BTreeMap::from([(1u64, vec![0usize, 1, 2, 3]), (2u64, vec![4, 5, 6, 7])]);
    let revealed = BTreeMap::from([
        (0usize, "sa".to_string()), // one spade: no flush
        (1, "ha".to_string()),
        (2, "c3".to_string()),
        (3, "d4".to_string()),
        (4, "s3".to_string()), // two spades: a flush
        (5, "s4".to_string()),
        (6, "h7".to_string()),
        (7, "d8".to_string()),
    ]);
    let out = v.evaluate_hands(&board, &hand_index_map, &revealed).unwrap();
    assert_eq!(out.winner_sets, vec![vec![2], vec![1]]);
    assert_eq!(out.showdown_map[&2].picks.len(), 5);
}

#[test]
fn test_omaha_showdown_evaluates_a_repeated_card_as_given() {
    let v = OmahaVariant {};
    let board: Vec<String> = vec!["sa".into(), "dt".into(), "c9".into(), "c2".into(), "hq".into()];
    let hand_index_map = BTreeMap::from([(1u64, vec![0usize, 1, 2, 3])]);
    let revealed = BTreeMap::from([
        (0usize, "sa".to_string()),
        (1, "da".to_string()),
        (2, "h4".to_string()),
        (3, "d5".to_string()),
    ]);
    let out = v.evaluate_hands(&board, &hand_index_map, &revealed).unwrap();
    assert_eq!(out.winner_sets, vec![vec![1]]);
    assert_eq!(out.showdown_map[&1].picks.len(), 5);
}
