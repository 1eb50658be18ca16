use race_poker::holdem_evaluator::{
    check_same_kinds, compare_hands, compare_kinds, create_cards, evaluate_cards, find_flush,
    find_royal_flush, find_straight_flush, find_straights, sort_suited_cards, validate_cards,
    Category, PlayerHand,
};
use std::cmp::Ordering;

#[test]
fn sorting_cards() {
    // A single card is a 2-char string literal: Suit-Kind
    // For example, "hq" represents Heart Queen
    let community_cards: [&str; 5] = ["sa", "c2", "c7", "h2", "d5"];
    let hand: [&str; 2] = ["ca", "c4"]; // pair A
    let mut cards = create_cards(&community_cards, &hand);
    cards.sort_by(|&c1, &c2| compare_kinds(c1, c2));
    // Test sorted cards
    assert!(validate_cards(&cards));
    assert_eq!("ca", cards[1]);
    assert_eq!(vec!["sa", "ca", "c7", "d5", "c4", "c2", "h2"], cards);

    // Test sorting cards by grouped-kinds
    let sorted_cards = sort_suited_cards(&cards);
    assert_eq!(7, sorted_cards.len());
    assert_eq!(vec!["sa", "ca", "c2", "h2", "c7", "d5", "c4"], sorted_cards);
}

#[test]
fn test_flush() {
    // Test flush
    let hole_card: [&str; 2] = ["d2", "h9"];
    let board: [&str; 5] = ["da", "dt", "c7", "d6", "d5"];
    let cards = create_cards(&board, &hole_card);
    assert!(validate_cards(&cards));

    let (has_flush, flush_cards) = find_flush(&cards);
    assert!(has_flush);
    assert_eq!(5, flush_cards.len());
    assert_eq!(vec!["da", "dt", "d6", "d5", "d2"], flush_cards);
}

#[test]
fn test_straights() {
    // Test one normal straight: two _6 cards lead to 2 straights
    // ["d9", "d8", "c7", "d6", "s5"] and ["d9", "d8", "c7", "h6", "s5"]
    let hole_cards1: [&str; 2] = ["s5", "h6"];
    let board1: [&str; 5] = ["ca", "d6", "c7", "d8", "d9"];
    let mut cards1 = create_cards(&board1, &hole_cards1);
    cards1.sort_by(|&c1, &c2| compare_kinds(c1, c2));

    let (has_straights1, straights1) = find_straights(&cards1);
    assert!(has_straights1);
    assert_eq!(2, straights1.len());
    assert_eq!(vec!["d9", "d8", "c7", "d6", "s5"], straights1[0]);
    assert_eq!(vec!["d9", "d8", "c7", "h6", "s5"], straights1[1]);

    // Test three straights: [10,9,8,7,6,5,4]
    let hole_cards2: [&str; 2] = ["st", "h9"];
    let board2: [&str; 5] = ["c6", "d5", "c7", "d8", "d4"];
    let mut cards2 = create_cards(&board2, &hole_cards2);
    cards2.sort_by(|c1, c2| compare_kinds(c1, c2));

    let (has_straights2, straights2) = find_straights(&cards2);
    assert!(has_straights2);
    assert_eq!(3, straights2.len());
    assert_eq!(vec!["st", "h9", "d8", "c7", "c6"], straights2[0]);
    assert_eq!(vec!["h9", "d8", "c7", "c6", "d5"], straights2[1]);
    assert_eq!(vec!["d8", "c7", "c6", "d5", "d4"], straights2[2]);

    // Test A hight straight [14,13,12,11,10]
    let hole_cards3: [&str; 2] = ["sa", "hq"];
    let board3: [&str; 5] = ["cj", "dt", "ck", "sk", "hk"];
    let mut cards3 = create_cards(&board3, &hole_cards3);
    cards3.sort_by(|c1, c2| compare_kinds(c1, c2));

    let (has_straights3, straights3) = find_straights(&cards3);
    assert!(has_straights3);
    assert_eq!(3, straights3.len());
    assert_eq!(vec!["sa", "ck", "hq", "cj", "dt"], straights3[0]);
    assert_eq!(vec!["sa", "sk", "hq", "cj", "dt"], straights3[1]);
    assert_eq!(vec!["sa", "hk", "hq", "cj", "dt"], straights3[2]);

    // Test Five high straight [14,5,4,3,2]
    let hole_cards4: [&str; 2] = ["sa", "h7"];
    let board4: [&str; 5] = ["c5", "d3", "c2", "ha", "d4"];
    let mut cards4 = create_cards(&board4, &hole_cards4);
    cards4.sort_by(|c1, c2| compare_kinds(c1, c2));

    let (has_straights4, straights4) = find_straights(&cards4);
    assert!(has_straights4);
    assert_eq!(2, straights4.len());
    assert_eq!(vec!["c5", "d4", "d3", "c2", "ha"], straights4[0]);
    assert_eq!(vec!["c5", "d4", "d3", "c2", "sa"], straights4[1]);

    // Test Four of a kind or full house (this is by accident)
    let hole_cards5: [&str; 2] = ["sa", "h7"];
    let board5: [&str; 5] = ["ca", "d7", "c2", "ha", "d4"];
    let mut cards5 = create_cards(&board5, &hole_cards5);
    cards5.sort_by(|c1, c2| compare_kinds(c1, c2));

    let (has_straights5, _straights5) = find_straights(&cards5);
    assert!(!has_straights5);
}

#[test]
fn test_fullhouse() {
    let hole_cards: [&str; 2] = ["sa", "h7"];
    let board: [&str; 5] = ["ca", "d7", "c2", "ha", "d4"];
    let result = evaluate_cards(create_cards(&board, &hole_cards));
    assert_eq!(result.category, Category::FullHouse);
}

#[test]
fn test_four_of_a_kind() {
    let hole_cards: [&str; 2] = ["sa", "h7"];
    let board: [&str; 5] = ["ca", "d7", "da", "ha", "d4"];
    let result = evaluate_cards(create_cards(&board, &hole_cards));
    assert_eq!(result.category, Category::FourOfAKind);
}

#[test]
fn test_two_pairs() {
    let hole_cards: [&str; 2] = ["c9", "dt"];
    let board: [&str; 5] = ["hq", "cq", "dk", "d9", "ct"];
    let result = evaluate_cards(create_cards(&board, &hole_cards));
    assert_eq!(result.picks, vec!["hq", "cq", "ct", "dt", "dk"]);
    assert_eq!(result.value, vec![2, 12, 12, 10, 10, 13]);
    assert_eq!(result.category, Category::TwoPairs);

    let hole_cards: [&str; 2] = ["c9", "da"];
    let board: [&str; 5] = ["hq", "cq", "dk", "d9", "ct"];
    let result = evaluate_cards(create_cards(&board, &hole_cards));
    assert_eq!(result.picks, vec!["hq", "cq", "d9", "c9", "da"]);
    assert_eq!(result.value, vec![2, 12, 12, 9, 9, 14]);
    assert_eq!(result.category, Category::TwoPairs);
}

#[test]
fn test_royal_flush() {
    let hole_cards: [&str; 2] = ["sa", "sq"];
    let board: [&str; 5] = ["sk", "hk", "hj", "sj", "st"];
    let mut cards = create_cards(&board, &hole_cards);
    cards.sort_by(|c1, c2| compare_kinds(c1, c2));

    let (has_rf, rf) = find_royal_flush(&cards);
    assert!(has_rf);
    assert_eq!(5, rf.len());
    assert_eq!(vec!["sa", "sk", "sq", "sj", "st"], rf);
}

#[test]
fn test_straight_flush() {
    let hole_cards: [&str; 2] = ["ha", "h5"];
    let board: [&str; 5] = ["h7", "h6", "h2", "h3", "h4"];
    let mut cards = create_cards(&board, &hole_cards);
    cards.sort_by(|c1, c2| compare_kinds(c1, c2));

    let (has_f, flush) = find_flush(&cards);
    let (has_s, straights) = find_straights(&cards);
    let sf = find_straight_flush(&flush, &straights);

    assert!(has_f);
    assert!(has_s);
    assert_eq!(7, flush.len());
    assert_eq!(3, straights.len());
    assert_eq!(vec!["h7", "h6", "h5", "h4", "h3"], sf[0]);
    assert_eq!(vec!["h6", "h5", "h4", "h3", "h2"], sf[1]);
    assert_eq!(vec!["h5", "h4", "h3", "h2", "ha"], sf[2]);
}

#[test]
fn test_pairs() {
    let hole_cards: [&str; 2] = ["ha", "h5"];
    let board: [&str; 5] = ["d7", "c6", "s7", "c7", "st"];
    let cards = create_cards(&board, &hole_cards);
    let sorted_by_group: Vec<&str> = sort_suited_cards(&cards);
    let sorted_kinds: Vec<&str> = sorted_by_group
        .iter()
        .map(|&c| -> &str {
            let (_, k) = c.split_at(1);
            k
        })
        .collect();

    assert!(check_same_kinds(&sorted_kinds, Category::ThreeOfAKind));
}

#[test]
fn test_evaluator() {
    let hole_cards: [&str; 2] = ["ha", "h5"];
    let board: [&str; 5] = ["d7", "c6", "s7", "c7", "st"];
    let cards = create_cards(&board, &hole_cards);

    let result: PlayerHand = evaluate_cards(cards);
    assert_eq!(result.category, Category::ThreeOfAKind);
    assert_eq!(vec!["d7", "s7", "c7", "ha", "st"], result.picks);
    assert_eq!(vec![3, 7, 7, 7, 14, 10], result.value);

    let hole_cards1: [&str; 2] = ["c4", "hk"];
    let hole_cards2: [&str; 2] = ["sa", "d9"];
    let board: [&str; 5] = ["d2", "da", "s2", "h3", "h5"];
    let cards1 = create_cards(&board, &hole_cards1);
    let cards2 = create_cards(&board, &hole_cards2);

    let result1: PlayerHand = evaluate_cards(cards1);
    assert_eq!(result1.category, Category::Straight);
    let result2: PlayerHand = evaluate_cards(cards2);
    assert_eq!(result2.category, Category::TwoPairs);
}

#[test]
fn test_compare_hands() {
    let hole_cards1: [&str; 2] = ["h7", "h5"]; // FullHouse
    let hole_cards2: [&str; 2] = ["s2", "d8"]; // two pairs
    let board: [&str; 5] = ["d7", "c6", "s6", "c7", "st"];
    let cards1 = create_cards(&board, &hole_cards1);
    let cards2 = create_cards(&board, &hole_cards2);
    let hand1: PlayerHand = evaluate_cards(cards1);
    let hand2: PlayerHand = evaluate_cards(cards2);

    // Test detail of two hands
    assert_eq!(Category::FullHouse, hand1.category);
    assert_eq!(Category::TwoPairs, hand2.category);
    assert_eq!(vec!["d7", "c7", "h7", "c6", "s6"], hand1.picks);
    assert_eq!(vec!["d7", "c7", "c6", "s6", "st"], hand2.picks);
    assert_eq!(vec![6, 7, 7, 7, 6, 6], hand1.value);
    assert_eq!(vec![2, 7, 7, 6, 6, 10], hand2.value);

    // Test result
    let result = compare_hands(&hand1.value, &hand2.value);
    assert_eq!(Ordering::Greater, result);

    // Test two equal hands: both are 10 pair
    let hole_cards3: [&str; 2] = ["d9", "h4"];
    let hole_cards4: [&str; 2] = ["h9", "s4"];
    let cmt_cards2: [&str; 5] = ["st", "ht", "sk", "c8", "d5"];
    let cards3 = create_cards(&cmt_cards2, &hole_cards3);
    let cards4 = create_cards(&cmt_cards2, &hole_cards4);
    let hand3: PlayerHand = evaluate_cards(cards3);
    let hand4: PlayerHand = evaluate_cards(cards4);

    // Test the detail of the two hands
    assert_eq!(Category::Pair, hand3.category);
    assert_eq!(Category::Pair, hand4.category);
    assert_eq!(vec!["st", "ht", "sk", "d9", "c8"], hand3.picks);
    assert_eq!(vec!["st", "ht", "sk", "h9", "c8"], hand4.picks);
    assert_eq!(vec![1, 10, 10, 13, 9, 8], hand3.value);
    assert_eq!(vec![1, 10, 10, 13, 9, 8], hand4.value);

    // Test result
    let result = compare_hands(&hand3.value, &hand4.value);
    assert_eq!(Ordering::Equal, result);
}

#[test]
fn test_four_of_a_kind_takes_the_highest_kicker() {
    let cards = vec!["ha", "sa", "ca", "da", "h2", "s2", "ck"];
    let result = evaluate_cards(cards);
    assert_eq!(result.category, Category::FourOfAKind);
    assert_eq!(result.value, vec![7, 14, 14, 14, 14, 13]);
    assert_eq!(result.picks, vec!["ha", "sa", "ca", "da", "ck"]);
}

#[test]
fn omaha_best_hand_takes_two_hole_and_three_board_cards() {
    // Four spades on the board and one in the hand make no flush in Omaha:
    // the best is the pair of kings in the hand with three board cards.
    let hole = ["s2", "hk", "dk", "c3"];
    let board = ["sa", "sq", "sj", "st", "h4"];
    let hand = race_poker::omaha_evaluator::evaluate_omaha_hand(&hole, &board);
    assert_eq!(hand.category, Category::Pair);
    let from_hole = hand.picks.iter().filter(|p| hole.contains(&p.as_str())).count();
    let from_board = hand.picks.iter().filter(|p| board.contains(&p.as_str())).count();
    assert_eq!(from_hole, 2);
    assert_eq!(from_board, 3);
}

#[test]
fn evaluate_cards_takes_more_than_seven_cards() {
    let cards = vec!["ha", "sa", "ca", "da", "h2", "s2", "ck", "d3"];
    let hand = evaluate_cards(cards);
    assert_eq!(hand.category, Category::FourOfAKind);
    assert_eq!(hand.value, vec![7, 14, 14, 14, 14, 13]);
}
