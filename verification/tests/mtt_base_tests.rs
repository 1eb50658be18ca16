//! Tests of what a tournament and its tables exchange.

use race_poker::mtt_base::{
    get_relative_position, MttTableInit, MttTablePlayer, MttTablePlayerInit, MttTableSitin, MttTableState,
    PlayerResult, PlayerResultStatus,
};

#[test]
fn test_get_relative_position() {
    let player_results = vec![
        PlayerResult::new(1, 1000, None, 1, PlayerResultStatus::Normal),
        PlayerResult::new(2, 1000, None, 2, PlayerResultStatus::Normal),
        PlayerResult::new(3, 1000, None, 3, PlayerResultStatus::Normal),
        PlayerResult::new(4, 1000, None, 4, PlayerResultStatus::Normal),
        PlayerResult::new(5, 1000, None, 5, PlayerResultStatus::Normal),
        PlayerResult::new(6, 1000, None, 6, PlayerResultStatus::Normal),
    ];

    let btn = 4;
    assert_eq!(Some(0), get_relative_position(4, btn, &player_results));
    assert_eq!(Some(3), get_relative_position(1, btn, &player_results));
    assert_eq!(Some(1), get_relative_position(5, btn, &player_results));
}

#[test]
fn test_relative_position_without_the_player_or_button() {
    let player_results = vec![
        PlayerResult::new(1, 1000, None, 1, PlayerResultStatus::Normal),
        PlayerResult::new(2, 1000, None, 2, PlayerResultStatus::Normal),
    ];
    assert_eq!(None, get_relative_position(9, 1, &player_results));
    assert_eq!(None, get_relative_position(1, 7, &player_results));
}

#[test]
fn test_table_state_from_init_seats_players_in_order() {
    let init = MttTableInit::new(3, 50, 100, 0, vec![MttTablePlayerInit::new(7, 1000), MttTablePlayerInit::new(9, 2000)]);
    let state = MttTableState::from_init(init);
    assert_eq!(state.table_id, 3);
    assert_eq!(state.players, vec![MttTablePlayer::new(7, 1000, 0, 5), MttTablePlayer::new(9, 2000, 1, 5)]);
    assert_eq!(state.hand_id, 0);
}

#[test]
fn test_table_state_remove_and_find_position() {
    let mut state = MttTableState::new(
        1,
        50,
        100,
        0,
        vec![
            MttTablePlayer::new_with_defaults(1, 100, 0),
            MttTablePlayer::new_with_defaults(2, 100, 1),
            MttTablePlayer::new_with_defaults(3, 100, 3),
        ],
    );
    assert_eq!(state.find_position(6), Some(2));
    assert!(state.remove_player(2));
    assert_eq!(state.players.len(), 2);
    assert_eq!(state.find_position(6), Some(1));
    assert!(state.remove_player(42));
    assert_eq!(state.players.len(), 2);
    assert_eq!(state.find_position(2), Some(1));
    let full = MttTableState::new(1, 50, 100, 0, vec![MttTablePlayer::new_with_defaults(1, 100, 0)]);
    assert_eq!(full.find_position(1), None);
    let sitin = MttTableSitin::new_with_defaults(5, 300);
    assert!(sitin.first_time_sit);
    assert_eq!(sitin.time_cards, 5);
}
