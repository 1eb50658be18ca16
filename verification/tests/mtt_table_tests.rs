use race_poker::effect::{Effect, EffectAction};
use race_poker::errors::GameError;
use race_poker::essential::PlayerStatus;
use race_poker::event::Event;
use race_poker::mtt_base::{HoldemBridgeEvent, MttTableInit, MttTablePlayerInit, MttTableSitin};
use race_poker::mtt_table::MttTable;

fn default_players(num_of_players: usize) -> Vec<MttTablePlayerInit> {
    (1..=num_of_players)
        .map(|n| MttTablePlayerInit::new(n as u64, (n + 1) as u64 * 500))
        .collect()
}

fn default_mtt_table_state(num_of_players: usize) -> MttTableInit {
    MttTableInit {
        sb: 100,
        bb: 200,
        ante: 0,
        players: default_players(num_of_players),
        table_id: 1,
    }
}

fn mtt_table_with_players(num_of_players: usize) -> MttTable {
    let init_data = default_mtt_table_state(num_of_players);
    MttTable::init_state(&init_data, 9).unwrap()
}

fn game_result_of(effect: &Effect) -> Vec<(usize, HoldemBridgeEvent)> {
    effect
        .actions
        .iter()
        .filter_map(|a| match a {
            EffectAction::Bridge { dest, event } => Some((*dest, event.clone())),
            _ => None,
        })
        .collect()
}

#[test]
fn lib_test_init_state() {
    let init_data = MttTableInit {
        sb: 100,
        bb: 200,
        ante: 0,
        players: vec![MttTablePlayerInit::new(1, 1000), MttTablePlayerInit::new(2, 1500)],
        table_id: 1,
    };
    let mtt_table = MttTable::init_state(&init_data, 9).unwrap();
    assert_eq!(mtt_table.table_id, 1);
    assert_eq!(mtt_table.holdem.sb, 100);
    assert_eq!(mtt_table.holdem.bb, 200);
    assert_eq!(mtt_table.holdem.table_size, 9);
    assert_eq!(mtt_table.holdem.player_map.len(), 2);
}

#[test]
fn test_start_game_invalid_player_id() {
    let mut mtt_table = mtt_table_with_players(3);
    let mut effect = Effect::new(0, 1);
    let invalid_player_id_event = HoldemBridgeEvent::StartGame {
        sb: 100,
        bb: 200,
        ante: 0,
        sitout_players: vec![999],
    };
    let result = mtt_table.handle_bridge_event(&mut effect, invalid_player_id_event);
    assert!(result.is_err());
    assert_eq!(result.unwrap_err(), GameError::InvalidPlayerInStartGame);
}

#[test]
fn test_handle_bridge_event_start_game() {
    let mut mtt_table = mtt_table_with_players(3);
    let mut effect = Effect::new(0, 1);
    let bridge_event = HoldemBridgeEvent::StartGame {
        sb: 100,
        bb: 200,
        ante: 0,
        sitout_players: vec![1, 2],
    };
    mtt_table.handle_bridge_event(&mut effect, bridge_event).unwrap();
    assert_eq!(mtt_table.holdem.sb, 100);
    assert_eq!(mtt_table.holdem.bb, 200);
    assert_eq!(mtt_table.holdem.player_map.len(), 1);
}

#[test]
fn test_handle_bridge_event_relocate_duplicate_player() {
    let mut mtt_table = mtt_table_with_players(3);
    let mut effect = Effect::new(0, 1);
    let bridge_event = HoldemBridgeEvent::SitinPlayers {
        sitins: vec![MttTableSitin::new_with_defaults(1, 1000)],
    };
    let result = mtt_table.handle_bridge_event(&mut effect, bridge_event);
    assert!(result.is_err());
    assert_eq!(result.unwrap_err(), GameError::DuplicatedPlayerInRelocate);
}

#[test]
fn test_handle_bridge_event_relocate_duplicate_position() {
    let mut mtt_table = mtt_table_with_players(3);
    let mut effect = Effect::new(0, 1);
    let bridge_event = HoldemBridgeEvent::SitinPlayers {
        sitins: vec![MttTableSitin::new_with_defaults(3, 3000)],
    };
    let result = mtt_table.handle_bridge_event(&mut effect, bridge_event);
    assert!(result.is_err());
    assert_eq!(result.unwrap_err(), GameError::DuplicatedPlayerInRelocate);
}

#[test]
fn test_handle_bridge_event_relocate_in_init_stage() {
    let mut mtt_table = mtt_table_with_players(3);
    let mut effect = Effect::new(0, 1);
    let sitins = vec![
        MttTableSitin::new_with_defaults(4, 1000),
        MttTableSitin::new_with_defaults(5, 1500),
    ];
    let bridge_event = HoldemBridgeEvent::SitinPlayers { sitins };
    mtt_table.handle_bridge_event(&mut effect, bridge_event).unwrap();
    assert_eq!(mtt_table.holdem.player_map.len(), 5);
    assert!(mtt_table.holdem.player_map.contains_key(&4));
    assert!(mtt_table.holdem.player_map.contains_key(&5));
    assert!(!effect.actions.iter().any(|a| matches!(a, EffectAction::WaitTimeout { .. })));
    assert_eq!(game_result_of(&effect), vec![]);
}

#[test]
fn test_handle_bridge_event_relocate_in_init_stage_with_0_player() {
    let mut mtt_table = mtt_table_with_players(0);
    let mut effect = Effect::new(0, 1);
    let sitins = vec![MttTableSitin::new_with_defaults(1, 500)];
    let bridge_event = HoldemBridgeEvent::SitinPlayers { sitins };
    mtt_table.handle_bridge_event(&mut effect, bridge_event).unwrap();
    assert_eq!(mtt_table.holdem.player_map.len(), 1);
    assert!(mtt_table.holdem.player_map.contains_key(&1));
    assert!(effect.is_checkpoint());
    assert!(!effect.actions.iter().any(|a| matches!(a, EffectAction::WaitTimeout { .. })));
    assert_eq!(
        game_result_of(&effect),
        vec![(
            0,
            HoldemBridgeEvent::GameResult {
                hand_id: mtt_table.holdem.hand_id,
                table_id: mtt_table.table_id,
                btn: mtt_table.holdem.btn as u8,
                player_results: vec![],
                table: mtt_table.make_mtt_table_state(),
            }
        )]
    );
}

#[test]
fn test_handle_bridge_event_relocate_in_init_stage_with_1_player() {
    let mut mtt_table = mtt_table_with_players(1);
    let mut effect = Effect::new(0, 1);
    let sitins = vec![MttTableSitin::new_with_defaults(2, 500)];
    let bridge_event = HoldemBridgeEvent::SitinPlayers { sitins };
    mtt_table.handle_bridge_event(&mut effect, bridge_event).unwrap();
    assert_eq!(mtt_table.holdem.player_map.len(), 2);
    assert!(mtt_table.holdem.player_map.contains_key(&1));
    assert!(mtt_table.holdem.player_map.contains_key(&2));
    assert!(effect.is_checkpoint());
    assert_eq!(
        game_result_of(&effect),
        vec![(
            0,
            HoldemBridgeEvent::GameResult {
                hand_id: mtt_table.holdem.hand_id,
                table_id: mtt_table.table_id,
                btn: mtt_table.holdem.btn as u8,
                player_results: vec![],
                table: mtt_table.make_mtt_table_state(),
            }
        )]
    );
}

#[test]
fn test_handle_bridge_event_close_table() {
    let init = MttTableInit { table_id: 0, sb: 0, bb: 0, ante: 0, players: vec![] };
    let mut mtt_table = MttTable::init_state(&init, 0).unwrap();
    let mut effect = Effect::new(0, 1);
    mtt_table.handle_bridge_event(&mut effect, HoldemBridgeEvent::CloseTable).unwrap();
    assert!(mtt_table.holdem.player_map.is_empty());
    assert!(effect.is_checkpoint());
}

#[test]
fn sitin_player_seats_and_status() {
    // A moved player waits for the next hand; a first-time one for the big blind.
    let mut mtt_table = mtt_table_with_players(2);
    let mut effect = Effect::new(0, 1);
    let sitins = vec![
        MttTableSitin::new(7, 800, 3, false),
        MttTableSitin::new(8, 900, 5, true),
    ];
    mtt_table
        .handle_bridge_event(&mut effect, HoldemBridgeEvent::SitinPlayers { sitins })
        .unwrap();
    let p7 = mtt_table.holdem.player_map.get(&7).unwrap();
    assert_eq!((p7.position, p7.status, p7.time_cards), (2, PlayerStatus::Init, 3));
    let p8 = mtt_table.holdem.player_map.get(&8).unwrap();
    assert_eq!((p8.position, p8.status), (3, PlayerStatus::Waitbb));
    assert!(effect.actions.is_empty());
}

#[test]
fn start_game_with_players_asks_to_start() {
    let mut mtt_table = mtt_table_with_players(3);
    let mut effect = Effect::new(0, 1);
    mtt_table
        .handle_bridge_event(
            &mut effect,
            HoldemBridgeEvent::StartGame { sb: 200, bb: 400, ante: 50, sitout_players: vec![3] },
        )
        .unwrap();
    assert_eq!((mtt_table.holdem.sb, mtt_table.holdem.bb, mtt_table.holdem.ante), (200, 400, 50));
    assert_eq!(effect.actions, vec![EffectAction::StartGame]);
}

#[test]
fn game_result_from_table_is_refused() {
    let mut mtt_table = mtt_table_with_players(2);
    let mut effect = Effect::new(0, 1);
    let table = mtt_table.make_mtt_table_state();
    let ev = HoldemBridgeEvent::GameResult { hand_id: 0, table_id: 1, btn: 0, player_results: vec![], table };
    assert_eq!(
        mtt_table.handle_bridge_event(&mut effect, ev),
        Err(GameError::InternalInvalidBridgeEvent)
    );
}

#[test]
fn bridge_event_for_another_table_is_refused() {
    let mut mtt_table = mtt_table_with_players(2);
    let mut effect = Effect::new(0, 1);
    let ev = Event::Bridge { dest_game_id: 5, event: HoldemBridgeEvent::CloseTable };
    assert_eq!(mtt_table.handle_event(&mut effect, ev), Err(GameError::InvalidBridgeEvent));
    assert_eq!(mtt_table.holdem.player_map.len(), 2);
}

#[test]
fn table_state_lists_players_by_id() {
    let mtt_table = mtt_table_with_players(3);
    let state = mtt_table.make_mtt_table_state();
    assert_eq!(state.table_id, 1);
    assert_eq!(state.players.iter().map(|p| (p.id, p.chips, p.position)).collect::<Vec<_>>(),
        vec![(1, 1000, 0), (2, 1500, 1), (3, 2000, 2)]);
}
