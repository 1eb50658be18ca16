use std::collections::BTreeMap;

use race_poker::effect::{Effect, EffectAction};
use race_poker::event::Event;
use race_poker::mtt::{BlindInfo, Mtt, MttStage, PlayerRank, PlayerRankStatus};
use race_poker::mtt_base::{
    ChipsChange, HoldemBridgeEvent, MttTablePlayer, MttTableSitin, MttTableState, PlayerResult, PlayerResultStatus,
};

const DEFAULT_SB: u64 = 50;
const DEFAULT_BB: u64 = 100;

fn blank_mtt() -> Mtt {
    Mtt {
        start_time: 0,
        entry_close_time: 0,
        in_the_money: false,
        alives: 0,
        stage: MttStage::Init,
        table_assigns: BTreeMap::new(),
        table_assigns_pending: BTreeMap::new(),
        ranks: vec![],
        tables: BTreeMap::new(),
        table_size: 0,
        time_elapsed: 0,
        timestamp: 0,
        start_chips: 0,
        blind_info: BlindInfo::default(),
        prize_rules: vec![],
        total_prize: 0,
        total_rake: 0,
        total_bounty: 0,
        ticket: 0,
        theme: None,
        subgame_bundle: String::new(),
        winners: vec![],
        launched_table_ids: vec![],
        player_balances: BTreeMap::new(),
        min_players: 0,
        rake: 0,
        bounty: 0,
    }
}

/// An effect whose first new table gets the id 0.
fn fresh_effect() -> Effect {
    Effect { next_sub_game_id: 0, ..Effect::new(0, 1) }
}

/// A tournament being played, with tables holding the given numbers of
/// players, every player holding 10000 chips.
fn create_mtt_with_players(player_nums_per_table: &[usize], table_size: u8) -> Mtt {
    let start_chips = 10000;
    let mut mtt = blank_mtt();
    mtt.stage = MttStage::Playing;
    mtt.table_size = table_size;
    mtt.start_chips = start_chips;
    let mut rank_id: u64 = 1;
    let mut table_id = 0;
    for player_num in player_nums_per_table {
        table_id += 1;
        let mut players = vec![];
        for i in 0..*player_num {
            mtt.ranks.push(PlayerRank::new(
                rank_id,
                start_chips,
                PlayerRankStatus::Play,
                (rank_id % table_size as u64) as u16,
            ));
            players.push(MttTablePlayer::new_with_defaults(rank_id, start_chips, i as u8));
            mtt.table_assigns.insert(rank_id, table_id);
            rank_id += 1;
        }
        mtt.tables.insert(table_id, MttTableState::new(table_id, DEFAULT_SB, DEFAULT_BB, 0, players));
    }
    mtt
}

fn add_player_to_mtt(mtt: &mut Mtt) -> u64 {
    let l = mtt.ranks.len();
    let player_id = (l + 1) as u64;
    mtt.ranks.push(PlayerRank::new(player_id, 1000, PlayerRankStatus::Pending, l as u16));
    player_id
}

fn bridges(effect: &Effect) -> Vec<(usize, HoldemBridgeEvent)> {
    effect
        .actions
        .iter()
        .filter_map(|a| match a {
            EffectAction::Bridge { dest, event } => Some((*dest, event.clone())),
            _ => None,
        })
        .collect()
}

fn launched(effect: &Effect) -> Vec<MttTableState> {
    effect
        .actions
        .iter()
        .filter_map(|a| match a {
            EffectAction::LaunchSubGame { table } => Some(table.clone()),
            _ => None,
        })
        .collect()
}

fn rank_chips(mtt: &Mtt, id: u64) -> u64 {
    mtt.get_rank(id).unwrap().chips
}

/// The state a table reports after a hand.
fn reported_table(table_id: usize, players: Vec<MttTablePlayer>) -> MttTableState {
    MttTableState { hand_id: 1, ..MttTableState::new(table_id, 0, 0, 0, players) }
}

fn game_result(table_id: usize, player_results: Vec<PlayerResult>, table: MttTableState) -> Event {
    Event::Bridge {
        dest_game_id: 0,
        event: HoldemBridgeEvent::GameResult { hand_id: 1, table_id, btn: 0, player_results, table },
    }
}

fn eliminated(id: u64) -> PlayerResult {
    PlayerResult::new(id, 0, Some(ChipsChange::Sub(10000)), 0, PlayerResultStatus::Eliminated)
}

fn doubled(id: u64) -> PlayerResult {
    PlayerResult::new(id, 20000, Some(ChipsChange::Add(10000)), 0, PlayerResultStatus::Normal)
}

fn unchanged(id: u64) -> PlayerResult {
    PlayerResult::new(id, 10000, None, 0, PlayerResultStatus::Normal)
}

fn start_game(sitout_players: Vec<u64>) -> HoldemBridgeEvent {
    HoldemBridgeEvent::StartGame { sb: DEFAULT_SB, bb: DEFAULT_BB, ante: 0, sitout_players }
}

#[test]
fn test_game_result_given_3_tables_and_current_table_has_1_player_do_dispatch_nothing() {
    let mut mtt = create_mtt_with_players(&[3, 3, 2], 3);
    let mut effect = fresh_effect();
    let table = reported_table(3, vec![MttTablePlayer::new_with_defaults(8, 20000, 1)]);
    let ev = game_result(3, vec![eliminated(7), doubled(8)], table);
    mtt.handle_event(&mut effect, ev).unwrap();
    assert_eq!(rank_chips(&mtt, 7), 0);
    assert_eq!(rank_chips(&mtt, 8), 20000);
    assert_eq!(bridges(&effect), vec![]);
}

#[test]
fn test_game_result_given_2_tables_and_current_table_has_1_player_do_dispatch_nothing() {
    let mut mtt = create_mtt_with_players(&[3, 2], 3);
    let mut effect = fresh_effect();
    let table = reported_table(2, vec![MttTablePlayer::new_with_defaults(5, 20000, 1)]);
    let ev = game_result(2, vec![eliminated(4), doubled(5)], table);
    mtt.handle_event(&mut effect, ev).unwrap();
    assert_eq!(rank_chips(&mtt, 4), 0);
    assert_eq!(rank_chips(&mtt, 5), 20000);
    assert_eq!(bridges(&effect), vec![]);
}

#[test]
fn test_game_result_given_3_tables_and_single_player_in_different_table_do_dispatch_relocate_and_start_game() {
    let mut mtt = create_mtt_with_players(&[3, 3, 1], 3);
    let mut effect = fresh_effect();
    let table = reported_table(
        2,
        vec![
            MttTablePlayer::new_with_defaults(4, 10000, 0),
            MttTablePlayer::new_with_defaults(5, 10000, 1),
            MttTablePlayer::new_with_defaults(6, 10000, 2),
        ],
    );
    mtt.handle_event(&mut effect, game_result(2, vec![], table)).unwrap();
    assert_eq!(mtt.tables.get(&1).unwrap().players.len(), 3);
    assert_eq!(mtt.tables.get(&2).unwrap().players.len(), 2);
    assert_eq!(mtt.tables.get(&3).unwrap().players.len(), 1);
    assert_eq!(
        bridges(&effect),
        vec![
            (2, start_game(vec![4])),
            (3, HoldemBridgeEvent::SitinPlayers { sitins: vec![MttTableSitin::new_with_defaults(4, 10000)] }),
        ]
    );
}

#[test]
fn test_game_result_given_3_tables_do_close_table() {
    let mut mtt = create_mtt_with_players(&[3, 3, 1], 3);
    mtt.stage = MttStage::Playing;
    let mut effect = fresh_effect();
    let table = reported_table(
        1,
        vec![MttTablePlayer::new_with_defaults(1, 20000, 0), MttTablePlayer::new_with_defaults(3, 10000, 2)],
    );
    mtt.handle_event(&mut effect, game_result(1, vec![eliminated(2), doubled(1)], table)).unwrap();
    assert_eq!(mtt.tables.len(), 2);
    assert_eq!(rank_chips(&mtt, 2), 0);
    assert_eq!(rank_chips(&mtt, 1), 20000);
    assert_eq!(mtt.tables.get(&1), None);
    assert_eq!(mtt.tables.get(&2).unwrap().players.len(), 3);
    assert_eq!(mtt.tables.get(&3).unwrap().players.len(), 1);
    assert_eq!(
        bridges(&effect),
        vec![
            (1, HoldemBridgeEvent::CloseTable),
            (
                3,
                HoldemBridgeEvent::SitinPlayers {
                    sitins: vec![
                        MttTableSitin::new_with_defaults(1, 20000),
                        MttTableSitin::new_with_defaults(3, 10000),
                    ],
                }
            ),
        ]
    );
}

#[test]
fn test_game_result_given_2_tables_do_close_table() {
    let mut mtt = create_mtt_with_players(&[2, 2], 3);
    let mut effect = fresh_effect();
    let table = reported_table(1, vec![MttTablePlayer::new_with_defaults(1, 20000, 0)]);
    mtt.handle_event(&mut effect, game_result(1, vec![eliminated(2), doubled(1)], table)).unwrap();
    assert_eq!(rank_chips(&mtt, 2), 0);
    assert_eq!(rank_chips(&mtt, 1), 20000);
    assert_eq!(
        bridges(&effect),
        vec![
            (1, HoldemBridgeEvent::CloseTable),
            (2, HoldemBridgeEvent::SitinPlayers { sitins: vec![MttTableSitin::new_with_defaults(1, 20000)] }),
        ]
    );
}

#[test]
fn test_game_result_given_2_tables_move_one_player() {
    let mut mtt = create_mtt_with_players(&[3, 1], 3);
    let mut effect = fresh_effect();
    let table = reported_table(
        1,
        vec![
            MttTablePlayer::new_with_defaults(1, 10000, 0),
            MttTablePlayer::new_with_defaults(2, 10000, 1),
            MttTablePlayer::new_with_defaults(3, 10000, 2),
        ],
    );
    mtt.handle_event(&mut effect, game_result(1, vec![], table)).unwrap();
    assert_eq!(
        bridges(&effect),
        vec![
            (1, start_game(vec![1])),
            (2, HoldemBridgeEvent::SitinPlayers { sitins: vec![MttTableSitin::new_with_defaults(1, 10000)] }),
        ]
    );
    assert_eq!(mtt.table_assigns.get(&1), None);
    assert_eq!(mtt.table_assigns_pending.get(&1), Some(&2));
    assert_eq!(mtt.table_assigns.get(&2), Some(&1));
    assert_eq!(mtt.table_assigns.get(&3), Some(&1));
    assert_eq!(mtt.table_assigns.get(&4), Some(&2));
    assert_eq!(mtt.tables.get(&1).map(|t| t.players.len()), Some(2));
    assert_eq!(mtt.tables.get(&2).map(|t| t.players.len()), Some(1));
}

#[test]
fn test_game_result_no_op_when_players_are_moving() {
    let mut mtt = create_mtt_with_players(&[3, 3], 4);
    let mut effect = fresh_effect();
    mtt.table_assigns_pending.insert(4, 1);
    let table = reported_table(
        1,
        vec![
            MttTablePlayer::new_with_defaults(1, 10000, 0),
            MttTablePlayer::new_with_defaults(2, 10000, 1),
            MttTablePlayer::new_with_defaults(3, 10000, 2),
        ],
    );
    mtt.handle_event(&mut effect, game_result(1, vec![], table)).unwrap();
    assert_eq!(bridges(&effect), vec![(1, start_game(vec![]))]);
    assert_eq!(mtt.table_assigns_pending.get(&4), Some(&1));
    assert_eq!(mtt.tables.get(&1).unwrap().players.len(), 3);
    assert_eq!(mtt.tables.get(&2).unwrap().players.len(), 3);
}

#[test]
fn test_game_result_given_moving_player_sitted_do_no_balance_table() {
    let mut mtt = create_mtt_with_players(&[2, 4], 4);
    let mut effect = fresh_effect();
    mtt.table_assigns_pending.insert(3, 1);
    let table = reported_table(
        1,
        vec![
            MttTablePlayer::new_with_defaults(1, 10000, 0),
            MttTablePlayer::new_with_defaults(2, 10000, 1),
            MttTablePlayer::new_with_defaults(3, 10000, 2),
        ],
    );
    let results = vec![unchanged(1), unchanged(2), unchanged(3)];
    mtt.handle_event(&mut effect, game_result(1, results, table)).unwrap();
    assert_eq!(bridges(&effect), vec![(1, start_game(vec![]))]);
    assert!(mtt.table_assigns_pending.is_empty());
    assert_eq!(mtt.table_assigns.get(&3), Some(&1));
    assert_eq!(mtt.tables.get(&1).unwrap().players.len(), 3);
}

#[test]
fn test_game_result_given_moving_player_sitted_do_balance_table() {
    let mut mtt = create_mtt_with_players(&[4, 2], 6);
    let mut effect = fresh_effect();
    mtt.table_assigns_pending.insert(5, 1);
    let table = reported_table(
        1,
        vec![
            MttTablePlayer::new_with_defaults(1, 10000, 0),
            MttTablePlayer::new_with_defaults(2, 10000, 1),
            MttTablePlayer::new_with_defaults(3, 10000, 2),
            MttTablePlayer::new_with_defaults(4, 10000, 2),
            MttTablePlayer::new_with_defaults(5, 10000, 2),
        ],
    );
    let results = vec![unchanged(1), unchanged(2), unchanged(3), unchanged(4), unchanged(5)];
    mtt.handle_event(&mut effect, game_result(1, results, table)).unwrap();
    assert_eq!(
        bridges(&effect),
        vec![
            (1, start_game(vec![1])),
            (2, HoldemBridgeEvent::SitinPlayers { sitins: vec![MttTableSitin::new_with_defaults(1, 10000)] }),
        ]
    );
    assert_eq!(mtt.table_assigns_pending.get(&1), Some(&2));
    assert_eq!(mtt.table_assigns_pending.get(&5), None);
    assert_eq!(mtt.table_assigns.get(&5), Some(&1));
    assert_eq!(mtt.tables.get(&1).unwrap().players.len(), 4);
    assert_eq!(mtt.tables.get(&2).unwrap().players.len(), 2);
}

#[test]
fn test_game_result_with_table_reservation_pre_entry_close() {
    let mut mtt = create_mtt_with_players(&[3, 3, 2], 3);
    let mut effect = fresh_effect();
    mtt.entry_close_time = effect.timestamp() + 1000;
    let table = reported_table(
        1,
        vec![MttTablePlayer::new_with_defaults(2, 20000, 0), MttTablePlayer::new_with_defaults(3, 10000, 2)],
    );
    mtt.handle_event(&mut effect, game_result(1, vec![eliminated(1), doubled(2)], table)).unwrap();
    assert_eq!(mtt.tables.len(), 3);
    assert_eq!(mtt.tables.get(&1).unwrap().players.len(), 2);
    assert_eq!(mtt.tables.get(&2).unwrap().players.len(), 3);
    assert_eq!(mtt.tables.get(&3).unwrap().players.len(), 2);
    assert_eq!(bridges(&effect), vec![(1, start_game(vec![]))]);
}

#[test]
fn test_game_result_given_enough_reservation_do_close_table() {
    let mut mtt = create_mtt_with_players(&[3, 2, 3, 2], 3);
    let mut effect = fresh_effect();
    mtt.entry_close_time = effect.timestamp() + 1000;
    let table = reported_table(1, vec![MttTablePlayer::new_with_defaults(10, 10000, 1)]);
    mtt.handle_event(&mut effect, game_result(4, vec![eliminated(9), doubled(10)], table)).unwrap();
    assert_eq!(mtt.tables.len(), 3);
    assert_eq!(mtt.tables.get(&1).unwrap().players.len(), 3);
    assert_eq!(mtt.tables.get(&2).unwrap().players.len(), 2);
    assert_eq!(mtt.tables.get(&3).unwrap().players.len(), 3);
    assert_eq!(
        bridges(&effect),
        vec![
            (4, HoldemBridgeEvent::CloseTable),
            (2, HoldemBridgeEvent::SitinPlayers { sitins: vec![MttTableSitin::new_with_defaults(10, 20000)] }),
        ]
    );
}

#[test]
fn test_ready_event_in_init_stage_dispatch_wait_timeout() {
    let mut mtt = blank_mtt();
    let mut effect = Effect::new(50, 1);
    mtt.stage = MttStage::Init;
    mtt.start_time = 100;
    mtt.handle_event(&mut effect, Event::Ready).unwrap();
    assert!(effect.actions.iter().any(|a| matches!(a, EffectAction::WaitTimeout { .. })));
}

#[test]
fn test_ready_event_in_init_stage_start_time() {
    let mut mtt = blank_mtt();
    let mut effect = Effect::new(150, 1);
    mtt.stage = MttStage::Init;
    mtt.start_time = 100;
    mtt.handle_event(&mut effect, Event::Ready).unwrap();
    assert!(effect.actions.contains(&EffectAction::StartGame));
}

#[test]
fn sit_player_given_all_tables_full_do_create_new_table() {
    let mut mtt = create_mtt_with_players(&[3, 3, 3], 3);
    mtt.stage = MttStage::Playing;
    let mut effect = fresh_effect();
    let pid = add_player_to_mtt(&mut mtt);
    mtt.sit_players(&mut effect, &vec![pid]).unwrap();
    assert_eq!(launched(&effect).len(), 1);
}

#[test]
fn sit_player_given_two_table_with_one_player_do_sit_to_non_empty_table() {
    let mut mtt = create_mtt_with_players(&[1, 0], 3);
    mtt.stage = MttStage::Playing;
    let mut effect = fresh_effect();
    let pid = add_player_to_mtt(&mut mtt);
    mtt.sit_players(&mut effect, &vec![pid]).unwrap();
    assert_eq!(
        bridges(&effect),
        vec![(1, HoldemBridgeEvent::SitinPlayers { sitins: vec![MttTableSitin::new_with_defaults(pid, 1000)] })]
    );
}

#[test]
fn sit_player_given_two_table_with_one_player_do_sit_to_non_empty_table_2() {
    let mut mtt = create_mtt_with_players(&[0, 1], 3);
    mtt.stage = MttStage::Playing;
    let mut effect = fresh_effect();
    let pid = add_player_to_mtt(&mut mtt);
    mtt.sit_players(&mut effect, &vec![pid]).unwrap();
    assert_eq!(
        bridges(&effect),
        vec![(2, HoldemBridgeEvent::SitinPlayers { sitins: vec![MttTableSitin::new_with_defaults(pid, 1000)] })]
    );
}

#[test]
fn sit_players_given_all_tables_full_do_create_new_table() {
    let mut mtt = create_mtt_with_players(&[3, 3, 3], 3);
    mtt.stage = MttStage::Playing;
    let mut effect = fresh_effect();
    let pid = add_player_to_mtt(&mut mtt);
    mtt.sit_players(&mut effect, &vec![pid]).unwrap();
    assert_eq!(launched(&effect).len(), 1);
}

#[test]
fn sit_players_given_two_table_with_one_player_do_sit_to_non_empty_table() {
    let mut mtt = create_mtt_with_players(&[1, 0], 3);
    mtt.stage = MttStage::Playing;
    let mut effect = fresh_effect();
    let pid = add_player_to_mtt(&mut mtt);
    mtt.sit_players(&mut effect, &vec![pid]).unwrap();
    assert_eq!(
        bridges(&effect),
        vec![(1, HoldemBridgeEvent::SitinPlayers { sitins: vec![MttTableSitin::new_with_defaults(pid, 1000)] })]
    );
}

#[test]
fn sit_players_given_two_table_with_one_player_do_sit_to_non_empty_table_2() {
    let mut mtt = create_mtt_with_players(&[0, 1], 3);
    mtt.stage = MttStage::Playing;
    let mut effect = fresh_effect();
    let pid = add_player_to_mtt(&mut mtt);
    mtt.sit_players(&mut effect, &vec![pid]).unwrap();
    assert_eq!(
        bridges(&effect),
        vec![(2, HoldemBridgeEvent::SitinPlayers { sitins: vec![MttTableSitin::new_with_defaults(pid, 1000)] })]
    );
}

#[test]
fn sit_multiple_players_when_all_tables_are_full_creates_new_tables() {
    let mut mtt = create_mtt_with_players(&[3, 3, 3], 3);
    mtt.stage = MttStage::Playing;
    let mut effect = fresh_effect();
    let pid1 = add_player_to_mtt(&mut mtt);
    let pid2 = add_player_to_mtt(&mut mtt);
    mtt.sit_players(&mut effect, &vec![pid1, pid2]).unwrap();
    let (sb, bb) = mtt.calc_blinds().unwrap();
    let table_created = MttTableState::new(
        0,
        sb,
        bb,
        0,
        vec![MttTablePlayer::new_with_defaults(10, 1000, 0), MttTablePlayer::new_with_defaults(11, 1000, 1)],
    );
    assert_eq!(launched(&effect), vec![table_created]);
}

#[test]
fn sit_multiple_players_with_empty_tables_should_fill_sparse_tables() {
    let mut mtt = create_mtt_with_players(&[2, 1], 3);
    mtt.stage = MttStage::Playing;
    let mut effect = fresh_effect();
    let pid1 = add_player_to_mtt(&mut mtt);
    let pid2 = add_player_to_mtt(&mut mtt);
    mtt.sit_players(&mut effect, &vec![pid1, pid2]).unwrap();
    assert_eq!(
        bridges(&effect),
        vec![
            (1, HoldemBridgeEvent::SitinPlayers { sitins: vec![MttTableSitin::new_with_defaults(pid2, 1000)] }),
            (2, HoldemBridgeEvent::SitinPlayers { sitins: vec![MttTableSitin::new_with_defaults(pid1, 1000)] }),
        ]
    );
}

#[test]
fn sit_players_in_non_playing_stage_no_ops() {
    let mut mtt = create_mtt_with_players(&[2, 1], 3);
    mtt.stage = MttStage::Init;
    let mut effect = fresh_effect();
    let pid = add_player_to_mtt(&mut mtt);
    mtt.sit_players(&mut effect, &vec![pid]).unwrap();
    assert!(bridges(&effect).is_empty());
    assert!(launched(&effect).is_empty());
}

#[test]
fn sit_many_players_creating_multiple_tables() {
    let mut mtt = create_mtt_with_players(&[], 6);
    mtt.stage = MttStage::Playing;
    let mut effect = fresh_effect();
    for _ in 0..20 {
        add_player_to_mtt(&mut mtt);
    }
    let player_ids: Vec<u64> = mtt.ranks.iter().map(|r| r.id).collect();
    mtt.sit_players(&mut effect, &player_ids).unwrap();
    assert_eq!(launched(&effect).len(), 4);
}

#[test]
fn sit_players_in_existing_and_new_tables() {
    let mut mtt = create_mtt_with_players(&[2, 4], 6);
    mtt.stage = MttStage::Playing;
    let mut effect = fresh_effect();
    let new_players: Vec<u64> = (0..10).map(|_| add_player_to_mtt(&mut mtt)).collect();
    mtt.sit_players(&mut effect, &new_players).unwrap();
    let (sb, bb) = mtt.calc_blinds().unwrap();
    let table_created = MttTableState::new(
        0,
        sb,
        bb,
        0,
        vec![
            MttTablePlayer::new_with_defaults(13, 1000, 0),
            MttTablePlayer::new_with_defaults(14, 1000, 1),
            MttTablePlayer::new_with_defaults(15, 1000, 2),
            MttTablePlayer::new_with_defaults(16, 1000, 3),
        ],
    );
    assert_eq!(launched(&effect), vec![table_created]);
    assert_eq!(
        bridges(&effect),
        vec![
            (
                1,
                HoldemBridgeEvent::SitinPlayers {
                    sitins: vec![
                        MttTableSitin::new_with_defaults(7, 1000),
                        MttTableSitin::new_with_defaults(8, 1000),
                        MttTableSitin::new_with_defaults(9, 1000),
                        MttTableSitin::new_with_defaults(11, 1000),
                    ],
                }
            ),
            (
                2,
                HoldemBridgeEvent::SitinPlayers {
                    sitins: vec![MttTableSitin::new_with_defaults(10, 1000), MttTableSitin::new_with_defaults(12, 1000)],
                }
            ),
        ]
    );
}

#[test]
fn start_tables_take_every_nth_player() {
    let mut mtt = blank_mtt();
    mtt.table_size = 3;
    for id in 1..=7u64 {
        mtt.ranks.push(PlayerRank::new(id, 1000, PlayerRankStatus::Pending, id as u16));
    }
    let mut effect = Effect::new(0, 1);
    mtt.create_tables(&mut effect).unwrap();
    let tables = launched(&effect);
    let ids: Vec<Vec<u64>> = tables.iter().map(|t| t.players.iter().map(|p| p.id).collect()).collect();
    assert_eq!(ids, vec![vec![1, 4, 7], vec![2, 5], vec![3, 6]]);
    let ids_of_tables: Vec<usize> = tables.iter().map(|t| t.table_id).collect();
    assert_eq!(ids_of_tables, vec![1, 2, 3]);
    assert_eq!(tables[0].players[2].position, 2);
    assert_eq!(mtt.table_assigns.len(), 7);
}
