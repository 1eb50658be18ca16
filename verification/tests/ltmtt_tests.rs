use std::collections::BTreeMap;

use race_poker::effect::{Effect, EffectAction};
use race_poker::errors::GameError;
use race_poker::event::{Event, JoinedPlayer, PlayerDeposit};
use race_poker::ltmtt::{
    default_blind_rules, default_ticket_rules, match_blind_rule_by_chips, BlindRule, ClientEvent, LtMtt,
    LtMttAccountData, LtMttPlayer, LtMttPlayerStatus, LtMttStage, TicketRule,
};
use race_poker::ltmtt_player::{Player, PlayerStatus, Ranking};
use race_poker::mtt_base::{
    ChipsChange, HoldemBridgeEvent, MttTablePlayer, MttTableSitin, MttTableState, PlayerResult, PlayerResultStatus,
};

fn account(open: u64, close: u64, settle: u64) -> LtMttAccountData {
    LtMttAccountData {
        entry_open_time: open,
        entry_close_time: close,
        settle_time: settle,
        table_size: 6,
        ticket_rules: vec![],
        rake: 10,
        prize_rules: vec![50, 30, 20],
        subgame_bundle: "holdem".to_string(),
    }
}

fn player(id: u64, chips: u64) -> LtMttPlayer {
    LtMttPlayer { player_id: id, position: id as u16, status: LtMttPlayerStatus::Out, chips, deposit_history: vec![] }
}

fn open_tourney() -> LtMtt {
    let mut m = LtMtt::init_state(account(1000, 2000, 3000)).unwrap();
    m.stage = LtMttStage::EntryOpened;
    m
}

fn table(table_id: usize, sb: u64, bb: u64, ids: &[u64]) -> MttTableState {
    let players = ids
        .iter()
        .enumerate()
        .map(|(i, id)| MttTablePlayer::new_with_defaults(*id, 10000, i as u8))
        .collect();
    MttTableState::new(table_id, sb, bb, 0, players)
}

fn bridges(effect: &Effect) -> Vec<(usize, HoldemBridgeEvent)> {
    effect
        .actions
        .iter()
        .filter_map(|a| match a {
            EffectAction::Bridge { dest, event } => Some((*dest, event.clone())),
            _ => None,
        })
        .collect()
}

#[test]
fn ticket_rule_matches_by_deposit_times_and_amount() {
    let first = TicketRule { deposit_times: Some(0), deposit_amount: 100, chips: 1000 };
    assert!(first.is_match(0, 100));
    assert!(!first.is_match(1, 100));
    assert!(!first.is_match(0, 99));
    let any = TicketRule { deposit_times: None, deposit_amount: 100, chips: 1000 };
    assert!(any.is_match(0, 100));
    assert!(any.is_match(7, 100));
    assert!(!any.is_match(7, 101));
}

#[test]
fn default_tickets_and_levels() {
    let tickets = default_ticket_rules();
    assert_eq!(tickets.len(), 6);
    assert_eq!(tickets[0], TicketRule { deposit_times: Some(0), deposit_amount: 0, chips: 15_000 });
    assert_eq!(tickets[5], TicketRule { deposit_times: None, deposit_amount: 50_000_000, chips: 7_500_000 });
    let levels = default_blind_rules();
    assert_eq!(levels.len(), 10);
    assert_eq!(levels[0], BlindRule { max_chips: Some(150_000), sb: 50, bb: 100, ante: 0 });
    assert_eq!(levels[9], BlindRule { max_chips: None, sb: 20_000, bb: 40_000, ante: 0 });
}

#[test]
fn blind_level_is_the_first_that_fits_the_chips() {
    let levels = default_blind_rules();
    assert_eq!(match_blind_rule_by_chips(&levels, 0).unwrap().sb, 50);
    assert_eq!(match_blind_rule_by_chips(&levels, 150_000).unwrap().sb, 50);
    assert_eq!(match_blind_rule_by_chips(&levels, 150_001).unwrap().sb, 100);
    assert_eq!(match_blind_rule_by_chips(&levels, 999_999_999).unwrap().sb, 20_000);
    let capped = vec![BlindRule { max_chips: Some(10), sb: 1, bb: 2, ante: 0 }];
    assert_eq!(match_blind_rule_by_chips(&capped, 11), None);
    assert_eq!(match_blind_rule_by_chips(&vec![], 11), None);
}

#[test]
fn init_state_uses_defaults_and_checks_times() {
    let m = LtMtt::init_state(account(1000, 2000, 3000)).unwrap();
    assert_eq!(m.stage, LtMttStage::Init);
    assert_eq!(m.ticket_rules, default_ticket_rules());
    assert_eq!(m.blind_rules, default_blind_rules());
    assert_eq!(m.player_balances, BTreeMap::from([(0, 0)]));
    assert_eq!(m.balances(), vec![(0, 0)]);
    assert_eq!(
        LtMtt::init_state(account(2000, 1000, 3000)).unwrap_err(),
        GameError::MalformedGameAccountData
    );
    assert_eq!(
        LtMtt::init_state(account(1000, 3000, 2000)).unwrap_err(),
        GameError::MalformedGameAccountData
    );
}

#[test]
fn timeouts_follow_the_stages() {
    let mut m = LtMtt::init_state(account(1000, 2000, 3000)).unwrap();
    let effect = Effect::new(400, 1);
    assert_eq!(m.calc_timeout_should_send(&effect), Some(600));
    m.stage = LtMttStage::EntryOpened;
    assert_eq!(m.calc_timeout_should_send(&effect), Some(1600));
    m.stage = LtMttStage::EntryClosed;
    assert_eq!(m.calc_timeout_should_send(&Effect::new(5000, 1)), Some(0));
    m.stage = LtMttStage::Settled;
    assert_eq!(m.calc_timeout_should_send(&effect), None);
}

#[test]
fn join_only_while_the_entry_is_open() {
    let mut m = LtMtt::init_state(account(1000, 2000, 3000)).unwrap();
    let players = vec![JoinedPlayer { id: 7, position: 1 }];
    m.on_join(&players);
    assert!(m.rankings.is_empty());
    m.stage = LtMttStage::EntryOpened;
    m.on_join(&players);
    m.on_join(&players);
    assert_eq!(m.rankings.len(), 1);
    assert_eq!(m.find_player_by_id(7), Ok((7, 0)));
    assert_eq!(m.find_player_by_id(8), Err(GameError::PlayerNotFound));
}

#[test]
fn deposit_buys_the_ticket_chips_with_one_percent_rake() {
    let mut m = open_tourney();
    m.on_join(&vec![JoinedPlayer { id: 7, position: 1 }]);
    let mut effect = Effect::new(1500, 1);
    let ok = m.on_deposit(&mut effect, &PlayerDeposit { id: 7, balance: 3_500_000 }).unwrap();
    assert!(ok);
    assert_eq!(m.rankings[0].chips, 1_850_000);
    assert_eq!(m.rankings[0].deposit_history, vec![3_500_000]);
    assert_eq!(m.total_prize, 3_465_000);
    assert_eq!(m.player_balances.get(&7), Some(&3_465_000));
    assert_eq!(
        effect.actions,
        vec![
            EffectAction::Transfer { amount: 35_000 },
            EffectAction::AcceptDeposit { player_id: 7, amount: 3_500_000 },
        ]
    );
}

#[test]
fn deposit_without_a_ticket_or_player_is_rejected() {
    let mut m = open_tourney();
    m.on_join(&vec![JoinedPlayer { id: 7, position: 1 }]);
    let mut effect = Effect::new(1500, 1);
    assert_eq!(m.on_deposit(&mut effect, &PlayerDeposit { id: 7, balance: 123 }), Ok(false));
    assert_eq!(m.on_deposit(&mut effect, &PlayerDeposit { id: 9, balance: 500_000 }), Ok(false));
    assert_eq!(
        effect.actions,
        vec![
            EffectAction::RejectDeposit { player_id: 7, amount: 123 },
            EffectAction::RejectDeposit { player_id: 9, amount: 500_000 },
        ]
    );
    assert_eq!(m.total_prize, 0);
    assert_eq!(m.rankings[0].chips, 0);
}

#[test]
fn rebuy_takes_a_ticket_for_later_deposits() {
    let mut m = open_tourney();
    m.on_join(&vec![JoinedPlayer { id: 7, position: 1 }]);
    let mut effect = Effect::new(1500, 1);
    assert_eq!(m.on_deposit(&mut effect, &PlayerDeposit { id: 7, balance: 0 }), Ok(true));
    assert_eq!(m.rankings[0].chips, 15_000);
    // a free entry is for the first deposit only
    assert_eq!(m.on_deposit(&mut effect, &PlayerDeposit { id: 7, balance: 0 }), Ok(false));
    assert_eq!(m.on_deposit(&mut effect, &PlayerDeposit { id: 7, balance: 500_000 }), Ok(true));
    assert_eq!(m.rankings[0].chips, 150_000);
    assert_eq!(m.rankings[0].deposit_history, vec![0, 500_000]);
}

#[test]
fn deposit_outside_the_entry_is_rejected() {
    let mut m = LtMtt::init_state(account(1000, 2000, 3000)).unwrap();
    let mut effect = Effect::new(500, 1);
    let ev = Event::Deposit { deposits: vec![PlayerDeposit { id: 7, balance: 0 }] };
    m.handle_event(&mut effect, ev).unwrap();
    assert_eq!(effect.actions, vec![EffectAction::RejectDeposit { player_id: 7, amount: 0 }]);
}

#[test]
fn rankings_sort_by_chips_keeping_ties_in_order() {
    let mut m = open_tourney();
    m.rankings = vec![player(1, 10), player(2, 30), player(3, 10), player(4, 20)];
    m.sort_rankings();
    let ids: Vec<u64> = m.rankings.iter().map(|p| p.player_id).collect();
    assert_eq!(ids, vec![2, 4, 1, 3]);
}

#[test]
fn chips_changes_apply_then_sort() {
    let mut m = open_tourney();
    m.rankings = vec![player(1, 100), player(2, 100)];
    let results = vec![
        PlayerResult::new(1, 50, Some(ChipsChange::Sub(50)), 0, PlayerResultStatus::Normal),
        PlayerResult::new(2, 150, Some(ChipsChange::Add(50)), 1, PlayerResultStatus::Normal),
    ];
    m.apply_chips_change(&results).unwrap();
    assert_eq!(m.rankings[0].player_id, 2);
    assert_eq!(m.rankings[0].chips, 150);
    assert_eq!(m.rankings[1].chips, 50);
    let unknown = vec![PlayerResult::new(9, 0, Some(ChipsChange::Add(1)), 0, PlayerResultStatus::Normal)];
    assert_eq!(m.apply_chips_change(&unknown), Err(GameError::PlayerNotFound));
    let too_much = vec![PlayerResult::new(1, 0, Some(ChipsChange::Sub(51)), 0, PlayerResultStatus::Normal)];
    assert_eq!(m.apply_chips_change(&too_much), Err(GameError::InternalAmountOverflow));
}

#[test]
fn settlement_pays_the_places_their_shares() {
    let mut m = open_tourney();
    m.total_prize = 1000;
    m.rankings = vec![player(1, 300), player(2, 200), player(3, 100), player(4, 50)];
    let mut effect = Effect::new(3000, 1);
    m.do_settle(&mut effect).unwrap();
    assert_eq!(
        effect.actions,
        vec![
            EffectAction::Withdraw { player_id: 1, amount: 500 },
            EffectAction::Withdraw { player_id: 2, amount: 300 },
            EffectAction::Withdraw { player_id: 3, amount: 200 },
        ]
    );
    assert_eq!(m.player_balances.get(&0), Some(&0));
}

#[test]
fn settlement_with_fewer_players_than_places() {
    let mut m = open_tourney();
    m.total_prize = 1000;
    m.rankings = vec![player(1, 300)];
    let mut effect = Effect::new(3000, 1);
    m.do_settle(&mut effect).unwrap();
    assert_eq!(effect.actions, vec![EffectAction::Withdraw { player_id: 1, amount: 1000 }]);
    let mut empty = open_tourney();
    let mut e2 = Effect::new(3000, 1);
    empty.do_settle(&mut e2).unwrap();
    assert!(e2.actions.is_empty());
    let mut no_shares = open_tourney();
    no_shares.prize_rules = vec![0];
    no_shares.rankings = vec![player(1, 300)];
    assert_eq!(no_shares.do_settle(&mut e2), Err(GameError::PrizeSharesMissing));
}

#[test]
fn table_to_sit_is_the_lowest_fitting_level_with_most_players() {
    let mut m = open_tourney();
    m.tables.insert(1, table(1, 50, 100, &[1, 2]));
    m.tables.insert(2, table(2, 50, 100, &[3, 4, 5]));
    m.tables.insert(3, table(3, 100, 200, &[6, 7, 8, 9]));
    m.tables.insert(4, table(4, 50, 100, &[10, 11, 12, 13, 14, 15]));
    assert_eq!(m.find_table_to_sit(1, 1000), Ok(2));
    assert_eq!(m.find_table_to_sit(4, 1000), Ok(1));
    // chips over the first level need the second level or higher
    assert_eq!(m.find_table_to_sit(1, 200_000), Ok(3));
    assert_eq!(m.find_table_to_sit(3, 200_000), Err(GameError::TableNotFound));
    m.blind_rules = vec![];
    assert_eq!(m.find_table_to_sit(1, 1000), Err(GameError::EmptyBlindRules));
}

#[test]
fn created_tables_take_the_next_id() {
    let mut m = open_tourney();
    let mut effect = Effect::new(0, 1);
    let rule = BlindRule { max_chips: None, sb: 5, bb: 10, ante: 0 };
    assert_eq!(m.create_table(&mut effect, rule), Ok(1));
    assert_eq!(m.create_table(&mut effect, rule), Ok(2));
    assert_eq!(m.tables.get(&2).unwrap().sb, 5);
    assert_eq!(effect.actions.len(), 2);
    // an empty table of that level exists: nothing more is created
    m.create_table_if_target_table_not_enough(&mut effect, 1).unwrap();
    assert_eq!(m.tables.len(), 2);
    assert_eq!(m.create_table_if_target_table_not_enough(&mut effect, 9), Err(GameError::TableNotFound));
}

#[test]
fn a_full_level_gets_a_new_empty_table() {
    let mut m = open_tourney();
    m.tables.insert(1, table(1, 50, 100, &[1]));
    let mut effect = Effect::new(0, 1);
    m.create_table_if_target_table_not_enough(&mut effect, 1).unwrap();
    assert_eq!(m.tables.len(), 2);
    let t = m.tables.get(&2).unwrap();
    assert_eq!((t.sb, t.bb, t.players.len()), (50, 100, 0));
}

#[test]
fn waiting_timeouts_walk_through_the_stages() {
    let mut m = LtMtt::init_state(account(1000, 2000, 3000)).unwrap();
    let mut effect = Effect::new(1000, 1);
    m.handle_event(&mut effect, Event::WaitingTimeout).unwrap();
    assert_eq!(m.stage, LtMttStage::EntryOpened);
    // a table per level
    assert_eq!(m.tables.len(), default_blind_rules().len());
    assert_eq!(effect.actions[effect.actions.len() - 2], EffectAction::OpenEntry);
    assert_eq!(effect.actions.last(), Some(&EffectAction::WaitTimeout { timeout: 1000 }));
    let mut effect = Effect::new(2000, 1);
    m.handle_event(&mut effect, Event::WaitingTimeout).unwrap();
    assert_eq!(m.stage, LtMttStage::EntryClosed);
    assert_eq!(effect.actions, vec![EffectAction::CloseEntry, EffectAction::WaitTimeout { timeout: 1000 }]);
    let mut effect = Effect::new(3000, 1);
    m.handle_event(&mut effect, Event::WaitingTimeout).unwrap();
    assert_eq!(m.stage, LtMttStage::Settled);
    let mut effect = Effect::new(4000, 1);
    m.handle_event(&mut effect, Event::WaitingTimeout).unwrap();
    assert!(effect.actions.is_empty());
}

#[test]
fn game_start_waits_for_the_next_stage() {
    let mut m = LtMtt::init_state(account(1000, 2000, 3000)).unwrap();
    let mut effect = Effect::new(250, 1);
    m.handle_event(&mut effect, Event::GameStart).unwrap();
    assert_eq!(effect.actions, vec![EffectAction::WaitTimeout { timeout: 750 }]);
}

#[test]
fn sit_in_goes_to_the_assigned_table_or_a_fitting_one() {
    let mut m = open_tourney();
    m.rankings = vec![player(1, 1000), player(2, 1000)];
    m.tables.insert(1, table(1, 50, 100, &[]));
    m.tables.insert(2, table(2, 50, 100, &[9]));
    m.table_assigns.insert(1, 1);
    let mut effect = Effect::new(0, 1);
    m.handle_event(&mut effect, Event::Client { sender: 1, event: ClientEvent::SitIn }).unwrap();
    m.handle_event(&mut effect, Event::Client { sender: 2, event: ClientEvent::SitIn }).unwrap();
    assert_eq!(
        bridges(&effect),
        vec![
            (1, HoldemBridgeEvent::SitinPlayers { sitins: vec![MttTableSitin::new_with_defaults(1, 1000)] }),
            (2, HoldemBridgeEvent::SitinPlayers { sitins: vec![MttTableSitin::new_with_defaults(2, 1000)] }),
        ]
    );
    assert_eq!(
        m.handle_event(&mut effect, Event::Client { sender: 3, event: ClientEvent::SitIn }),
        Err(GameError::PlayerNotFound)
    );
}

#[test]
fn ready_sends_pending_players_again_and_starts() {
    let mut m = open_tourney();
    m.rankings = vec![player(1, 1000), player(2, 1000)];
    m.table_assigns_pending.insert(1, 3);
    m.table_assigns_pending.insert(2, 3);
    let mut effect = Effect::new(0, 1);
    m.handle_event(&mut effect, Event::Ready).unwrap();
    assert_eq!(
        effect.actions,
        vec![
            EffectAction::Bridge {
                dest: 3,
                event: HoldemBridgeEvent::SitinPlayers {
                    sitins: vec![MttTableSitin::new_with_defaults(1, 1000), MttTableSitin::new_with_defaults(2, 1000)],
                },
            },
            EffectAction::StartGame,
        ]
    );
}

#[test]
fn game_result_updates_chips_and_starts_the_next_hand() {
    let mut m = open_tourney();
    m.rankings = vec![player(1, 10000), player(2, 10000)];
    m.tables.insert(1, table(1, 50, 100, &[1, 2]));
    let results = vec![
        PlayerResult::new(1, 15000, Some(ChipsChange::Add(5000)), 0, PlayerResultStatus::Normal),
        PlayerResult::new(2, 5000, Some(ChipsChange::Sub(5000)), 1, PlayerResultStatus::Normal),
    ];
    let reported = table(1, 50, 100, &[1, 2]);
    let ev = Event::Bridge {
        dest_game_id: 0,
        event: HoldemBridgeEvent::GameResult { hand_id: 1, table_id: 1, btn: 0, player_results: results, table: reported },
    };
    let mut effect = Effect::new(0, 1);
    m.handle_event(&mut effect, ev).unwrap();
    assert_eq!(m.find_player_by_id(1), Ok((1, 15000)));
    assert_eq!(m.find_player_by_id(2), Ok((2, 5000)));
    assert_eq!(
        bridges(&effect),
        vec![(1, HoldemBridgeEvent::StartGame { sb: 50, bb: 100, ante: 0, sitout_players: vec![] })]
    );
    assert_eq!(effect.actions.last(), Some(&EffectAction::Checkpoint));
}

#[test]
fn players_who_outgrow_the_level_sit_out() {
    let mut m = open_tourney();
    m.rankings = vec![player(1, 200_000), player(2, 200_000), player(3, 100), player(4, 100)];
    m.tables.insert(1, table(1, 50, 100, &[1, 2, 3, 4]));
    let mut effect = Effect::new(0, 1);
    m.start_next_game(&mut effect, 1).unwrap();
    assert_eq!(
        bridges(&effect),
        vec![(1, HoldemBridgeEvent::StartGame { sb: 50, bb: 100, ante: 0, sitout_players: vec![1, 2] })]
    );
    assert_eq!(m.start_next_game(&mut effect, 9), Err(GameError::TableNotFound));
}

#[test]
fn sit_result_sends_the_refused_players_elsewhere() {
    let mut m = open_tourney();
    m.rankings = vec![player(1, 1000), player(2, 1000)];
    m.tables.insert(1, table(1, 50, 100, &[5, 6, 7, 8, 9, 10]));
    m.tables.insert(2, table(2, 50, 100, &[]));
    let ev = Event::Bridge {
        dest_game_id: 0,
        event: HoldemBridgeEvent::SitResult { table_id: 1, sitin_players: vec![1], sitout_players: vec![2] },
    };
    let mut effect = Effect::new(0, 1);
    m.handle_event(&mut effect, ev).unwrap();
    assert_eq!(m.table_assigns_pending.get(&1), Some(&1));
    assert!(m.table_assigns_pending.contains_key(&2));
    assert_eq!(
        bridges(&effect),
        vec![(2, HoldemBridgeEvent::SitinPlayers { sitins: vec![MttTableSitin::new_with_defaults(2, 1000)] })]
    );
    assert_eq!(effect.actions.last(), Some(&EffectAction::Checkpoint));
}

#[test]
fn other_events_are_refused_or_ignored() {
    let mut m = open_tourney();
    let mut effect = Effect::new(0, 1);
    let close = Event::Bridge { dest_game_id: 0, event: HoldemBridgeEvent::CloseTable };
    assert_eq!(m.handle_event(&mut effect, close), Err(GameError::InvalidBridgeEvent));
    m.handle_event(&mut effect, Event::Client { sender: 1, event: ClientEvent::SitOut }).unwrap();
    m.handle_event(&mut effect, Event::Leave { player_id: 1 }).unwrap();
    assert!(effect.actions.is_empty());
}

#[test]
fn seat_records_default_to_seated_and_empty() {
    assert_eq!(PlayerStatus::default(), PlayerStatus::SatIn);
    assert_eq!(Player::default(), Player { player_id: 0, position: 0, status: PlayerStatus::SatIn });
    let r = Ranking::default();
    assert_eq!((r.player_id, r.chips, r.deposit_history.len()), (0, 0, 0));
}

#[test]
fn deposits_in_a_batch_are_taken_in_order_and_ranked_by_chips() {
    let mut m = open_tourney();
    m.on_join(&vec![JoinedPlayer { id: 7, position: 1 }, JoinedPlayer { id: 8, position: 2 }]);
    let mut effect = Effect::new(1500, 1);
    let deposits = vec![
        PlayerDeposit { id: 7, balance: 123 },
        PlayerDeposit { id: 8, balance: 3_500_000 },
    ];
    m.handle_event(&mut effect, Event::Deposit { deposits }).unwrap();
    assert_eq!(m.rankings[0].player_id, 8);
    assert_eq!(m.rankings[0].chips, 1_850_000);
    assert_eq!(m.rankings[1].player_id, 7);
    assert_eq!(m.rankings[1].chips, 0);
    assert_eq!(m.total_prize, 3_465_000);
    assert_eq!(
        effect.actions,
        vec![
            EffectAction::RejectDeposit { player_id: 7, amount: 123 },
            EffectAction::Transfer { amount: 35_000 },
            EffectAction::AcceptDeposit { player_id: 8, amount: 3_500_000 },
        ]
    );
}
