use std::collections::BTreeMap;

use race_poker::effect::{Effect, EffectAction};
use race_poker::errors::GameError;
use race_poker::event::{Event, JoinedPlayer, PlayerDeposit};
use race_poker::mtt::{
    default_blind_rules, take_amount_by_portion, BlindInfo, BlindRuleItem, Mtt, MttAccountData, MttStage,
    PlayerRank, PlayerRankStatus, BONUS_DISTRIBUTION_DELAY,
};
use race_poker::mtt_base::{
    ChipsChange, HoldemBridgeEvent, MttTablePlayer, MttTableState, PlayerResult, PlayerResultStatus,
};

fn blank_mtt() -> Mtt {
    Mtt {
        start_time: 0,
        entry_close_time: 0,
        in_the_money: false,
        alives: 0,
        stage: MttStage::Init,
        table_assigns: BTreeMap::new(),
        table_assigns_pending: BTreeMap::new(),
        ranks: vec![],
        tables: BTreeMap::new(),
        table_size: 0,
        time_elapsed: 0,
        timestamp: 0,
        start_chips: 0,
        blind_info: BlindInfo::default(),
        prize_rules: vec![],
        total_prize: 0,
        total_rake: 0,
        total_bounty: 0,
        ticket: 0,
        theme: None,
        subgame_bundle: String::new(),
        winners: vec![],
        launched_table_ids: vec![],
        player_balances: BTreeMap::new(),
        min_players: 0,
        rake: 0,
        bounty: 0,
    }
}

fn account(start_time: u64, entry_close_time: u64, prize_rules: Vec<u8>, rake: u16, bounty: u16, start_chips: u64) -> MttAccountData {
    MttAccountData {
        start_time,
        entry_close_time,
        ticket: 100,
        table_size: 9,
        start_chips,
        blind_info: BlindInfo::default(),
        prize_rules,
        min_players: 2,
        rake,
        bounty,
        theme: None,
        subgame_bundle: "holdem".to_string(),
    }
}

/// A tournament being played, with tables holding the given numbers of
/// players, every player holding 10000 chips.
fn create_mtt_with_players(player_nums_per_table: &[usize], table_size: u8) -> Mtt {
    let start_chips = 10000;
    let mut mtt = blank_mtt();
    mtt.stage = MttStage::Playing;
    mtt.table_size = table_size;
    mtt.start_chips = start_chips;
    let mut rank_id = 1;
    let mut table_id = 0;
    for player_num in player_nums_per_table {
        table_id += 1;
        let mut players = vec![];
        for i in 0..*player_num {
            mtt.ranks.push(PlayerRank::new(rank_id, start_chips, PlayerRankStatus::Play, (rank_id % table_size as u64) as u16));
            players.push(MttTablePlayer::new_with_defaults(rank_id, start_chips, i as u8));
            mtt.table_assigns.insert(rank_id, table_id);
            rank_id += 1;
        }
        mtt.tables.insert(table_id, MttTableState::new(table_id, 50, 100, 0, players));
    }
    mtt
}

fn withdraws(effect: &Effect) -> Vec<(u64, u64)> {
    effect
        .actions
        .iter()
        .filter_map(|a| match a {
            EffectAction::Withdraw { player_id, amount } => Some((*player_id, *amount)),
            _ => None,
        })
        .collect()
}

fn bridges(effect: &Effect) -> Vec<(usize, HoldemBridgeEvent)> {
    effect
        .actions
        .iter()
        .filter_map(|a| match a {
            EffectAction::Bridge { dest, event } => Some((*dest, event.clone())),
            _ => None,
        })
        .collect()
}

#[test]
fn test_init_state_valid() {
    let data = account(1000, 2000, vec![50, 30, 20], 50, 20, 5000);
    let state = Mtt::init_state(data).unwrap();
    assert_eq!(state.start_time, 1000);
    assert_eq!(state.entry_close_time, 2000);
    assert_eq!(state.ticket, 100);
    assert_eq!(state.table_size, 9);
    assert_eq!(state.start_chips, 5000);
    assert_eq!(state.prize_rules, vec![50, 30, 20]);
    assert_eq!(state.min_players, 2);
    assert_eq!(state.rake, 50);
    assert_eq!(state.bounty, 20);
}

#[test]
fn test_init_state_invalid_prize_rules() {
    let data = account(0, 0, vec![50, 30], 0, 0, 5000);
    assert_eq!(Mtt::init_state(data).unwrap_err(), GameError::InvalidPrizeRules);
}

#[test]
fn test_init_state_invalid_entry_close_time() {
    let data = account(2000, 1000, vec![100], 0, 0, 5000);
    assert_eq!(Mtt::init_state(data).unwrap_err(), GameError::InvalidEntryCloseTime);
}

#[test]
fn test_init_state_invalid_rake_bounty() {
    let data = account(0, 0, vec![100], 600, 500, 5000);
    assert_eq!(Mtt::init_state(data).unwrap_err(), GameError::InvalidRakeAndBounty);
}

#[test]
fn test_init_state_start_chips_too_low() {
    let mut data = account(0, 0, vec![100], 0, 0, 100);
    data.blind_info = BlindInfo { blind_base: 10, blind_interval: 60_000, blind_rules: vec![BlindRuleItem::new(5, 10)] };
    assert_eq!(Mtt::init_state(data).unwrap_err(), GameError::StartChipsTooLow);
}

#[test]
fn init_state_fills_in_default_blind_levels() {
    let mut data = account(0, 0, vec![100], 0, 0, 5000);
    data.blind_info.blind_rules = vec![];
    let state = Mtt::init_state(data).unwrap();
    assert_eq!(state.blind_info.blind_rules, default_blind_rules());
    assert_eq!(state.stage, MttStage::Init);
    assert_eq!(state.alives, 0);
}

#[test]
fn default_blind_levels_double_the_small_blind() {
    let rules = default_blind_rules();
    assert_eq!(rules.len(), 54);
    assert_eq!(rules[0], BlindRuleItem::new(5, 10));
    assert_eq!(rules[53], BlindRuleItem::new(100000, 200000));
    assert!(rules.iter().all(|r| r.bb_x == 2 * r.sb_x));
}

#[test]
fn portion_is_per_thousand_rounded_down() {
    assert_eq!(take_amount_by_portion(1000, 50), 50);
    assert_eq!(take_amount_by_portion(999, 3), 2);
    assert_eq!(take_amount_by_portion(0, 1000), 0);
}

#[test]
fn blinds_rise_with_time_and_stay_at_the_last_level() {
    let mut mtt = blank_mtt();
    mtt.time_elapsed = 0;
    assert_eq!(mtt.calc_blinds(), Ok((50, 100)));
    mtt.time_elapsed = 60_000 * 3 + 5;
    assert_eq!(mtt.calc_blinds(), Ok((200, 400)));
    mtt.time_elapsed = 60_000 * 1000;
    assert_eq!(mtt.calc_blinds(), Ok((1_000_000, 2_000_000)));
    mtt.blind_info.blind_rules = vec![];
    assert_eq!(mtt.calc_blinds(), Err(GameError::EmptyBlindRules));
}

#[test]
fn test_handle_bounty_single_winner_divisible() {
    let mut mtt = blank_mtt();
    let mut effect = Effect::new(0, 1);
    let player_results = vec![
        PlayerResult::new(1, 1000, Some(ChipsChange::Add(500)), 0, PlayerResultStatus::Normal),
        PlayerResult::new(2, 0, Some(ChipsChange::Sub(500)), 1, PlayerResultStatus::Eliminated),
    ];
    mtt.ranks.push(PlayerRank::new(1, 1000, PlayerRankStatus::Play, 0));
    mtt.ranks.push(PlayerRank::new(2, 0, PlayerRankStatus::Out, 1));
    mtt.ranks[1].bounty_reward = 100;
    mtt.ranks[1].bounty_transfer = 200;
    mtt.handle_bounty(&player_results, &mut effect).unwrap();
    assert_eq!(mtt.ranks[0].bounty_reward, 200);
    assert_eq!(mtt.total_prize, 0);
    assert_eq!(withdraws(&effect), vec![(1, 100)]);
}

#[test]
fn test_handle_bounty_single_winner_non_divisible() {
    let mut mtt = blank_mtt();
    let mut effect = Effect::new(0, 1);
    let player_results = vec![
        PlayerResult::new(1, 1000, Some(ChipsChange::Add(500)), 0, PlayerResultStatus::Normal),
        PlayerResult::new(2, 0, Some(ChipsChange::Sub(500)), 1, PlayerResultStatus::Eliminated),
    ];
    mtt.ranks.push(PlayerRank::new(1, 1000, PlayerRankStatus::Play, 0));
    mtt.ranks.push(PlayerRank::new(2, 0, PlayerRankStatus::Out, 1));
    mtt.ranks[1].bounty_reward = 101;
    mtt.ranks[1].bounty_transfer = 203;
    mtt.handle_bounty(&player_results, &mut effect).unwrap();
    assert_eq!(mtt.ranks[0].bounty_reward, 203);
    assert_eq!(mtt.total_prize, 0);
    assert_eq!(withdraws(&effect), vec![(1, 101)]);
}

#[test]
fn test_handle_bounty_multiple_winners_divisible() {
    let mut mtt = blank_mtt();
    let mut effect = Effect::new(0, 1);
    let player_results = vec![
        PlayerResult::new(1, 1000, Some(ChipsChange::Add(250)), 0, PlayerResultStatus::Normal),
        PlayerResult::new(2, 1000, Some(ChipsChange::Add(250)), 1, PlayerResultStatus::Normal),
        PlayerResult::new(3, 0, Some(ChipsChange::Sub(500)), 2, PlayerResultStatus::Eliminated),
    ];
    mtt.ranks.push(PlayerRank::new(1, 1000, PlayerRankStatus::Play, 0));
    mtt.ranks.push(PlayerRank::new(2, 1000, PlayerRankStatus::Play, 1));
    mtt.ranks.push(PlayerRank::new(3, 0, PlayerRankStatus::Out, 2));
    mtt.ranks[2].bounty_reward = 100;
    mtt.ranks[2].bounty_transfer = 200;
    mtt.handle_bounty(&player_results, &mut effect).unwrap();
    assert_eq!(mtt.ranks[0].bounty_reward, 100);
    assert_eq!(mtt.ranks[1].bounty_reward, 100);
    assert_eq!(mtt.total_prize, 0);
    assert_eq!(withdraws(&effect), vec![(1, 50), (2, 50)]);
}

#[test]
fn test_handle_bounty_multiple_winners_non_divisible() {
    let mut mtt = blank_mtt();
    let mut effect = Effect::new(0, 1);
    let player_results = vec![
        PlayerResult::new(1, 1000, Some(ChipsChange::Add(250)), 0, PlayerResultStatus::Normal),
        PlayerResult::new(2, 1000, Some(ChipsChange::Add(250)), 1, PlayerResultStatus::Normal),
        PlayerResult::new(3, 0, Some(ChipsChange::Sub(500)), 2, PlayerResultStatus::Eliminated),
    ];
    mtt.ranks.push(PlayerRank::new(1, 1000, PlayerRankStatus::Play, 0));
    mtt.ranks.push(PlayerRank::new(2, 1000, PlayerRankStatus::Play, 1));
    mtt.ranks.push(PlayerRank::new(3, 0, PlayerRankStatus::Out, 2));
    mtt.ranks[2].bounty_reward = 101;
    mtt.ranks[2].bounty_transfer = 203;
    mtt.handle_bounty(&player_results, &mut effect).unwrap();
    assert_eq!(mtt.ranks[0].bounty_reward, 101);
    assert_eq!(mtt.ranks[1].bounty_reward, 101);
    assert_eq!(mtt.total_prize, 2);
    assert_eq!(withdraws(&effect), vec![(1, 50), (2, 50)]);
}

#[test]
fn test_handle_bounty_no_eliminated() {
    let mut mtt = blank_mtt();
    let mut effect = Effect::new(0, 1);
    let player_results = vec![
        PlayerResult::new(1, 1000, Some(ChipsChange::Add(250)), 0, PlayerResultStatus::Normal),
        PlayerResult::new(2, 1000, Some(ChipsChange::Add(250)), 1, PlayerResultStatus::Normal),
    ];
    mtt.ranks.push(PlayerRank::new(1, 1000, PlayerRankStatus::Play, 0));
    mtt.ranks.push(PlayerRank::new(2, 1000, PlayerRankStatus::Play, 1));
    mtt.handle_bounty(&player_results, &mut effect).unwrap();
    assert_eq!(mtt.ranks[0].bounty_reward, 0);
    assert_eq!(mtt.ranks[1].bounty_reward, 0);
    assert_eq!(mtt.total_prize, 0);
    assert_eq!(withdraws(&effect), vec![]);
}

#[test]
fn bounty_without_winner_is_refused() {
    let mut mtt = blank_mtt();
    let mut effect = Effect::new(0, 1);
    mtt.ranks.push(PlayerRank::new(3, 0, PlayerRankStatus::Out, 2));
    let player_results = vec![PlayerResult::new(3, 0, Some(ChipsChange::Sub(500)), 2, PlayerResultStatus::Eliminated)];
    assert_eq!(mtt.handle_bounty(&player_results, &mut effect), Err(GameError::BountyWinnerMissing));
}

#[test]
fn create_mtt_with_15_players_in_3_tables() {
    let mtt = create_mtt_with_players(&[6, 6, 3], 6);
    assert_eq!(mtt.ranks.len(), 15);
    assert_eq!(mtt.tables.len(), 3);
    assert_eq!(mtt.tables.values().next().unwrap().players.len(), 6);
    assert_eq!(mtt.tables.values().last().unwrap().players.len(), 3);
}

#[test]
fn chips_change_puts_busted_player_out() {
    let mut mtt = create_mtt_with_players(&[3], 6);
    let results = vec![
        PlayerResult::new(1, 20000, Some(ChipsChange::Add(10000)), 0, PlayerResultStatus::Normal),
        PlayerResult::new(2, 0, Some(ChipsChange::Sub(10000)), 1, PlayerResultStatus::Eliminated),
    ];
    mtt.apply_chips_change(&results).unwrap();
    assert_eq!(mtt.ranks[0].id, 1);
    assert_eq!(mtt.ranks[0].chips, 20000);
    assert_eq!(mtt.ranks[2].id, 2);
    assert_eq!(mtt.ranks[2].status, PlayerRankStatus::Out);
    assert!(!mtt.table_assigns.contains_key(&2));
    assert_eq!(mtt.alives, 2);
    let unknown = vec![PlayerResult::new(77, 0, None, 0, PlayerResultStatus::Normal)];
    assert_eq!(mtt.apply_chips_change(&unknown), Err(GameError::PlayerNotFound));
}

#[test]
fn prizes_are_paid_when_one_player_is_left() {
    let mut mtt = blank_mtt();
    mtt.prize_rules = vec![50, 30, 20];
    mtt.total_prize = 1000;
    mtt.total_rake = 30;
    mtt.ranks = vec![
        PlayerRank::new(7, 30000, PlayerRankStatus::Play, 0),
        PlayerRank::new(8, 0, PlayerRankStatus::Out, 1),
    ];
    mtt.ranks[0].bounty_reward = 5;
    let mut effect = Effect::new(0, 1);
    mtt.apply_prizes(&mut effect).unwrap();
    // two places are paid: 80 shares of the pool
    assert_eq!(mtt.winners.iter().map(|w| (w.player_id, w.prize)).collect::<Vec<_>>(), vec![(7, 600), (8, 360)]);
    assert_eq!(
        effect.actions,
        vec![
            EffectAction::Withdraw { player_id: 7, amount: 605 },
            EffectAction::Withdraw { player_id: 8, amount: 360 },
            EffectAction::WaitTimeout { timeout: BONUS_DISTRIBUTION_DELAY },
            EffectAction::Transfer { amount: 30 },
        ]
    );
    assert_eq!(mtt.stage, MttStage::Completed);
    assert_eq!(mtt.player_balances.get(&0), Some(&0));
}

#[test]
fn no_prizes_while_players_are_left() {
    let mut mtt = create_mtt_with_players(&[3], 6);
    mtt.prize_rules = vec![100];
    let mut effect = Effect::new(0, 1);
    mtt.apply_prizes(&mut effect).unwrap();
    assert!(effect.actions.is_empty());
    assert_eq!(mtt.stage, MttStage::Playing);
}

#[test]
fn join_deposit_and_start() {
    let mut mtt = Mtt::init_state(account(1000, 5000, vec![100], 50, 20, 5000)).unwrap();
    mtt.table_size = 2;
    mtt.ticket = 1000;
    let mut effect = Effect::new(500, 1);
    mtt.handle_event(&mut effect, Event::Ready).unwrap();
    assert_eq!(effect.actions, vec![EffectAction::WaitTimeout { timeout: 500 }]);

    let players: Vec<JoinedPlayer> = (1..=4).map(|id| JoinedPlayer { id, position: id as u8 }).collect();
    let mut effect = Effect::new(600, 1);
    mtt.handle_event(&mut effect, Event::Join { players }).unwrap();
    assert_eq!(mtt.ranks.len(), 4);

    let deposits: Vec<PlayerDeposit> = (1..=4).map(|id| PlayerDeposit { id, balance: 1000 }).collect();
    let mut effect = Effect::new(700, 1);
    mtt.handle_event(&mut effect, Event::Deposit { deposits }).unwrap();
    assert!(mtt.ranks.iter().all(|r| r.chips == 5000));
    assert_eq!(mtt.total_rake, 200);
    assert_eq!(mtt.total_bounty, 80);
    assert_eq!(mtt.total_prize, 3720);
    assert_eq!(mtt.ranks[0].bounty_reward, 10);
    assert_eq!(mtt.ranks[0].bounty_transfer, 10);
    assert_eq!(mtt.player_balances.get(&0), Some(&4000));
    // a second ticket while holding chips is refused
    let mut effect = Effect::new(800, 1);
    mtt.handle_event(&mut effect, Event::Deposit { deposits: vec![PlayerDeposit { id: 1, balance: 1000 }] }).unwrap();
    assert_eq!(effect.actions, vec![EffectAction::RejectDeposit { player_id: 1, amount: 1000 }]);

    let mut effect = Effect::new(1000, 1);
    mtt.handle_event(&mut effect, Event::GameStart).unwrap();
    assert_eq!(mtt.stage, MttStage::Playing);
    let launched: Vec<MttTableState> = effect
        .actions
        .iter()
        .filter_map(|a| match a {
            EffectAction::LaunchSubGame { table } => Some(table.clone()),
            _ => None,
        })
        .collect();
    assert_eq!(launched.len(), 2);
    assert_eq!(launched[0].players.iter().map(|p| p.id).collect::<Vec<_>>(), vec![1, 3]);
    assert_eq!(launched[1].players.iter().map(|p| p.id).collect::<Vec<_>>(), vec![2, 4]);
    assert_eq!(launched[0].table_id, 1);
    assert_eq!(launched[1].table_id, 2);
    assert_eq!(launched[0].sb, 50);
    assert_eq!(mtt.table_assigns.len(), 4);
    assert_eq!(effect.actions.last(), Some(&EffectAction::Checkpoint));
    assert_eq!(mtt.alives, 4);

    let mut effect = Effect::new(1100, 1);
    mtt.handle_event(&mut effect, Event::SubGameReady { game_id: 1, table: launched[0].clone() }).unwrap();
    assert_eq!(mtt.tables.len(), 1);
    assert_eq!(mtt.launched_table_ids, vec![1]);
}

#[test]
fn custom_and_leave_events_are_refused() {
    let mut mtt = blank_mtt();
    let mut effect = Effect::new(0, 1);
    assert_eq!(
        mtt.handle_event(&mut effect, Event::Leave { player_id: 1 }),
        Err(GameError::LeaveNotAllowed)
    );
}

#[test]
fn game_start_without_players_completes() {
    let mut mtt = blank_mtt();
    let mut effect = Effect::new(0, 1);
    mtt.handle_event(&mut effect, Event::GameStart).unwrap();
    assert_eq!(mtt.stage, MttStage::Completed);
    assert_eq!(effect.actions, vec![EffectAction::Checkpoint]);
}

#[test]
fn final_table_starts_next_hand() {
    let mut mtt = create_mtt_with_players(&[4], 6);
    let table = mtt.tables.get(&1).unwrap().clone();
    let mut effect = Effect::new(0, 1);
    let ev = Event::Bridge {
        dest_game_id: 0,
        event: HoldemBridgeEvent::GameResult { hand_id: 1, table_id: 1, btn: 0, player_results: vec![], table },
    };
    mtt.handle_event(&mut effect, ev).unwrap();
    assert_eq!(
        bridges(&effect),
        vec![(1, HoldemBridgeEvent::StartGame { sb: 50, bb: 100, ante: 0, sitout_players: vec![] })]
    );
}

#[test]
fn awards_go_to_the_first_eight() {
    let mut mtt = create_mtt_with_players(&[9], 9);
    mtt.stage = MttStage::DistributingPrize;
    let mut effect = Effect::new(0, 1);
    mtt.handle_event(&mut effect, Event::WaitingTimeout).unwrap();
    assert_eq!(effect.actions.len(), 8);
    assert_eq!(effect.actions[0], EffectAction::Award { player_id: 1, rank: 1 });
    assert_eq!(effect.actions[7], EffectAction::Award { player_id: 8, rank: 8 });
    assert_eq!(mtt.stage, MttStage::Completed);
}

fn table_of(table_id: usize, ids: &[u64]) -> MttTableState {
    let players = ids
        .iter()
        .enumerate()
        .map(|(i, id)| MttTablePlayer::new_with_defaults(*id, 10000, i as u8))
        .collect();
    MttTableState::new(table_id, 0, 0, 0, players)
}

#[test]
fn test_get_table_ids_with_least_most_players() {
    let mut mtt = blank_mtt();
    mtt.tables = BTreeMap::from([
        (1, table_of(1, &[1, 2, 3])),
        (2, table_of(2, &[1, 2])),
        (3, table_of(3, &[1, 1, 1, 2])),
        (4, table_of(4, &[1, 2])),
        (5, table_of(5, &[1, 1, 1, 2])),
    ]);
    assert_eq!(mtt.get_table_ids_with_least_most_players(1), Ok((2, 3)));
    assert_eq!(mtt.get_table_ids_with_least_most_players(2), Ok((2, 3)));
    assert_eq!(mtt.get_table_ids_with_least_most_players(3), Ok((2, 3)));
    assert_eq!(mtt.get_table_ids_with_least_most_players(4), Ok((4, 3)));
    assert_eq!(mtt.get_table_ids_with_least_most_players(5), Ok((2, 5)));
}

#[test]
fn least_most_players_of_an_unknown_table_is_refused() {
    let mtt = create_mtt_with_players(&[6, 3, 5, 3], 6);
    assert_eq!(mtt.get_table_ids_with_least_most_players(9), Err(GameError::InvalidTableId));
}

#[test]
fn test_sort_ranks_ensures_eliminated_players_keep_order() {
    let mut mtt = blank_mtt();
    mtt.ranks.push(PlayerRank::new(1, 5000, PlayerRankStatus::Play, 0));
    mtt.ranks.push(PlayerRank::new(2, 10000, PlayerRankStatus::Play, 1));
    mtt.ranks.push(PlayerRank::new(3, 7000, PlayerRankStatus::Play, 2));
    mtt.ranks.push(PlayerRank::new(4, 0, PlayerRankStatus::Out, 3));
    mtt.ranks.push(PlayerRank::new(5, 0, PlayerRankStatus::Out, 4));
    mtt.sort_ranks();
    assert_eq!(mtt.ranks[0].id, 2);
    assert_eq!(mtt.ranks[1].id, 3);
    assert_eq!(mtt.ranks[2].id, 1);
    assert_eq!(mtt.ranks[3].id, 4);
    assert_eq!(mtt.ranks[4].id, 5);
}

#[test]
fn test_update_player_balances() {
    let mut mtt = blank_mtt();
    mtt.total_prize = 10000;
    mtt.total_rake = 2000;
    mtt.update_player_balances();
    assert_eq!(mtt.player_balances.get(&0), Some(&12000));
}

#[test]
fn balances_of_the_tournament_are_its_pools() {
    let mut mtt = blank_mtt();
    mtt.total_prize = 900;
    mtt.total_rake = 50;
    mtt.total_bounty = 50;
    mtt.update_player_balances();
    assert_eq!(mtt.balances(), vec![(0, 1000)]);
}

#[test]
fn test_init_state_with_new_game() {
    let mut acc = account(1000, 5000, vec![50, 30, 20], 0, 0, 5000);
    acc.ticket = 1000;
    acc.table_size = 6;
    let mtt = Mtt::init_state(acc).unwrap();
    assert_eq!(mtt.start_time, 1000);
    assert_eq!(mtt.alives, 0);
    assert_eq!(mtt.stage, MttStage::Init);
    assert!(mtt.table_assigns.is_empty());
    assert!(mtt.ranks.is_empty());
    assert!(mtt.tables.is_empty());
    assert_eq!(mtt.table_size, 6);
    assert_eq!(mtt.time_elapsed, 0);
    assert_eq!(mtt.timestamp, 0);
    assert_eq!(mtt.blind_info, BlindInfo::default());
}

#[test]
fn test_create_tables() {
    let mut mtt = blank_mtt();
    mtt.table_size = 2;
    mtt.start_chips = 1000;
    mtt.ranks = (1..=4).map(|id| PlayerRank::new(id, 1000, PlayerRankStatus::Pending, id as u16)).collect();
    let mut effect = Effect::new(0, 1);
    mtt.handle_event(&mut effect, Event::GameStart).unwrap();
    assert_eq!(mtt.table_assigns, BTreeMap::from([(1, 1), (2, 2), (3, 1), (4, 2)]));
    let launched: Vec<(usize, usize)> = effect
        .actions
        .iter()
        .filter_map(|a| match a {
            EffectAction::LaunchSubGame { table } => Some((table.table_id, table.players.len())),
            _ => None,
        })
        .collect();
    assert_eq!(launched, vec![(1, 2), (2, 2)]);
}
