use std::collections::BTreeMap;

use race_poker::account::HoldemAccount;
use race_poker::effect::{Effect, EffectAction};
use race_poker::essential::{GameEvent, GameMode, HoldemStage, PlayerStatus, Street};
use race_poker::event::{Event, JoinedPlayer, PlayerDeposit};
use race_poker::game::Holdem;
use race_poker::mtt_base::{HoldemBridgeEvent, MttTableInit, MttTablePlayerInit};
use race_poker::mtt_table::MttTable;

const BOB: u64 = 1;
const ALICE: u64 = 2;

/// A table and what its surroundings know: the time, the next random
/// state's id and the cards revealed so far.
struct Table {
    holdem: Holdem,
    now: u64,
    next_random_id: usize,
    revealed: BTreeMap<usize, String>,
}

impl Table {
    fn new() -> Table {
        let holdem = Holdem::init_state(&HoldemAccount::default(), 9).unwrap();
        Table { holdem, now: 0, next_random_id: 1, revealed: BTreeMap::new() }
    }

    fn effect(&self) -> Effect {
        Effect {
            timestamp: self.now,
            nodes_count: 1,
            revealed: self.revealed.clone(),
            next_random_id: self.next_random_id,
            next_sub_game_id: 1,
            actions: vec![],
        }
    }

    fn handle(&mut self, event: Event) -> Vec<EffectAction> {
        let mut effect = self.effect();
        self.holdem.handle_event(&mut effect, event).unwrap();
        self.next_random_id = effect.next_random_id;
        effect.actions
    }
}

fn join_and_deposit(table: &mut Table, players: &[(u64, u8, u64)]) -> Vec<EffectAction> {
    let joined = players.iter().map(|(id, pos, _)| JoinedPlayer { id: *id, position: *pos }).collect();
    let mut actions = table.handle(Event::Join { players: joined });
    let deposits = players.iter().map(|(id, _, amt)| PlayerDeposit { id: *id, balance: *amt }).collect();
    actions.extend(table.handle(Event::Deposit { deposits }));
    actions
}

/// Start a hand and deal it up to the first player's action.
fn start_hand(table: &mut Table) {
    let actions = table.handle(Event::GameStart);
    assert!(actions.iter().any(|a| matches!(a, EffectAction::InitDeck { .. })));
    let actions = table.handle(Event::RandomnessReady);
    assert!(actions.iter().any(|a| matches!(a, EffectAction::Assign { .. })));
    table.handle(Event::SecretsReady);
}

#[test]
fn test_preflop_fold() {
    let mut table = Table::new();
    let actions = join_and_deposit(&mut table, &[(BOB, 0, 1000), (ALICE, 1, 1000)]);
    assert!(actions.contains(&EffectAction::StartGame));

    start_hand(&mut table);
    {
        let state = &table.holdem;
        assert_eq!(state.street, Street::Preflop);
        assert_eq!(state.btn, 1);
        assert!(state.is_acting_player(ALICE));
    }

    // SB (Alice) folds, so BB (Bob), the single player left, wins
    let actions = table.handle(Event::Custom { sender: ALICE, event: GameEvent::Fold });
    assert!(actions.iter().any(|a| matches!(a, EffectAction::WaitTimeout { .. })));
    let actions = table.handle(Event::WaitingTimeout);
    assert!(actions.contains(&EffectAction::StartGame));
    table.handle(Event::GameStart);
    {
        let state = &table.holdem;
        let alice = state.player_map.get(&ALICE).unwrap();
        let bob = state.player_map.get(&BOB).unwrap();
        assert_eq!(state.street, Street::Init);
        assert_eq!(alice.chips, 990);
        assert_eq!(bob.chips, 1010);
        assert_eq!(bob.status, PlayerStatus::Wait);
    }

    // The game starts again with the button moved
    assert_eq!(table.holdem.btn, 0);
}

#[test]
fn blinds_are_posted_on_preflop() {
    let mut table = Table::new();
    join_and_deposit(&mut table, &[(BOB, 0, 1000), (ALICE, 1, 1000)]);
    start_hand(&mut table);
    let state = &table.holdem;
    // heads-up: the button posts the small blind
    assert_eq!(state.bet_map.get(&ALICE), Some(&10));
    assert_eq!(state.bet_map.get(&BOB), Some(&20));
    assert_eq!(state.player_map.get(&ALICE).unwrap().chips, 990);
    assert_eq!(state.player_map.get(&BOB).unwrap().chips, 980);
    assert_eq!(state.street_bet, 20);
    assert_eq!(state.stage, HoldemStage::Play);
}

#[test]
fn action_from_other_player_is_refused() {
    let mut table = Table::new();
    join_and_deposit(&mut table, &[(BOB, 0, 1000), (ALICE, 1, 1000)]);
    start_hand(&mut table);
    let mut effect = table.effect();
    let r = table.holdem.handle_event(&mut effect, Event::Custom { sender: BOB, event: GameEvent::Fold });
    assert!(r.is_err());
}

#[test]
fn unknown_sender_is_refused() {
    let mut table = Table::new();
    join_and_deposit(&mut table, &[(BOB, 0, 1000), (ALICE, 1, 1000)]);
    start_hand(&mut table);
    let mut effect = table.effect();
    let r = table.holdem.handle_event(&mut effect, Event::Custom { sender: 77, event: GameEvent::Call });
    assert_eq!(r, Err(race_poker::errors::GameError::InvalidPlayer));
}

#[test]
fn deposit_of_unknown_player_is_rejected() {
    let mut table = Table::new();
    let actions = table.handle(Event::Deposit { deposits: vec![PlayerDeposit { id: 9, balance: 100 }] });
    assert_eq!(actions, vec![EffectAction::RejectDeposit { player_id: 9, amount: 100 }]);
}

#[test]
fn balances_sum_chips_and_deposits() {
    let mut table = Table::new();
    join_and_deposit(&mut table, &[(BOB, 0, 1000), (ALICE, 1, 600)]);
    assert_eq!(table.holdem.balances(), vec![(BOB, 1000), (ALICE, 600)]);
}

#[test]
fn tournament_table_reports_a_hand() {
    let init = MttTableInit {
        table_id: 3,
        sb: 10,
        bb: 20,
        ante: 0,
        players: vec![MttTablePlayerInit::new(BOB, 1000), MttTablePlayerInit::new(ALICE, 1000)],
    };
    let mut t = MttTable::init_state(&init, 6).unwrap();
    assert_eq!(t.holdem.mode, GameMode::Mtt);
    let mut next_random_id = 1;
    let mut step = |t: &mut MttTable, ev: Event| -> Vec<EffectAction> {
        let mut effect = Effect::new(0, 1);
        effect.next_random_id = next_random_id;
        t.handle_event(&mut effect, ev).unwrap();
        next_random_id = effect.next_random_id;
        effect.actions
    };
    step(&mut t, Event::GameStart);
    step(&mut t, Event::RandomnessReady);
    step(&mut t, Event::SecretsReady);
    let acting = t.holdem.acting_player.unwrap().id;
    let other = if acting == BOB { ALICE } else { BOB };
    step(&mut t, Event::Custom { sender: acting, event: GameEvent::Fold });
    let actions = step(&mut t, Event::WaitingTimeout);
    assert!(actions.contains(&EffectAction::Checkpoint));
    assert!(!actions.contains(&EffectAction::StartGame));
    let report = actions.iter().find_map(|a| match a {
        EffectAction::Bridge { dest: 0, event: HoldemBridgeEvent::GameResult { table_id, player_results, table, .. } } => {
            Some((*table_id, player_results.clone(), table.clone()))
        }
        _ => None,
    });
    let (table_id, results, table) = report.expect("the hand is reported");
    assert_eq!(table_id, 3);
    assert_eq!(results.len(), 2);
    let winner = results.iter().find(|r| r.player_id == other).unwrap();
    let loser = results.iter().find(|r| r.player_id == acting).unwrap();
    assert!(winner.chips > loser.chips);
    assert_eq!(winner.chips + loser.chips, 2000);
    assert_eq!(table.players.len(), 2);
}

/// Handle an event, then the events that the commands it gives lead to: a
/// shuffled deck once one is asked for, the secrets once cards are
/// assigned or revealed.
fn handle_until_quiet(table: &mut Table, event: Event) {
    let mut next = Some(event);
    while let Some(ev) = next.take() {
        let actions = table.handle(ev);
        if actions.iter().any(|a| matches!(a, EffectAction::InitDeck { .. })) {
            next = Some(Event::RandomnessReady);
        } else if actions.iter().any(|a| matches!(a, EffectAction::Assign { .. } | EffectAction::Reveal { .. })) {
            next = Some(Event::SecretsReady);
        }
    }
}

#[test]
fn heads_up_timeouts_remove_the_player_at_the_settlement() {
    const A: u64 = 1;
    const B: u64 = 2;
    let mut table = Table::new();
    join_and_deposit(&mut table, &[(A, 0, 1000), (B, 1, 1000)]);
    handle_until_quiet(&mut table, Event::GameStart);
    assert!(table.holdem.is_acting_player(B));
    table.holdem.player_map.get_mut(&B).unwrap().timeout = race_poker::essential::MAX_ACTION_TIMEOUT_COUNT;
    handle_until_quiet(&mut table, Event::ActionTimeout { player_id: B });
    assert_eq!(table.holdem.player_map[&B].status, PlayerStatus::Leave);
    handle_until_quiet(&mut table, Event::WaitingTimeout);
    assert_eq!(table.holdem.player_map.len(), 1);
    assert!(table.holdem.player_map.contains_key(&A));
}
