//! Tests of the functions that query or change a Holdem state.

use race_poker::effect::{Effect, EffectAction};
use race_poker::errors::GameError;
use race_poker::essential::{ActingPlayer, Display, GameMode, HoldemStage, Player, PlayerStatus, Pot, Street};
use race_poker::game::Holdem;
use race_poker::hand_history::ChipsChange;
use std::collections::BTreeMap;

const ALICE: u64 = 0;
const BOB: u64 = 1;
const CAROL: u64 = 2;
const DAVE: u64 = 3;
const EVA: u64 = 4;
const FRANK: u64 = 5;

fn initial_players() -> BTreeMap<u64, Player> {
    BTreeMap::from([
        (ALICE, Player::new_with_timeout(ALICE, 1000, 0, 0)),
        (BOB, Player::new_with_timeout(BOB, 1000, 1, 0)),
        (CAROL, Player::new_with_timeout(CAROL, 1000, 2, 0)),
        (DAVE, Player::new_with_timeout(DAVE, 1000, 3, 0)),
        (EVA, Player::new_with_timeout(EVA, 1000, 4, 0)),
        (FRANK, Player::new_with_timeout(FRANK, 1000, 5, 0)),
    ])
}

fn make_even_betmap() -> BTreeMap<u64, u64> {
    BTreeMap::from([(ALICE, 40u64), (BOB, 40u64), (CAROL, 40u64), (DAVE, 40u64), (EVA, 40u64)])
}

fn make_uneven_betmap() -> BTreeMap<u64, u64> {
    BTreeMap::from([(ALICE, 20u64), (BOB, 100u64), (CAROL, 100u64), (DAVE, 60u64), (EVA, 100u64)])
}

fn setup_holdem_state() -> Holdem {
    let mut state = Holdem::default();
    state.hand_id = 1;
    state.deck_random_id = 1;
    state.max_deposit = 600;
    state.sb = 10;
    state.bb = 20;
    state.min_raise = 20;
    state.rake = 3;
    state.rake_cap = 1;
    state.stage = HoldemStage::Init;
    state.street = Street::Init;
    state.street_bet = 20;
    state.rake_collected = 6000;
    state.player_map = initial_players();
    state.mode = GameMode::Cash;
    state.table_size = 7;
    state.arrange_players(0).unwrap();
    state
}

#[test]
fn test_initial_btn() {
    let mut state = setup_holdem_state();
    assert_eq!(state.get_next_btn(), Ok(1));
    assert_eq!(state.btn, 0);
}

#[test]
fn test_collect_bets_with_even_bets() {
    let mut state = setup_holdem_state();
    state.bet_map = make_even_betmap();
    state.collect_bets().unwrap();
    assert_eq!(state.pots.len(), 1);
    assert_eq!(state.pots[0].owners.len(), 5);
    assert_eq!(state.pots[0].amount, 200);
    assert_eq!(
        state.display,
        vec![Display::CollectBets { old_pots: vec![], bet_map: make_even_betmap() }]
    );
    assert!(state.bet_map.is_empty());
}

#[test]
fn test_collect_bets_with_uneven_bets() {
    let mut state = setup_holdem_state();
    state.bet_map = make_uneven_betmap();
    state.collect_bets().unwrap();
    assert_eq!(state.pots.len(), 3);
    assert_eq!(state.pots[0].amount, 100); // 20 * 5
    assert_eq!(state.pots[0].owners, vec![ALICE, BOB, CAROL, DAVE, EVA]);
    assert_eq!(state.pots[1].amount, 160); // 40 * 4
    assert_eq!(state.pots[1].owners, vec![BOB, CAROL, DAVE, EVA]);
    assert_eq!(state.pots[2].amount, 120); // 40 * 3
    assert_eq!(state.pots[2].owners, vec![BOB, CAROL, EVA]);
}

#[test]
fn test_collect_bets_returns_the_excess_bet() {
    let mut state = setup_holdem_state();
    state.bet_map = BTreeMap::from([(ALICE, 50u64), (BOB, 20u64)]);
    state.total_bet_map = BTreeMap::from([(ALICE, 50u64), (BOB, 20u64)]);
    state.collect_bets().unwrap();
    // The 30 only Alice bet goes back to her
    assert_eq!(state.player_map[&ALICE].chips, 1030);
    assert_eq!(state.total_bet_map[&ALICE], 20);
    assert_eq!(state.pots.len(), 1);
    assert_eq!(state.pots[0].amount, 40);
    assert_eq!(state.pots[0].owners, vec![ALICE, BOB]);
}

#[test]
fn test_collect_bets_drops_folded_owners_and_takes_rake() {
    let mut state = setup_holdem_state();
    state.street = Street::Flop;
    state.rake = 50; // 5%
    state.rake_cap = 3;
    state.rake_collected = 0;
    state.player_map.get_mut(&CAROL).unwrap().status = PlayerStatus::Fold;
    state.bet_map = BTreeMap::from([(ALICE, 100u64), (BOB, 100u64), (CAROL, 100u64)]);
    state.collect_bets().unwrap();
    assert_eq!(state.pots.len(), 1);
    assert_eq!(state.pots[0].owners, vec![ALICE, BOB]);
    // 300 less 5% = 285, within the cap of 60
    assert_eq!(state.pots[0].amount, 285);
    assert_eq!(state.rake_collected, 15);
}

#[test]
fn test_take_rake_from_pot_respects_the_cap() {
    let mut state = setup_holdem_state();
    state.street = Street::Turn;
    state.rake = 100;
    state.rake_cap = 1;
    state.rake_collected = 15;
    let mut pot = Pot::new(vec![ALICE, BOB], 1000);
    // 10% of 1000 is 100, but only 20 - 15 = 5 is left under the cap
    assert_eq!(state.take_rake_from_pot(&mut pot), Ok(5));
    assert_eq!(pot.amount, 995);
    assert_eq!(state.rake_collected, 20);
    // No rake on the preflop
    state.street = Street::Preflop;
    let mut pot2 = Pot::new(vec![ALICE, BOB], 1000);
    assert_eq!(state.take_rake_from_pot(&mut pot2), Ok(0));
    assert_eq!(pot2.amount, 1000);
}

#[test]
fn test_assign_winners() {
    let mut state = setup_holdem_state();
    // One pot with a single winner
    state.bet_map = make_even_betmap();
    state.collect_bets().unwrap();
    let winners = vec![vec![BOB], vec![DAVE], vec![CAROL], vec![ALICE], vec![EVA]];
    state.assign_winners(winners).unwrap();
    assert_eq!(state.pots.len(), 1);
    assert_eq!(state.pots[0].winners, vec![BOB]);
    state.pots = vec![];

    // One pot with multi-winners (draw)
    state.bet_map = make_even_betmap();
    state.collect_bets().unwrap();
    let winners = vec![vec![BOB, ALICE], vec![DAVE], vec![CAROL], vec![EVA]];
    state.assign_winners(winners).unwrap();
    assert_eq!(state.pots[0].winners, vec![BOB, ALICE]);
    state.pots = vec![];

    // Multi-pots and each with a single winner
    state.bet_map = make_uneven_betmap();
    state.collect_bets().unwrap();
    let winners = vec![vec![ALICE], vec![DAVE], vec![CAROL], vec![BOB], vec![EVA]];
    let award_pots = state.assign_winners(winners).unwrap();
    assert_eq!(state.pots.len(), 3);
    assert_eq!(state.pots[0].winners, vec![ALICE]);
    assert_eq!(state.pots[1].winners, vec![DAVE]);
    assert_eq!(state.pots[2].winners, vec![CAROL]);
    assert_eq!(award_pots.len(), 3);
    assert_eq!(award_pots[1].amount, 160);
}

#[test]
fn test_assign_winners_needs_a_winner_for_every_pot() {
    let mut state = setup_holdem_state();
    state.pots = vec![Pot::new(vec![ALICE, BOB], 100)];
    assert_eq!(state.assign_winners(vec![vec![CAROL]]), Err(GameError::PotWinnerMissing));
    assert!(state.pots[0].winners.is_empty());
}

#[test]
fn test_calc_prize() {
    let mut state = setup_holdem_state();
    // One pot with a single winner
    state.bet_map = make_even_betmap();
    state.collect_bets().unwrap();
    state.assign_winners(vec![vec![BOB], vec![ALICE], vec![DAVE], vec![CAROL], vec![EVA]]).unwrap();
    state.calc_prize().unwrap();
    assert_eq!(state.prize_map.len(), 2); // there's the odd chips winner
    assert_eq!(state.prize_map.get(&BOB), Some(&200));
    state.pots = vec![];
    state.prize_map = BTreeMap::new();

    // One pot with multi-winners (draw): Alice gets the odd chips
    state.bet_map = make_even_betmap();
    state.collect_bets().unwrap();
    state.assign_winners(vec![vec![BOB, DAVE, ALICE], vec![CAROL], vec![EVA]]).unwrap();
    state.calc_prize().unwrap();
    assert_eq!(state.prize_map.len(), 3);
    assert_eq!(state.prize_map.get(&BOB), Some(&66));
    assert_eq!(state.prize_map.get(&DAVE), Some(&66));
    assert_eq!(state.prize_map.get(&ALICE), Some(&68));
    state.pots = vec![];
    state.prize_map = BTreeMap::new();

    // Multi pots and each with multi winners
    state.bet_map = make_uneven_betmap();
    state.collect_bets().unwrap();
    state.assign_winners(vec![vec![DAVE, ALICE], vec![BOB], vec![CAROL], vec![EVA]]).unwrap();
    state.calc_prize().unwrap();
    assert_eq!(state.pots[0].winners, vec![DAVE, ALICE]);
    assert_eq!(state.pots[1].winners, vec![DAVE]);
    assert_eq!(state.pots[2].winners, vec![BOB]);
    assert_eq!(state.prize_map.len(), 3);
    assert_eq!(state.prize_map.get(&ALICE), Some(&50));
    assert_eq!(state.prize_map.get(&DAVE), Some(&210));
    assert_eq!(state.prize_map.get(&BOB), Some(&120));
}

#[test]
fn test_calc_prize_odd_chips_go_to_the_lowest_seat_holding_a_prize() {
    let mut state = setup_holdem_state();
    // Carol (seat 2) and Bob (seat 1) held prizes before; Bob sits lower
    state.prize_map = BTreeMap::from([(BOB, 1), (CAROL, 1)]);
    state.pots = vec![Pot::new(vec![ALICE, BOB, CAROL], 100)];
    state.assign_winners(vec![vec![ALICE, BOB, CAROL]]).unwrap();
    state.calc_prize().unwrap();
    assert_eq!(state.prize_map.get(&ALICE), Some(&33));
    assert_eq!(state.prize_map.get(&BOB), Some(&34));
    assert_eq!(state.prize_map.get(&CAROL), Some(&33));
}

#[test]
fn test_apply_prize() {
    let mut state = setup_holdem_state();
    state.bet_map = make_even_betmap();
    state.collect_bets().unwrap();
    state.assign_winners(vec![vec![BOB], vec![ALICE], vec![DAVE], vec![CAROL], vec![EVA]]).unwrap();
    state.calc_prize().unwrap();
    state.apply_prize().unwrap();
    assert_eq!(state.player_map.get(&BOB).unwrap().chips, 1200);
    state.pots = vec![];
    state.prize_map = BTreeMap::new();
    state.player_map = initial_players();

    state.bet_map = make_uneven_betmap();
    state.collect_bets().unwrap();
    state.assign_winners(vec![vec![ALICE], vec![DAVE], vec![BOB], vec![CAROL], vec![EVA]]).unwrap();
    state.calc_prize().unwrap();
    state.apply_prize().unwrap();
    assert_eq!(state.player_map.get(&ALICE).unwrap().chips, 1100);
    assert_eq!(state.player_map.get(&DAVE).unwrap().chips, 1160);
    assert_eq!(state.player_map.get(&BOB).unwrap().chips, 1120);
}

#[test]
fn test_update_chips_map_with_multiple_pot() {
    let mut state = setup_holdem_state();
    state.bet_map = make_uneven_betmap();
    state.total_bet_map = make_uneven_betmap();
    state.collect_bets().unwrap();
    state.assign_winners(vec![vec![ALICE], vec![DAVE], vec![BOB], vec![CAROL], vec![EVA]]).unwrap();
    state.calc_prize().unwrap();
    let results = state.update_player_chips().unwrap();
    let changes = &state.hand_history.chips_change;
    // Alice bet 20 and won 100, Dave bet 60 and won 160, Bob bet 100 and won 120
    assert_eq!(changes.get(&ALICE), Some(&ChipsChange::Add(80)));
    assert_eq!(changes.get(&DAVE), Some(&ChipsChange::Add(100)));
    assert_eq!(changes.get(&BOB), Some(&ChipsChange::Add(20)));
    assert_eq!(changes.get(&CAROL), Some(&ChipsChange::Sub(100)));
    assert_eq!(changes.get(&EVA), Some(&ChipsChange::Sub(100)));
    assert_eq!(changes.get(&FRANK), None);
    assert_eq!(state.winners, vec![ALICE, BOB, DAVE]);
    assert_eq!(results.len(), 6);
    assert_eq!(results[&CAROL].chips, 1000);
}

#[test]
fn test_blind_bets() {
    let mut state = setup_holdem_state();
    state.street_bet = 0;
    let mut effect = Effect::new(0, 1);
    state.blind_bets(&mut effect).unwrap();
    let acting = state.acting_player.unwrap();
    assert_eq!(acting.id, DAVE);
    assert_eq!(acting.position, 3);
    assert_eq!(state.bet_map.len(), 2);
    assert_eq!(state.bet_map.get(&BOB), Some(&state.sb));
    assert_eq!(state.bet_map.get(&CAROL), Some(&state.bb));
    assert_eq!(state.street_bet, 20);
    assert_eq!(state.min_raise, 20);
    assert_eq!(state.display, vec![Display::DealCards]);
    assert!(matches!(effect.actions.last(), Some(EffectAction::ActionTimeout { player_id: DAVE, .. })));
}

#[test]
fn test_remove_leave_and_out_players() {
    let mut holdem = Holdem::default();
    holdem.player_map = BTreeMap::from([
        (1, Player::new_with_defaults(1, 0, 0, PlayerStatus::Leave)),
        (2, Player::new_with_defaults(2, 0, 0, PlayerStatus::Out)),
        (3, Player::new_with_defaults(3, 100, 0, PlayerStatus::Acting)),
    ]);
    let removed = holdem.kick_players();
    assert_eq!(removed.len(), 2);
    assert!(removed.iter().any(|p| p.id == 1 && p.status == PlayerStatus::Leave));
    assert!(removed.iter().any(|p| p.id == 2 && p.status == PlayerStatus::Out));
    assert_eq!(holdem.player_map.len(), 1);
    assert!(holdem.player_map.contains_key(&3));
}

#[test]
fn test_arrange_players_starts_after_the_reference_seat() {
    let mut state = setup_holdem_state();
    state.player_map.get_mut(&EVA).unwrap().status = PlayerStatus::Init;
    state.arrange_players(2).unwrap();
    assert_eq!(state.player_order, vec![DAVE, FRANK, ALICE, BOB, CAROL]);
}

#[test]
fn test_next_state_asks_the_next_player() {
    let mut state = setup_holdem_state();
    state.street = Street::Preflop;
    state.street_bet = 0;
    let mut effect = Effect::new(1_000, 1);
    state.blind_bets(&mut effect).unwrap();
    // Dave calls: Eva is next
    state.handle_action_event(&mut effect, race_poker::essential::GameEvent::Call, DAVE).unwrap();
    assert_eq!(state.player_map[&DAVE].chips, 980);
    assert_eq!(state.player_map[&DAVE].status, PlayerStatus::Acted);
    assert_eq!(state.acting_player.map(|a| a.id), Some(EVA));
    // Only the acting player may act
    assert_eq!(
        state.handle_action_event(&mut effect, race_poker::essential::GameEvent::Check, ALICE),
        Err(GameError::NotTheActingPlayerToCheck)
    );
}

#[test]
fn test_acting_player_is_set() {
    let mut state = setup_holdem_state();
    state.acting_player = Some(ActingPlayer::new(BOB, 1, 0, 10_000));
    assert!(state.is_acting_player(BOB));
    assert!(!state.is_acting_player(ALICE));
}

#[test]
fn test_collect_bets_takes_no_rake_past_the_cap() {
    let mut state = setup_holdem_state();
    state.street = Street::Flop;
    state.bet_map = BTreeMap::from([(ALICE, 1000u64), (BOB, 1000u64)]);
    state.total_bet_map = BTreeMap::from([(ALICE, 1000u64), (BOB, 1000u64)]);
    state.collect_bets().unwrap();
    assert_eq!(state.pots.len(), 1);
    assert_eq!(state.pots[0].amount, 2000);
    assert_eq!(state.rake_collected, 6000);
}

#[test]
fn test_assign_winners_keeps_the_earlier_pots_on_error() {
    let mut state = setup_holdem_state();
    state.pots = vec![Pot::new(vec![ALICE, BOB], 100), Pot::new(vec![CAROL], 50)];
    let r = state.assign_winners(vec![vec![BOB]]);
    assert_eq!(r.err(), Some(GameError::PotWinnerMissing));
    assert_eq!(state.pots[0].winners, vec![BOB]);
    assert!(state.pots[1].winners.is_empty());
}

#[test]
fn test_action_timeout_of_the_acting_player_checks() {
    let mut h = Holdem::default();
    h.street = Street::Flop;
    h.stage = HoldemStage::Play;
    h.street_bet = 0;
    h.mode = GameMode::Cash;
    h.acting_player = Some(ActingPlayer::new(1, 0, 0, 15_000));
    h.player_map = BTreeMap::from([
        (1u64, Player::new_with_defaults(1, 1000, 0, PlayerStatus::Acting)),
        (2u64, Player::new_with_defaults(2, 1000, 1, PlayerStatus::Wait)),
    ]);
    let mut effect = Effect::new(0, 0);
    h.handle_event(&mut effect, race_poker::event::Event::ActionTimeout { player_id: 1 }).unwrap();
    assert_eq!(h.player_map[&1].status, PlayerStatus::Acted);
    assert_eq!(h.hand_history.flop.actions.len(), 1);
    assert_eq!(h.player_map[&2].status, PlayerStatus::Acting);
    assert_eq!(h.acting_player.unwrap().id, 2);
    assert_eq!(h.stage, HoldemStage::Play);
}

#[test]
fn test_leave_between_hands_pays_out_and_ejects() {
    let mut h = Holdem::default();
    h.mode = GameMode::Cash;
    h.stage = HoldemStage::Init;
    h.player_map = BTreeMap::from([
        (1u64, Player::new_with_defaults(1, 700, 0, PlayerStatus::Wait)),
        (2u64, Player::new_with_defaults(2, 900, 1, PlayerStatus::Wait)),
    ]);
    let mut effect = Effect::new(1_000, 1);
    h.handle_event(&mut effect, race_poker::event::Event::Leave { player_id: 1 }).unwrap();
    assert!(!h.player_map.contains_key(&1));
    assert!(h.player_map.contains_key(&2));
    assert_eq!(h.next_game_start, 6_000);
    assert!(h.acting_player.is_none());
    assert_eq!(
        effect.actions,
        vec![
            EffectAction::Checkpoint,
            EffectAction::WaitTimeout { timeout: 5_000 },
            EffectAction::CancelDispatch,
            EffectAction::Withdraw { player_id: 1, amount: 700 },
            EffectAction::Eject { player_id: 1 },
        ]
    );
}

#[test]
fn test_leave_of_an_unknown_player_between_hands_is_refused() {
    let mut h = Holdem::default();
    h.mode = GameMode::Cash;
    h.stage = HoldemStage::Settle;
    h.player_map = BTreeMap::from([(2u64, Player::new_with_defaults(2, 900, 1, PlayerStatus::Wait))]);
    let mut effect = Effect::new(1_000, 1);
    assert_eq!(
        h.handle_event(&mut effect, race_poker::event::Event::Leave { player_id: 1 }),
        Err(GameError::InvalidPlayer)
    );
}
