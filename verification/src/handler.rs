//! The game handler: what a table does on each event, and the commands it
//! gives back through the effect.

use std::collections::BTreeMap;
use vstd::prelude::*;
use crate::effect::{same_context, Effect, EffectAction};
use crate::errors::GameError;
use crate::essential::{
    pot_views, ActingPlayer, AwardPot, Display, HoldemStage, Player, PlayerResult, PlayerStatus, Pot,
    PotView, Street, ACTION_TIMEOUT_AFK,
    ACTION_TIMEOUT_POSTFLOP, ACTION_TIMEOUT_PREFLOP, ACTION_TIMEOUT_RIVER, ACTION_TIMEOUT_TURN,
    TIME_CARD_EXTRA_SECS, spec_next_to_act,
};
use crate::game::{
    arranged_order, bet_of, first_needing, has_position, ingame_pred, is_removable, mapped,
    players_of, refill_fn, removable_pred, reset_fn, timeout_overflows, Holdem,
};
use crate::settle::{
    bets_collected, collect_error,
    all_have_winners, awarded, delta_fails, deltas, odd_sum, positive_prize, prize_overflows, prize_sum, prizes,
    prizes_overflow, remainder_id, results_of, set_views, with_prize, collect_run, merge_pots, retain_owners,
    unfolded_ids,
};
use crate::hand_history::with_changes;
use crate::showdown::{hand_views, rank_hands, showdown_sets};
use crate::game::eliminate_fn;
use crate::hand_history::Showdown;
use crate::holdem_evaluator::{create_cards, evaluate_cards, string_views, valid_card, valid_cards, views};
use crate::card_views::{lemma_seven_card_hand, seven_card_value};
use crate::variant::{holdem_cards, shows_hand};
use crate::keys::key_seq;
use crate::showdown::{cards_ok, rank_player_hands, showdown_winner_sets};
use crate::hand_history::{action_added, BlindBet, BlindType, PlayerAction, PlayerActionEvent};
use crate::essential::{GameEvent, GameMode, MAX_ACTION_TIMEOUT_COUNT, WAIT_TIMEOUT_DEFAULT};
use crate::account::HoldemAccount;
use crate::event::{Event, JoinedPlayer, PlayerDeposit};
use crate::game::{is_unfolded, refill_player, reset_player};

verus! {

broadcast use vstd::std_specs::btree::group_btree_axioms;

/// The time a player has to act on the current street.
pub open spec fn action_time(h: Holdem) -> u64 {
    match h.street {
        Street::Turn => ACTION_TIMEOUT_TURN,
        Street::River => ACTION_TIMEOUT_RIVER,
        Street::Flop => ACTION_TIMEOUT_POSTFLOP,
        Street::Preflop => if h.street_bet == h.bb {
            ACTION_TIMEOUT_PREFLOP
        } else {
            ACTION_TIMEOUT_POSTFLOP
        },
        _ => 0,
    }
}

/// The first player of the order from position `i` on who is in the game
/// and may be asked to act.
pub open spec fn first_actor_from(h: Holdem, i: int) -> Option<u64>
    decreases h.player_order@.len() - i,
{
    if i < 0 || i >= h.player_order@.len() {
        None
    } else {
        let id = h.player_order@[i];
        if h.player_map@.contains_key(id) && spec_next_to_act(h.player_map@[id].status) {
            Some(id)
        } else {
            first_actor_from(h, i + 1)
        }
    }
}

/// How waiting after a settlement ends: the wait of `settle_wait`, unless
/// it cannot be computed or its end does not fit.
pub open spec fn settle_waited(h0: Holdem, e0: Effect, r: Result<(), GameError>, h1: Holdem, e1: Effect) -> bool {
    match settle_wait(h0) {
        Err(e) => r == Err::<(), GameError>(e),
        Ok(t) => if e0.timestamp + t > u64::MAX {
            r == Err::<(), GameError>(GameError::InternalAmountOverflow)
        } else {
            &&& r is Ok
            &&& h1.next_game_start == e0.timestamp + t
            &&& e1.actions@ == e0.actions@.push(EffectAction::WaitTimeout { timeout: t as u64 })
        },
    }
}

/// How long to wait after a settlement so that players see it: collecting
/// the chips (0.5s), observing the result (4s), dealing each board card
/// (1.5s) and settling each pot (4s) after a runner; collecting, observing
/// and each pot after a showdown; collecting and one pot when a single
/// player wins.
pub open spec fn settle_wait(h: Holdem) -> Result<int, GameError> {
    match h.stage {
        HoldemStage::Runner => Ok((500 + 4_000 + 1_500 * h.board@.len() + 4_000 * h.pots@.len()) as int),
        HoldemStage::Showdown => Ok((500 + 4_000 + 4_000 * h.pots@.len()) as int),
        HoldemStage::Settle => Ok(4_500int),
        _ => Err(GameError::WaitTimeoutErrorInSettle),
    }
}

/// The deadline of an acting player: the time card's when one is in use.
pub open spec fn deadline(a: ActingPlayer) -> u64 {
    match a.time_card_clock {
        Some(t) => t,
        None => a.clock,
    }
}

/// The time left until `t` at `now`, or 0.
pub open spec fn time_left(t: u64, now: u64) -> u64 {
    if t > now {
        (t - now) as u64
    } else {
        0
    }
}

/// Whether taking a bet from the player keeps their bets within `u64`.
pub open spec fn bet_fits(h: Holdem, id: u64) -> bool {
    h.player_map@.contains_key(id) ==> bet_of(h.bet_map@, id) + h.player_map@[id].chips <= u64::MAX && bet_of(
        h.total_bet_map@,
        id,
    ) + h.player_map@[id].chips <= u64::MAX
}

impl Holdem {
    /// Clear what belongs to a running hand and cancel the pending dispatch.
    fn signal_game_end(&mut self, effect: &mut Effect) -> (r: Result<(), GameError>)
        ensures
            r is Ok,
            *final(self) == (Holdem { street_bet: 0, min_raise: 0, acting_player: None, ..*old(self) }),
            final(effect).actions@ == old(effect).actions@.push(EffectAction::CancelDispatch),
            same_context(*old(effect), *final(effect)),
    {
        self.street_bet = 0;
        self.min_raise = 0;
        self.acting_player = None;
        effect.push(EffectAction::CancelDispatch);
        Ok(())
    }

    /// Wait `timeout` milliseconds before the next game may start.
    pub fn wait_timeout(&mut self, effect: &mut Effect, timeout: u64)
        requires
            old(effect).timestamp + timeout <= u64::MAX,
        ensures
            *final(self) == (Holdem { next_game_start: (old(effect).timestamp + timeout) as u64, ..*old(self) }),
            final(effect).actions@ == old(effect).actions@.push(EffectAction::WaitTimeout { timeout }),
            same_context(*old(effect), *final(effect)),
    {
        self.next_game_start = effect.timestamp() + timeout;
        effect.push(EffectAction::WaitTimeout { timeout });
    }

    /// The time a player has to act on the current street.
    fn get_action_time(&self) -> (r: u64)
        ensures
            r == action_time(*self),
    {
        match self.street {
            Street::Turn => ACTION_TIMEOUT_TURN,
            Street::River => ACTION_TIMEOUT_RIVER,
            Street::Flop => ACTION_TIMEOUT_POSTFLOP,
            Street::Preflop => {
                if self.street_bet == self.bb {
                    ACTION_TIMEOUT_PREFLOP
                } else {
                    ACTION_TIMEOUT_POSTFLOP
                }
            },
            _ => 0,
        }
    }

    /// How long to wait after a settlement, by stage.
    fn calc_pre_settle_timeout(&self) -> (r: Result<u64, GameError>)
        ensures
            settle_wait(*self) matches Err(e) ==> r == Err::<u64, GameError>(e),
            settle_wait(*self) matches Ok(t) ==> (t <= u64::MAX ==> r == Ok::<u64, GameError>(t as u64)) && (t
                > u64::MAX ==> r == Err::<u64, GameError>(GameError::InternalAmountOverflow)),
    {
        let collect_chips_time: u64 = 500;
        let dealing_card_time: u64 = 1_500;
        let settle_pot_time: u64 = 4_000;
        let observe_result_time: u64 = 4_000;
        let pots: u64 = self.pots.len() as u64;
        match self.stage {
            HoldemStage::Runner => {
                let board: u64 = self.board.len() as u64;
                let deal = match dealing_card_time.checked_mul(board) {
                    Some(d) => d,
                    None => {
                        return Err(GameError::InternalAmountOverflow);
                    },
                };
                let settle = match settle_pot_time.checked_mul(pots) {
                    Some(d) => d,
                    None => {
                        return Err(GameError::InternalAmountOverflow);
                    },
                };
                let base = collect_chips_time + observe_result_time;
                if deal > u64::MAX - base || settle > u64::MAX - base - deal {
                    return Err(GameError::InternalAmountOverflow);
                }
                Ok(base + deal + settle)
            },
            HoldemStage::Showdown => {
                let settle = match settle_pot_time.checked_mul(pots) {
                    Some(d) => d,
                    None => {
                        return Err(GameError::InternalAmountOverflow);
                    },
                };
                let base = collect_chips_time + observe_result_time;
                if settle > u64::MAX - base {
                    return Err(GameError::InternalAmountOverflow);
                }
                Ok(base + settle)
            },
            HoldemStage::Settle => Ok(collect_chips_time + settle_pot_time),
            _ => Err(GameError::WaitTimeoutErrorInSettle),
        }
    }

    /// Ask for the acting player's action by their deadline.
    pub fn set_action_timeout(&mut self, effect: &mut Effect) -> (r: Result<(), GameError>)
        ensures
            *final(self) == *old(self),
            same_context(*old(effect), *final(effect)),
            old(self).acting_player is None ==> r == Err::<(), GameError>(GameError::InternalCannotFindActionPlayer)
                && final(effect).actions@ == old(effect).actions@,
            old(self).acting_player matches Some(a) ==> r is Ok && final(effect).actions@ == old(effect).actions@.push(
                EffectAction::ActionTimeout { player_id: a.id, timeout: time_left(deadline(a), old(effect).timestamp) },
            ),
    {
        let a = match self.acting_player {
            Some(a) => a,
            None => {
                return Err(GameError::InternalCannotFindActionPlayer);
            },
        };
        let t = match a.time_card_clock {
            Some(t) => t,
            None => a.clock,
        };
        let now = effect.timestamp();
        let left = if t > now {
            t - now
        } else {
            0
        };
        effect.push(EffectAction::ActionTimeout { player_id: a.id, timeout: left });
        Ok(())
    }

    /// Make a player the acting one: their clock runs from now for the
    /// street's action time (a second if they are away), and a time card
    /// extends it unless they are away, have none left, or wait on the
    /// preflop.
    pub fn ask_for_action(&mut self, player_id: u64, effect: &mut Effect) -> (r: Result<(), GameError>)
        ensures
            same_context(*old(effect), *final(effect)),
            !old(self).player_map@.contains_key(player_id) ==> r == Err::<(), GameError>(
                GameError::NextActionPlayerMissing,
            ) && *final(self) == *old(self) && *final(effect) == *old(effect),
            old(self).player_map@.contains_key(player_id) ==> {
                let p = old(self).player_map@[player_id];
                let now = old(effect).timestamp;
                let timeout: int = if p.is_afk {
                    ACTION_TIMEOUT_AFK as int
                } else {
                    action_time(*old(self)) as int
                };
                let plain = p.is_afk || p.time_cards == 0 || (old(self).street == Street::Preflop && p.status
                    == PlayerStatus::Wait);
                let end: int = now + timeout + if plain {
                    0
                } else {
                    TIME_CARD_EXTRA_SECS * 1000
                };
                &&& end > u64::MAX ==> r == Err::<(), GameError>(GameError::InternalAmountOverflow) && *final(self)
                    == *old(self) && *final(effect) == *old(effect)
                &&& end <= u64::MAX ==> {
                    let a = ActingPlayer {
                        id: p.id,
                        position: p.position,
                        action_start: now,
                        clock: (now + timeout) as u64,
                        time_card_clock: if plain {
                            None
                        } else {
                            Some(end as u64)
                        },
                    };
                    &&& r is Ok
                    &&& final(self).acting_player == Some(a)
                    &&& final(self).player_map@ == old(self).player_map@.insert(
                        player_id,
                        Player { status: PlayerStatus::Acting, ..p },
                    )
                    &&& *final(self) == (Holdem {
                        acting_player: final(self).acting_player,
                        player_map: final(self).player_map,
                        ..*old(self)
                    })
                    &&& final(effect).actions@ == old(effect).actions@.push(
                        EffectAction::ActionTimeout { player_id: p.id, timeout: (end - now) as u64 },
                    )
                }
            },
    {
        let mut timeout = self.get_action_time();
        let mut player = match self.player_map.get(&player_id) {
            Some(p) => *p,
            None => {
                return Err(GameError::NextActionPlayerMissing);
            },
        };
        if player.is_afk {
            timeout = ACTION_TIMEOUT_AFK;
        }
        let action_start = effect.timestamp();
        if timeout > u64::MAX - action_start {
            return Err(GameError::InternalAmountOverflow);
        }
        let clock = action_start + timeout;
        if player.is_afk || player.time_cards == 0 || (self.street == Street::Preflop && player.status
            == PlayerStatus::Wait) {
            self.acting_player = Some(ActingPlayer::new(player.id, player.position, action_start, clock));
        } else {
            if clock > u64::MAX - TIME_CARD_EXTRA_SECS * 1000 {
                return Err(GameError::InternalAmountOverflow);
            }
            self.acting_player = Some(
                ActingPlayer::new_with_time_card(player.id, player.position, action_start, clock),
            );
        }
        player.status = PlayerStatus::Acting;
        self.player_map.insert(player_id, player);
        self.set_action_timeout(effect)
    }

    /// Use up a time card of the acting player when their action ran past
    /// the normal clock.
    pub fn reduce_time_cards(&mut self, effect: &mut Effect) -> (r: Result<(), GameError>)
        ensures
            *final(effect) == *old(effect),
            old(self).acting_player is None ==> r == Err::<(), GameError>(GameError::InternalCannotFindActionPlayer)
                && *final(self) == *old(self),
            old(self).acting_player matches Some(a) ==> {
                let used = a.time_card_clock is Some && old(effect).timestamp > a.clock;
                &&& !used ==> r is Ok && *final(self) == *old(self)
                &&& used && !old(self).player_map@.contains_key(a.id) ==> r == Err::<(), GameError>(
                    GameError::InternalPlayerNotFound,
                ) && *final(self) == *old(self)
                &&& used && old(self).player_map@.contains_key(a.id) && old(self).player_map@[a.id].time_cards == 0
                    ==> r == Err::<(), GameError>(GameError::InternalAmountOverflow) && *final(self) == *old(self)
                &&& used && old(self).player_map@.contains_key(a.id) && old(self).player_map@[a.id].time_cards > 0
                    ==> r is Ok && final(self).player_map@ == old(self).player_map@.insert(
                    a.id,
                    Player {
                        time_cards: (old(self).player_map@[a.id].time_cards - 1) as u8,
                        ..old(self).player_map@[a.id]
                    },
                ) && *final(self) == (Holdem { player_map: final(self).player_map, ..*old(self) })
            },
    {
        let a = match self.acting_player {
            Some(a) => a,
            None => {
                return Err(GameError::InternalCannotFindActionPlayer);
            },
        };
        if a.time_card_clock.is_some() && effect.timestamp() > a.clock {
            let mut p = match self.player_map.get(&a.id) {
                Some(p) => *p,
                None => {
                    return Err(GameError::InternalPlayerNotFound);
                },
            };
            if p.time_cards == 0 {
                return Err(GameError::InternalAmountOverflow);
            }
            p.time_cards = p.time_cards - 1;
            self.player_map.insert(a.id, p);
        }
        Ok(())
    }
}


/// The state of taking the antes, player by player.
pub struct AnteRun {
    pub players: Map<u64, Player>,
    pub bets: Map<u64, u64>,
    pub totals: Map<u64, u64>,
    pub blinds: Seq<BlindBet>,
    pub total: int,
    pub err: Option<GameError>,
}

/// Taking the ante from one player: all their chips when they have no
/// more, which puts them all in.
pub open spec fn ante_step(st: AnteRun, ante: u64, id: u64) -> AnteRun {
    if st.err is Some {
        st
    } else if !st.players.contains_key(id) {
        AnteRun { err: Some(GameError::InvalidPlayer), ..st }
    } else {
        let p = st.players[id];
        let taken: int = if ante < p.chips {
            ante as int
        } else {
            p.chips as int
        };
        let allin = ante >= p.chips;
        if bet_of(st.bets, id) + p.chips > u64::MAX || bet_of(st.totals, id) + p.chips > u64::MAX
            || st.total + taken > u64::MAX {
            AnteRun { err: Some(GameError::InternalAmountOverflow), ..st }
        } else {
            AnteRun {
                players: st.players.insert(
                    id,
                    Player {
                        chips: (p.chips - taken) as u64,
                        status: if allin {
                            PlayerStatus::Allin
                        } else {
                            p.status
                        },
                        ..p
                    },
                ),
                bets: st.bets.insert(id, (bet_of(st.bets, id) + taken) as u64),
                totals: st.totals.insert(id, (bet_of(st.totals, id) + taken) as u64),
                blinds: st.blinds.push(BlindBet { id, blind_type: BlindType::Ante, amount: taken as u64, is_allin: allin }),
                total: st.total + taken,
                err: None,
            }
        }
    }
}

/// Taking the ante from the players in order.
pub open spec fn ante_run(st: AnteRun, ante: u64, order: Seq<u64>) -> AnteRun
    decreases order.len(),
{
    if order.len() == 0 {
        st
    } else {
        ante_step(ante_run(st, ante, order.drop_last()), ante, order.last())
    }
}

/// The start of taking the antes in a hand state.
pub open spec fn ante_start(h: Holdem) -> AnteRun {
    AnteRun {
        players: h.player_map@,
        bets: h.bet_map@,
        totals: h.total_bet_map@,
        blinds: Seq::empty(),
        total: 0,
        err: None,
    }
}

proof fn lemma_ante_err(st: AnteRun, ante: u64, order: Seq<u64>, i: int)
    requires
        0 <= i <= order.len(),
        ante_run(st, ante, order.take(i)).err is Some,
    ensures
        ante_run(st, ante, order).err == ante_run(st, ante, order.take(i)).err,
    decreases order.len() - i,
{
    if i < order.len() {
        assert(order.take(i + 1).drop_last() =~= order.take(i));
        lemma_ante_err(st, ante, order, i + 1);
    } else {
        assert(order.take(i) =~= order);
    }
}

impl Holdem {
    /// Take a bet, or report an overflow where the player's bets would leave `u64`.
    fn take_bet_checked(&mut self, player_id: u64, amount: u64) -> (r: Result<(bool, u64), GameError>)
        ensures
            !old(self).player_map@.contains_key(player_id) ==> r == Err::<(bool, u64), GameError>(GameError::InvalidPlayer)
                && *final(self) == *old(self),
            old(self).player_map@.contains_key(player_id) && !bet_fits(*old(self), player_id) ==> r == Err::<
                (bool, u64),
                GameError,
            >(GameError::InternalAmountOverflow) && *final(self) == *old(self),
            old(self).player_map@.contains_key(player_id) && bet_fits(*old(self), player_id) ==> {
                let p = old(self).player_map@[player_id];
                let taken: u64 = if amount < p.chips {
                    amount
                } else {
                    p.chips
                };
                &&& r == Ok::<(bool, u64), GameError>((amount >= p.chips, taken))
                &&& final(self).player_map@ == old(self).player_map@.insert(
                    player_id,
                    Player { chips: (p.chips - taken) as u64, ..p },
                )
                &&& final(self).bet_map@ == old(self).bet_map@.insert(
                    player_id,
                    (bet_of(old(self).bet_map@, player_id) + taken) as u64,
                )
                &&& final(self).total_bet_map@ == old(self).total_bet_map@.insert(
                    player_id,
                    (bet_of(old(self).total_bet_map@, player_id) + taken) as u64,
                )
                &&& *final(self) == (Holdem {
                    player_map: final(self).player_map,
                    bet_map: final(self).bet_map,
                    total_bet_map: final(self).total_bet_map,
                    ..*old(self)
                })
            },
    {
        let p = match self.player_map.get(&player_id) {
            Some(p) => *p,
            None => {
                return Err(GameError::InvalidPlayer);
            },
        };
        let bet = self.get_player_bet(player_id);
        let total: u64 = match self.total_bet_map.get(&player_id) {
            Some(t) => *t,
            None => 0,
        };
        if bet > u64::MAX - p.chips || total > u64::MAX - p.chips {
            return Err(GameError::InternalAmountOverflow);
        }
        self.take_bet(player_id, amount)
    }

    /// Take the ante from every player in the order of play, recording
    /// each as a blind; returns the antes taken.
    fn ante_bets(&mut self) -> (r: Result<u64, GameError>)
        ensures
            old(self).ante == 0 ==> r == Ok::<u64, GameError>(0) && *final(self) == *old(self),
            old(self).ante > 0 ==> {
                let st = ante_run(ante_start(*old(self)), old(self).ante, old(self).player_order@);
                &&& st.err matches Some(e) ==> r == Err::<u64, GameError>(e)
                &&& st.err is None ==> {
                    &&& r == Ok::<u64, GameError>(st.total as u64)
                    &&& final(self).player_map@ == st.players
                    &&& final(self).bet_map@ == st.bets
                    &&& final(self).total_bet_map@ == st.totals
                    &&& final(self).hand_history.blinds@ == old(self).hand_history.blinds@ + st.blinds
                    &&& final(self).hand_history.valid == old(self).hand_history.valid
                    &&& final(self).hand_history.board@ == old(self).hand_history.board@
                    &&& final(self).hand_history.preflop == old(self).hand_history.preflop
                    &&& final(self).hand_history.flop == old(self).hand_history.flop
                    &&& final(self).hand_history.turn == old(self).hand_history.turn
                    &&& final(self).hand_history.river == old(self).hand_history.river
                    &&& final(self).hand_history.showdowns@ == old(self).hand_history.showdowns@
                    &&& final(self).hand_history.chips_change@ == old(self).hand_history.chips_change@
                    &&& *final(self) == (Holdem {
                        player_map: final(self).player_map,
                        bet_map: final(self).bet_map,
                        total_bet_map: final(self).total_bet_map,
                        hand_history: final(self).hand_history,
                        ..*old(self)
                    })
                }
            },
    {
        if self.ante == 0 {
            return Ok(0);
        }
        let ghost h0 = *self;
        let ghost st0 = ante_start(h0);
        let order = crate::settle::copy_ids_pub(&self.player_order);
        let ante = self.ante;
        let mut total_ante: u64 = 0;
        let mut i: usize = 0;
        assert(order@.take(0) =~= Seq::<u64>::empty());
        assert(h0.hand_history.blinds@ + Seq::<BlindBet>::empty() =~= h0.hand_history.blinds@);
        while i < order.len()
            invariant
                h0 == *old(self),
                h0.ante > 0,
                order@ == h0.player_order@,
                ante == h0.ante,
                st0 == ante_start(h0),
                i <= order@.len(),
                ({
                    let st = ante_run(st0, ante, order@.take(i as int));
                    &&& st.err is None
                    &&& total_ante == st.total
                    &&& self.player_map@ == st.players
                    &&& self.bet_map@ == st.bets
                    &&& self.total_bet_map@ == st.totals
                    &&& self.hand_history.blinds@ == h0.hand_history.blinds@ + st.blinds
                }),
                self.hand_history.valid == h0.hand_history.valid,
                self.hand_history.board@ == h0.hand_history.board@,
                self.hand_history.preflop == h0.hand_history.preflop,
                self.hand_history.flop == h0.hand_history.flop,
                self.hand_history.turn == h0.hand_history.turn,
                self.hand_history.river == h0.hand_history.river,
                self.hand_history.showdowns@ == h0.hand_history.showdowns@,
                self.hand_history.chips_change@ == h0.hand_history.chips_change@,
                *self == (Holdem {
                    player_map: self.player_map,
                    bet_map: self.bet_map,
                    total_bet_map: self.total_bet_map,
                    hand_history: self.hand_history,
                    ..h0
                }),
            decreases order@.len() - i,
        {
            let pid = order[i];
            let ghost prev = ante_run(st0, ante, order@.take(i as int));
            proof {
                assert(order@.take(i + 1).drop_last() =~= order@.take(i as int));
                assert(order@.take(i + 1).last() == pid);
                assert(ante_run(st0, ante, order@.take(i + 1)) == ante_step(prev, ante, pid));
            }
            let (allin, taken) = match self.take_bet_checked(pid, ante) {
                Ok(x) => x,
                Err(e) => {
                    proof {
                        lemma_ante_err(st0, ante, order@, i + 1);
                    }
                    return Err(e);
                },
            };
            if taken > u64::MAX - total_ante {
                proof {
                    lemma_ante_err(st0, ante, order@, i + 1);
                }
                return Err(GameError::InternalAmountOverflow);
            }
            total_ante = total_ante + taken;
            if allin {
                match self.set_player_status(pid, PlayerStatus::Allin) {
                    Ok(()) => {},
                    Err(e) => {
                        return Err(e);
                    },
                }
            }
            let ghost hb = self.hand_history.blinds@;
            self.hand_history.add_blinds_info(BlindBet::new(pid, BlindType::Ante, taken, allin));
            proof {
                assert(self.hand_history.blinds@ =~= h0.hand_history.blinds@ + ante_run(st0, ante, order@.take(i + 1)).blinds);
            }
            i = i + 1;
        }
        assert(order@.take(i as int) =~= order@);
        Ok(total_ante)
    }
}


/// The table's configuration, which no event of a hand changes.
pub open spec fn same_config(h0: Holdem, h1: Holdem) -> bool {
    &&& h1.hand_id == h0.hand_id
    &&& h1.deck_random_id == h0.deck_random_id
    &&& h1.max_deposit == h0.max_deposit
    &&& h1.sb == h0.sb
    &&& h1.bb == h0.bb
    &&& h1.ante == h0.ante
    &&& h1.btn == h0.btn
    &&& h1.rake == h0.rake
    &&& h1.rake_cap == h0.rake_cap
    &&& h1.mode == h0.mode
    &&& h1.table_size == h0.table_size
}

/// The number of players in the hand (not in `Init`).
pub open spec fn ingame_count(h: Holdem) -> int {
    h.ids().filter(ingame_pred(h.player_map@)).len() as int
}

/// The effect got one more command: a reveal of `indexes` of deck `d`.
pub open spec fn pushed_reveal(e0: Effect, e1: Effect, d: usize, indexes: Seq<usize>) -> bool {
    &&& e1.actions@.len() == e0.actions@.len() + 1
    &&& e1.actions@.drop_last() == e0.actions@
    &&& e1.actions@.last() matches EffectAction::Reveal { random_id, indexes: ix } && random_id == d && ix@
        == indexes
}

/// The five board cards from the revealed cards at `n`, if all are there.
pub open spec fn board_from(rev: Map<usize, String>, n: int) -> Option<Seq<String>> {
    if forall|k: int| 0 <= k < 5 ==> #[trigger] rev.contains_key((n + k) as usize) {
        Some(Seq::new(5, |k: int| rev[(n + k) as usize]))
    } else {
        None
    }
}

/// A player who acted waits on the next street.
pub open spec fn unact_fn() -> spec_fn(Player) -> Player {
    |p: Player| if p.status == PlayerStatus::Acted {
        Player { status: PlayerStatus::Wait, ..p }
    } else {
        p
    }
}

/// A copy of a sequence of indexes.
fn copy_indexes(v: &Vec<usize>) -> (r: Vec<usize>)
    ensures
        r@ == v@,
{
    let mut out: Vec<usize> = Vec::new();
    let mut i: usize = 0;
    while i < v.len()
        invariant
            i <= v@.len(),
            out@ == v@.take(i as int),
        decreases v@.len() - i,
    {
        out.push(v[i]);
        assert(v@.take(i + 1) =~= v@.take(i as int).push(v@[i as int]));
        i = i + 1;
    }
    assert(v@.take(i as int) =~= v@);
    out
}

/// The five board cards at `n` of the revealed cards, if all are there.
fn read_board(revealed: &BTreeMap<usize, String>, n: usize) -> (r: Option<Vec<String>>)
    requires
        n <= usize::MAX - 5,
    ensures
        board_from(revealed@, n as int) is None ==> r is None,
        board_from(revealed@, n as int) matches Some(b) ==> r matches Some(v) && v@ == b,
{
    let ghost rev = revealed@;
    let mut board: Vec<String> = Vec::new();
    let mut k: usize = 0;
    while k < 5
        invariant
            revealed@ == rev,
            n <= usize::MAX - 5,
            k <= 5,
            board@.len() == k,
            forall|j: int| 0 <= j < k ==> #[trigger] rev.contains_key((n + j) as usize) && board@[j] == rev[(n + j) as usize],
        decreases 5 - k,
    {
        let key: usize = n + k;
        match revealed.get(&key) {
            Some(c) => {
                let ghost before = board@;
                board.push(c.clone());
                proof {
                    assert forall|j: int| 0 <= j < k + 1 implies #[trigger] rev.contains_key((n + j) as usize) && board@[j] == rev[(n + j) as usize] by {
                        if j < k {
                            assert(board@[j] == before[j]);
                        } else {
                            assert((n + j) as usize == key);
                        }
                    }
                }
            },
            None => {
                proof {
                    assert(!rev.contains_key((n + k) as usize));
                }
                return None;
            },
        }
        k = k + 1;
    }
    proof {
        assert(forall|j: int| 0 <= j < 5 ==> #[trigger] rev.contains_key((n + j) as usize));
        let b = Seq::new(5, |j: int| rev[(n + j) as usize]);
        assert(board_from(rev, n as int) == Some(b));
        assert forall|j: int| 0 <= j < 5 implies board@[j] == b[j] by {
            assert(rev.contains_key((n + j) as usize));
        }
        assert(board@ =~= b);
    }
    Some(board)
}

/// A copy of strings.
fn copy_strings(v: &Vec<String>) -> (r: Vec<String>)
    ensures
        r@ == v@,
{
    let mut out: Vec<String> = Vec::new();
    let mut i: usize = 0;
    while i < v.len()
        invariant
            i <= v@.len(),
            out@ == v@.take(i as int),
        decreases v@.len() - i,
    {
        out.push(v[i].clone());
        assert(v@.take(i + 1) =~= v@.take(i as int).push(v@[i as int]));
        i = i + 1;
    }
    assert(v@.take(i as int) =~= v@);
    out
}

impl Holdem {
    /// Make the players who acted wait for the next street.
    fn unact_players(&mut self)
        ensures
            final(self).player_map@ == mapped(old(self).player_map@, unact_fn()),
            *final(self) == (Holdem { player_map: final(self).player_map, ..*old(self) }),
    {
        let ids = crate::keys::sorted_keys(&self.player_map);
        let ghost pm = self.player_map@;
        let mut i: usize = 0;
        while i < ids.len()
            invariant
                ids@.to_set() == pm.dom(),
                crate::keys::strictly_increasing(ids@),
                i <= ids@.len(),
                self.player_map@.dom() == pm.dom(),
                forall|id: u64| #[trigger] self.player_map@.contains_key(id) ==> self.player_map@[id] == if ids@.take(i as int).contains(id) {
                    (unact_fn())(pm[id])
                } else {
                    pm[id]
                },
                *self == (Holdem { player_map: self.player_map, ..*old(self) }),
            decreases ids@.len() - i,
        {
            let id = ids[i];
            assert(ids@.to_set().contains(id));
            assert(!ids@.take(i as int).contains(id)) by {
                if ids@.take(i as int).contains(id) {
                    let t = ids@.take(i as int);
                    let k = choose|k: int| 0 <= k < t.len() && t[k] == id;
                    assert(ids@[k] < ids@[i as int]);
                }
            }
            let mut p = match self.player_map.get(&id) {
                Some(p) => *p,
                None => Player::default(),
            };
            if p.status == PlayerStatus::Acted {
                p.status = PlayerStatus::Wait;
            }
            self.player_map.insert(id, p);
            proof {
                assert forall|x: u64| ids@.take(i + 1).contains(x) <==> (ids@.take(i as int).contains(x) || x == id) by {
                    let t1 = ids@.take(i + 1);
                    let t0 = ids@.take(i as int);
                    if t1.contains(x) {
                        let k = choose|k: int| 0 <= k < t1.len() && t1[k] == x;
                        if k < i {
                            assert(t0[k] == x);
                        }
                    }
                    if t0.contains(x) {
                        let k = choose|k: int| 0 <= k < t0.len() && t0[k] == x;
                        assert(t1[k] == x);
                    }
                    if x == id {
                        assert(t1[i as int] == x);
                    }
                }
            }
            i = i + 1;
        }
        proof {
            assert(ids@.take(i as int) =~= ids@);
            assert forall|id: u64| pm.contains_key(id) implies ids@.contains(id) by {
                assert(ids@.to_set().contains(id));
            }
            assert(self.player_map@ =~= mapped(pm, unact_fn()));
        }
    }

    /// Reveal the community cards of the current street: three on the
    /// flop, one on the turn and one on the river, which come after the
    /// players' hole cards in the deck; after a runner the whole board
    /// is read from the revealed cards.
    pub fn update_board(&mut self, effect: &mut Effect) -> (r: Result<(), GameError>)
        ensures
            same_context(*old(effect), *final(effect)),
            ({
                let n = 2 * ingame_count(*old(self));
                let d = old(self).deck_random_id;
                match old(self).street {
                    Street::Flop => {
                        &&& n + 3 > usize::MAX ==> r == Err::<(), GameError>(GameError::InternalAmountOverflow)
                            && *final(self) == *old(self) && *final(effect) == *old(effect)
                        &&& n + 3 <= usize::MAX ==> r is Ok && *final(self) == (Holdem {
                            stage: HoldemStage::ShareKey,
                            ..*old(self)
                        }) && pushed_reveal(
                            *old(effect),
                            *final(effect),
                            d,
                            seq![n as usize, (n + 1) as usize, (n + 2) as usize],
                        )
                    },
                    Street::Turn => {
                        &&& n + 4 > usize::MAX ==> r == Err::<(), GameError>(GameError::InternalAmountOverflow)
                            && *final(self) == *old(self) && *final(effect) == *old(effect)
                        &&& n + 4 <= usize::MAX ==> r is Ok && *final(self) == (Holdem {
                            stage: HoldemStage::ShareKey,
                            ..*old(self)
                        }) && pushed_reveal(*old(effect), *final(effect), d, seq![(n + 3) as usize])
                    },
                    Street::River => {
                        &&& n + 5 > usize::MAX ==> r == Err::<(), GameError>(GameError::InternalAmountOverflow)
                            && *final(self) == *old(self) && *final(effect) == *old(effect)
                        &&& n + 5 <= usize::MAX ==> r is Ok && *final(self) == (Holdem {
                            stage: HoldemStage::ShareKey,
                            ..*old(self)
                        }) && pushed_reveal(*old(effect), *final(effect), d, seq![(n + 4) as usize])
                    },
                    Street::Showdown => {
                        &&& *final(effect) == *old(effect)
                        &&& n + 5 > usize::MAX ==> r == Err::<(), GameError>(GameError::InternalAmountOverflow)
                            && *final(self) == *old(self)
                        &&& n + 5 <= usize::MAX && board_from(old(effect).revealed@, n) is None ==> r == Err::<
                            (),
                            GameError,
                        >(GameError::InternalFailedToRevealBoard) && *final(self) == *old(self)
                        &&& n + 5 <= usize::MAX ==> (board_from(old(effect).revealed@, n) matches Some(b) ==> {
                            &&& r is Ok
                            &&& final(self).board@ == b
                            &&& final(self).hand_history.board@ == b
                            &&& final(self).hand_history.valid == old(self).hand_history.valid
                            &&& final(self).hand_history.blinds@ == old(self).hand_history.blinds@
                            &&& final(self).hand_history.preflop == old(self).hand_history.preflop
                            &&& final(self).hand_history.flop == old(self).hand_history.flop
                            &&& final(self).hand_history.turn == old(self).hand_history.turn
                            &&& final(self).hand_history.river == old(self).hand_history.river
                            &&& final(self).hand_history.showdowns@ == old(self).hand_history.showdowns@
                            &&& final(self).hand_history.chips_change@ == old(self).hand_history.chips_change@
                            &&& *final(self) == (Holdem {
                                board: final(self).board,
                                hand_history: final(self).hand_history,
                                ..*old(self)
                            })
                        })
                    },
                    _ => {
                        &&& n > usize::MAX ==> r == Err::<(), GameError>(GameError::InternalAmountOverflow)
                        &&& n <= usize::MAX ==> r is Ok
                        &&& *final(self) == *old(self) && *final(effect) == *old(effect)
                    },
                }
            }),
    {
        let cnt = self.count_ingame_players();
        let n = match cnt.checked_mul(2) {
            Some(n) => n,
            None => {
                return Err(GameError::InternalAmountOverflow);
            },
        };
        assert(n == 2 * ingame_count(*self));
        match self.street {
            Street::Flop => {
                if n > usize::MAX - 3 {
                    return Err(GameError::InternalAmountOverflow);
                }
                let mut ix: Vec<usize> = Vec::new();
                ix.push(n);
                ix.push(n + 1);
                ix.push(n + 2);
                assert(ix@ =~= seq![n, (n + 1) as usize, (n + 2) as usize]);
                let ghost e0 = effect.actions@;
                effect.push(EffectAction::Reveal { random_id: self.deck_random_id, indexes: ix });
                assert(effect.actions@.drop_last() =~= e0);
                self.stage = HoldemStage::ShareKey;
                Ok(())
            },
            Street::Turn => {
                if n > usize::MAX - 4 {
                    return Err(GameError::InternalAmountOverflow);
                }
                let mut ix: Vec<usize> = Vec::new();
                ix.push(n + 3);
                assert(ix@ =~= seq![(n + 3) as usize]);
                let ghost e0 = effect.actions@;
                effect.push(EffectAction::Reveal { random_id: self.deck_random_id, indexes: ix });
                assert(effect.actions@.drop_last() =~= e0);
                self.stage = HoldemStage::ShareKey;
                Ok(())
            },
            Street::River => {
                if n > usize::MAX - 5 {
                    return Err(GameError::InternalAmountOverflow);
                }
                let mut ix: Vec<usize> = Vec::new();
                ix.push(n + 4);
                assert(ix@ =~= seq![(n + 4) as usize]);
                let ghost e0 = effect.actions@;
                effect.push(EffectAction::Reveal { random_id: self.deck_random_id, indexes: ix });
                assert(effect.actions@.drop_last() =~= e0);
                self.stage = HoldemStage::ShareKey;
                Ok(())
            },
            Street::Showdown => {
                if n > usize::MAX - 5 {
                    return Err(GameError::InternalAmountOverflow);
                }
                let revealed = match effect.get_revealed(self.deck_random_id) {
                    Ok(m) => m,
                    Err(e) => {
                        return Err(e);
                    },
                };
                let board = match read_board(revealed, n) {
                    Some(b) => b,
                    None => {
                        return Err(GameError::InternalFailedToRevealBoard);
                    },
                };
                let copy = crate::handler::copy_strings(&board);
                self.board = board;
                self.hand_history.set_board(copy);
                Ok(())
            },
            _ => Ok(()),
        }
    }

    /// Move to a new street: players who acted wait again, the bets go
    /// into the pots, the street bet and the acting player are cleared,
    /// the minimum raise is one big blind, and the street's cards are
    /// revealed.
    pub fn change_street(&mut self, effect: &mut Effect, new_street: Street) -> (r: Result<(), GameError>)
        ensures
            same_context(*old(effect), *final(effect)),
            r is Ok ==> {
                &&& same_config(*old(self), *final(self))
                &&& final(self).street == new_street
                &&& final(self).acting_player is None
                &&& final(self).street_bet == 0
                &&& final(self).min_raise == old(self).bb
                &&& final(self).bet_map@ == Map::<u64, u64>::empty()
                &&& final(self).stage == (if new_street == Street::Flop || new_street == Street::Turn
                    || new_street == Street::River {
                    HoldemStage::ShareKey
                } else {
                    old(self).stage
                })
            },
            exists|hu: Holdem| #[trigger] street_change_ends(*old(self), hu, old(effect).revealed@, new_street, r) && (r is Ok
                ==> pot_views(final(self).pots@) == merge_pots(
                retain_owners(pot_views(hu.pots@), unfolded_ids(hu.player_map@)),
                collect_run(hu).pots,
            )->0),
    {
        let ghost h0 = *self;
        self.unact_players();
        let ghost hu = *self;
        match self.collect_bets() {
            Ok(()) => {},
            Err(e) => {
                assert(street_change_ends(h0, hu, effect.revealed@, new_street, Err(e)));
                return Err(e);
            },
        }
        self.street = new_street;
        self.min_raise = self.bb;
        self.street_bet = 0;
        self.acting_player = None;
        let ghost hb = *self;
        assert(hb.player_map@ == collect_run(hu).players);
        assert(2 * ingame_count(hb) == 2 * (key_seq(hb.player_map@).filter(ingame_pred(hb.player_map@)).len() as int));
        let res = self.update_board(effect);
        proof {
            let e = board_update_error(hb.player_map@, new_street, old(effect).revealed@);
            assert(e matches Some(x) ==> res == Err::<(), GameError>(x));
            assert(e is None ==> res is Ok);
            assert(street_change_ends(h0, hu, old(effect).revealed@, new_street, res));
        }
        res
    }
}


/// Why using up the acting player's time card fails, if it does: there is
/// no acting player, or its clock has run out on a time card and the
/// player is missing or has no time card left.
pub open spec fn time_card_use_error(h: Holdem, e: Effect) -> Option<GameError> {
    match h.acting_player {
        None => Some(GameError::InternalCannotFindActionPlayer),
        Some(a) => if a.time_card_clock is Some && e.timestamp > a.clock {
            if !h.player_map@.contains_key(a.id) {
                Some(GameError::InternalPlayerNotFound)
            } else if h.player_map@[a.id].time_cards == 0 {
                Some(GameError::InternalAmountOverflow)
            } else {
                None
            }
        } else {
            None
        },
    }
}

/// `ha` is `h0` with `action` recorded in its hand history for the current street.
pub open spec fn action_recorded(h0: Holdem, action: PlayerAction, ha: Holdem) -> bool {
    &&& action_added(h0.hand_history, ha.hand_history, h0.street, action)
    &&& ha == (Holdem { hand_history: ha.hand_history, ..h0 })
}

/// The hole card indexes to reveal for the players `ids` in order: those
/// of the players who acted or are all in.
pub open spec fn reveal_list(h: Holdem, ids: Seq<u64>) -> Seq<Seq<usize>>
    decreases ids.len(),
{
    if ids.len() == 0 {
        Seq::empty()
    } else {
        let id = ids.last();
        let prev = reveal_list(h, ids.drop_last());
        if h.player_map@.contains_key(id) && (h.player_map@[id].status == PlayerStatus::Acted
            || h.player_map@[id].status == PlayerStatus::Allin) {
            prev.push(h.hand_index_map@[id]@)
        } else {
            prev
        }
    }
}

/// `e1` is `e0` with one reveal of the deck of `h` for each entry of
/// `reveal_list(h, ids)`, in order.
pub open spec fn reveals_pushed(h: Holdem, e0: Effect, e1: Effect, ids: Seq<u64>) -> bool {
    let rs = reveal_list(h, ids);
    let n0 = e0.actions@.len() as int;
    &&& e1.actions@.len() == n0 + rs.len()
    &&& forall|k: int|
        0 <= k < rs.len() ==> (#[trigger] e1.actions@[n0 + k] matches EffectAction::Reveal { random_id, indexes }
            && random_id == h.deck_random_id && indexes@ == rs[k])
}

/// Why updating the board for `street`, with the players `pm`, fails, if
/// it does: the indexes of the cards to reveal do not fit, or at the
/// showdown the board cards are not all revealed.
pub open spec fn board_update_error(pm: Map<u64, Player>, street: Street, rv: Map<usize, String>) -> Option<GameError> {
    let n: int = 2 * (key_seq(pm).filter(ingame_pred(pm)).len() as int);
    match street {
        Street::Flop => if n + 3 > usize::MAX { Some(GameError::InternalAmountOverflow) } else { None },
        Street::Turn => if n + 4 > usize::MAX { Some(GameError::InternalAmountOverflow) } else { None },
        Street::River => if n + 5 > usize::MAX { Some(GameError::InternalAmountOverflow) } else { None },
        Street::Showdown => if n + 5 > usize::MAX {
            Some(GameError::InternalAmountOverflow)
        } else if board_from(rv, n) is None {
            Some(GameError::InternalFailedToRevealBoard)
        } else {
            None
        },
        _ => if n > usize::MAX { Some(GameError::InternalAmountOverflow) } else { None },
    }
}

/// How changing to `new_street` from `h0` ends, where `hu` is `h0` with
/// the players' acts cleared: collecting the bets may fail, and then
/// updating the board for the new street may fail.
pub open spec fn street_change_ends(h0: Holdem, hu: Holdem, rv: Map<usize, String>, new_street: Street, r: Result<(), GameError>) -> bool {
    let st = collect_run(hu);
    let merged = merge_pots(retain_owners(pot_views(hu.pots@), unfolded_ids(hu.player_map@)), st.pots);
    &&& r is Ok ==> merged is Some
    &&& hu.player_map@ == mapped(h0.player_map@, unact_fn())
    &&& hu == (Holdem { player_map: hu.player_map, ..h0 })
    &&& st.err matches Some(e) ==> r == Err::<(), GameError>(e)
    &&& (st.err is None && merged is None) ==> r == Err::<(), GameError>(GameError::InternalAmountOverflow)
    &&& (st.err is None && merged is Some) ==> {
        &&& board_update_error(st.players, new_street, rv) matches Some(e) ==> r == Err::<(), GameError>(e)
        &&& board_update_error(st.players, new_street, rv) is None ==> r is Ok
    }
}

/// The position from which the order of play starts: the acting player's,
/// or the button's.
pub open spec fn ref_position(h: Holdem) -> usize {
    match h.acting_player {
        Some(a) => a.position as usize,
        None => h.btn,
    }
}

/// The players still in the hand.
pub open spec fn stays_pred(pm: Map<u64, Player>) -> spec_fn(u64) -> bool {
    |id: u64| pm.contains_key(id) && (pm[id].status == PlayerStatus::Acting || pm[id].status == PlayerStatus::Wait
        || pm[id].status == PlayerStatus::Acted || pm[id].status == PlayerStatus::Allin)
}

/// The players who may still act.
pub open spec fn acts_pred(pm: Map<u64, Player>) -> spec_fn(u64) -> bool {
    |id: u64| pm.contains_key(id) && (pm[id].status == PlayerStatus::Wait || pm[id].status == PlayerStatus::Acted)
}

/// The players all in.
pub open spec fn allin_pred(pm: Map<u64, Player>) -> spec_fn(u64) -> bool {
    |id: u64| pm.contains_key(id) && pm[id].status == PlayerStatus::Allin
}

/// The street after `s`.
pub open spec fn street_after(s: Street) -> Street {
    match s {
        Street::Init => Street::Preflop,
        Street::Preflop => Street::Flop,
        Street::Flop => Street::Turn,
        Street::Turn => Street::River,
        _ => Street::Showdown,
    }
}

/// What the game does next.
pub enum Step {
    /// one player is left in the game: they win
    LastInGame(u64),
    /// all others folded: the one left wins
    LastStanding(u64),
    /// the hand starts with the blinds
    Blinds,
    /// a player has to act
    Ask(u64),
    /// all but at most one are all in: run the board out
    Runner,
    /// the street is over
    NextStreet(Street),
    /// the river is over
    Showdown,
}

/// The next step of a hand state, from the players in the order of play.
pub open spec fn next_step(h: Holdem) -> Step {
    let pm = h.player_map@;
    let o = arranged_order(pm, ref_position(h));
    let stay = o.filter(stays_pred(pm));
    let act = o.filter(acts_pred(pm));
    let allin = o.filter(allin_pred(pm));
    if o.len() == 1 {
        Step::LastInGame(o[0])
    } else if stay.len() == 1 {
        Step::LastStanding(stay[0])
    } else if h.street == Street::Preflop && h.bet_map@.is_empty() {
        Step::Blinds
    } else if first_needing(h, act, 0) is Some {
        Step::Ask(first_needing(h, act, 0)->0)
    } else if h.stage != HoldemStage::Runner && allin.len() + 1 >= stay.len() {
        Step::Runner
    } else if street_after(h.street) != Street::Showdown {
        Step::NextStreet(street_after(h.street))
    } else {
        Step::Showdown
    }
}

/// The ids of `o` kept by `p`, in order.
fn filter_ids(o: &Vec<u64>, pm: &BTreeMap<u64, Player>, which: u8) -> (r: Vec<u64>)
    requires
        which < 3,
    ensures
        which == 0 ==> r@ == o@.filter(stays_pred(pm@)),
        which == 1 ==> r@ == o@.filter(acts_pred(pm@)),
        which == 2 ==> r@ == o@.filter(allin_pred(pm@)),
{
    let ghost p = if which == 0 {
        stays_pred(pm@)
    } else if which == 1 {
        acts_pred(pm@)
    } else {
        allin_pred(pm@)
    };
    let mut out: Vec<u64> = Vec::new();
    let mut i: usize = 0;
    while i < o.len()
        invariant
            which < 3,
            p == (if which == 0 {
                stays_pred(pm@)
            } else if which == 1 {
                acts_pred(pm@)
            } else {
                allin_pred(pm@)
            }),
            i <= o@.len(),
            out@ == o@.take(i as int).filter(p),
        decreases o@.len() - i,
    {
        proof {
            crate::holdem_evaluator::lemma_filter_take_step(o@, p, i as int);
        }
        let id = o[i];
        let keep = match pm.get(&id) {
            Some(pl) => {
                if which == 0 {
                    pl.status == PlayerStatus::Acting || pl.status == PlayerStatus::Wait || pl.status
                        == PlayerStatus::Acted || pl.status == PlayerStatus::Allin
                } else if which == 1 {
                    pl.status == PlayerStatus::Wait || pl.status == PlayerStatus::Acted
                } else {
                    pl.status == PlayerStatus::Allin
                }
            },
            None => false,
        };
        if keep {
            out.push(id);
        }
        i = i + 1;
    }
    assert(o@.take(i as int) =~= o@);
    out
}

impl Holdem {
    /// The pots' total; an error when it leaves `u64`.
    fn total_pot(&self) -> (r: Result<u64, GameError>)
        ensures
            crate::essential::pots_total(pot_views(self.pots@)) <= u64::MAX ==> r == Ok::<u64, GameError>(
                crate::essential::pots_total(pot_views(self.pots@)) as u64,
            ),
            crate::essential::pots_total(pot_views(self.pots@)) > u64::MAX ==> r == Err::<u64, GameError>(
                GameError::InternalAmountOverflow,
            ),
    {
        let ghost ps = pot_views(self.pots@);
        let mut total: u64 = 0;
        let mut i: usize = 0;
        while i < self.pots.len()
            invariant
                ps == pot_views(self.pots@),
                i <= ps.len(),
                total == crate::essential::pots_total(ps.take(i as int)),
            decreases ps.len() - i,
        {
            assert(ps.take(i + 1).drop_last() =~= ps.take(i as int));
            assert(ps.take(i + 1).last() == self.pots@[i as int]@);
            let amount = self.pots[i].amount;
            if amount > u64::MAX - total {
                proof {
                    lemma_pots_total_prefix(ps, i + 1);
                }
                return Err(GameError::InternalAmountOverflow);
            }
            total = total + amount;
            i = i + 1;
        }
        assert(ps.take(i as int) =~= ps);
        Ok(total)
    }

    /// Reveal the hole cards of the players who acted or went all in.
    fn reveal_hole_cards(&self, effect: &mut Effect) -> (r: Result<(), GameError>)
        ensures
            same_context(*old(effect), *final(effect)),
            final(effect).actions@.len() >= old(effect).actions@.len(),
            final(effect).actions@.take(old(effect).actions@.len() as int) == old(effect).actions@,
            r is Ok <==> forall|id: u64| #[trigger] self.hand_index_map@.contains_key(id) ==> self.player_map@.contains_key(id),
            r is Err ==> r == Err::<(), GameError>(GameError::InternalPlayerNotInGameButAssignedCards),
            r is Ok ==> reveals_pushed(*self, *old(effect), *final(effect), key_seq(self.hand_index_map@)),
    {
        let ids = crate::keys::sorted_keys(&self.hand_index_map);
        let mut i: usize = 0;
        while i < ids.len()
            invariant
                same_context(*old(effect), *effect),
                effect.actions@.len() >= old(effect).actions@.len(),
                effect.actions@.take(old(effect).actions@.len() as int) == old(effect).actions@,
                i <= ids@.len(),
                ids@ == key_seq(self.hand_index_map@),
                ids@.to_set() == self.hand_index_map@.dom(),
                forall|k: int| 0 <= k < i ==> self.player_map@.contains_key(#[trigger] ids@[k]),
                reveals_pushed(*self, *old(effect), *effect, ids@.take(i as int)),
            decreases ids@.len() - i,
        {
            let id = ids[i];
            proof {
                assert(ids@.take(i + 1).drop_last() =~= ids@.take(i as int));
                assert(ids@.to_set().contains(id));
            }
            let p = match self.player_map.get(&id) {
                Some(p) => *p,
                None => {
                    return Err(GameError::InternalPlayerNotInGameButAssignedCards);
                },
            };
            if p.status == PlayerStatus::Acted || p.status == PlayerStatus::Allin {
                match self.hand_index_map.get(&id) {
                    Some(idxs) => {
                        let ix = copy_indexes(idxs);
                        let ghost before = effect.actions@;
                        effect.push(EffectAction::Reveal { random_id: self.deck_random_id, indexes: ix });
                        assert(effect.actions@.take(old(effect).actions@.len() as int) =~= before.take(old(effect).actions@.len() as int));
                        proof {
                            let rs = reveal_list(*self, ids@.take(i + 1));
                            let rs0 = reveal_list(*self, ids@.take(i as int));
                            assert(rs == rs0.push(self.hand_index_map@[id]@));
                        }
                    },
                    None => {},
                }
            } else {
                proof {
                    assert(reveal_list(*self, ids@.take(i + 1)) == reveal_list(*self, ids@.take(i as int)));
                }
            }
            i = i + 1;
        }
        proof {
            assert(ids@.take(ids@.len() as int) =~= ids@);
            assert forall|id: u64| #[trigger] self.hand_index_map@.contains_key(id) implies self.player_map@.contains_key(id) by {
                assert(ids@.to_set().contains(id));
                let k = choose|k: int| 0 <= k < ids@.len() && ids@[k] == id;
                assert(self.player_map@.contains_key(ids@[k]));
            }
        }
        Ok(())
    }

    /// A single player wins all the pots: collect the bets, award the pots,
    /// settle the prizes, show the result, and wait for the players to see it.
    pub fn single_player_win(&mut self, effect: &mut Effect, winner: u64) -> (r: Result<(), GameError>)
        ensures
            same_context(*old(effect), *final(effect)),
            r is Ok ==> {
                &&& same_config(*old(self), *final(self))
                &&& final(self).stage == old(self).stage
                &&& final(self).street == old(self).street
                &&& final(self).acting_player == old(self).acting_player
                &&& final(self).street_bet == old(self).street_bet
                &&& final(self).min_raise == old(self).min_raise
                &&& final(self).bet_map@ == Map::<u64, u64>::empty()
                &&& final(self).hand_history.valid
                &&& ends_with_wait(*old(effect), *final(effect))
            },
            single_win_ends(*old(self), *old(effect), winner, r, *final(self), *final(effect)),
    {
        let ghost h0 = *self;
        let ghost e0 = *effect;
        match self.collect_bets() {
            Ok(()) => {},
            Err(e) => {
                return Err(e);
            },
        }
        let ghost hc = *self;
        let mut w: Vec<u64> = Vec::new();
        w.push(winner);
        let mut sets: Vec<Vec<u64>> = Vec::new();
        sets.push(w);
        let ghost sv = set_views(sets@);
        proof {
            assert(sv =~= seq![seq![winner]]);
        }
        let award_pots = match self.assign_winners(sets) {
            Ok(a) => a,
            Err(e) => {
                return Err(e);
            },
        };
        let ghost h1 = *self;
        proof {
            let ps = pot_views(self.pots@);
            assert forall|i: int| 0 <= i < ps.len() implies (#[trigger] ps[i]).winners.len() > 0 by {}
            assert(winners_assigned(hc, sv, h1));
        }
        match self.calc_prize() {
            Ok(()) => {},
            Err(e) => {
                proof {
                    assert(prize_error(h1) == Some(e));
                    assert(settle_ends(hc, sv, e0, Err(e), *self, *effect));
                }
                return Err(e);
            },
        }
        let ghost h2 = *self;
        proof {
            assert(prize_error(h1) is None);
            assert(prizes_calculated(h1, h2));
        }
        let results = match self.update_player_chips() {
            Ok(m) => m,
            Err(e) => {
                proof {
                    assert(settle_ends(hc, sv, e0, Err(e), *self, *effect));
                }
                return Err(e);
            },
        };
        let ghost h3 = *self;
        self.display.push(Display::GameResult { award_pots, player_map: results });
        let ghost h4 = *self;
        proof {
            assert(h4.display@.drop_last() =~= h3.display@);
            assert(chips_updated(h2, h3));
            assert(result_shown(hc, sv, h2, h3, h4));
        }
        match self.apply_prize() {
            Ok(()) => {},
            Err(e) => {
                proof {
                    assert(payout_ends(h4, e0, Err(e), *self, *effect));
                    assert(settle_ends(hc, sv, e0, Err(e), *self, *effect));
                }
                return Err(e);
            },
        }
        let ghost h5 = *self;
        self.mark_eliminated_players();
        self.hand_history.valid = true;
        let ghost h6 = *self;
        proof {
            assert(prize_applied(h4, h5));
            assert(closed_hand(h5, h6));
        }
        let timeout = match self.calc_pre_settle_timeout() {
            Ok(t) => t,
            Err(e) => {
                proof {
                    assert(settle_waited(h6, e0, Err(e), *self, *effect));
                    assert(payout_ends(h4, e0, Err(e), *self, *effect));
                    assert(settle_ends(hc, sv, e0, Err(e), *self, *effect));
                }
                return Err(e);
            },
        };
        if timeout > u64::MAX - effect.timestamp() {
            proof {
                let r = Err::<(), GameError>(GameError::InternalAmountOverflow);
                assert(settle_waited(h6, e0, r, *self, *effect));
                assert(payout_ends(h4, e0, r, *self, *effect));
                assert(settle_ends(hc, sv, e0, r, *self, *effect));
            }
            return Err(GameError::InternalAmountOverflow);
        }
        self.wait_timeout(effect, timeout);
        proof {
            let r = Ok::<(), GameError>(());
            assert(settle_waited(h6, e0, r, *self, *effect));
            assert(payout_ends(h4, e0, r, *self, *effect));
            assert(settle_ends(hc, sv, e0, r, *self, *effect));
            assert(single_win_ends(h0, e0, winner, r, *self, *effect));
        }
        Ok(())
    }
}

/// Why calculating the prizes of `h` fails, if it does.
pub open spec fn prize_error(h: Holdem) -> Option<GameError> {
    let ps = pot_views(h.pots@);
    if prizes_overflow(ps) {
        Some(GameError::InternalAmountOverflow)
    } else {
        match remainder_id(h) {
            None => Some(GameError::InternalPlayerNotFound),
            Some(rp) => if prize_sum(ps, rp) + odd_sum(ps) > u64::MAX {
                Some(GameError::InternalAmountOverflow)
            } else {
                None
            },
        }
    }
}

/// `h6` is `h5` with the players out of chips eliminated and the hand
/// history made valid.
pub open spec fn closed_hand(h5: Holdem, h6: Holdem) -> bool {
    &&& h6.player_map@ == mapped(h5.player_map@, eliminate_fn())
    &&& h6.hand_history == (crate::hand_history::HandHistory { valid: true, ..h5.hand_history })
    &&& h6 == (Holdem { player_map: h6.player_map, hand_history: h6.hand_history, ..h5 })
}

/// Paying out from the prizes of `h4` on: the prizes are applied, the hand
/// closed, and the game waits as after a settlement.
pub open spec fn payout_ends(h4: Holdem, e0: Effect, r: Result<(), GameError>, hf: Holdem, ef: Effect) -> bool {
    if prize_overflows(h4.player_map@, h4.prize_map@) {
        r == Err::<(), GameError>(GameError::InternalAmountOverflow)
    } else {
        exists|h5: Holdem, h6: Holdem|
            #![trigger prize_applied(h4, h5), closed_hand(h5, h6)]
            prize_applied(h4, h5) && closed_hand(h5, h6) && settle_waited(h6, e0, r, hf, ef) && (r is Ok ==> hf == (
            Holdem { next_game_start: hf.next_game_start, ..h6 }))
    }
}

/// Settling the collected pots of `h` among the winner sets `sv`: the pots
/// are awarded, the prizes calculated, the chips updated, the result shown,
/// and then the payout; each step may fail.
pub open spec fn settle_ends(h: Holdem, sv: Seq<Seq<u64>>, e0: Effect, r: Result<(), GameError>, hf: Holdem, ef: Effect) -> bool {
    let ps = pot_views(h.pots@);
    if exists|i: int| 0 <= i < ps.len() && (#[trigger] awarded(ps[i], sv)).winners.len() == 0 {
        r == Err::<(), GameError>(GameError::PotWinnerMissing)
    } else {
        exists|h1: Holdem|
            #[trigger] winners_assigned(h, sv, h1) && match prize_error(h1) {
                Some(e) => r == Err::<(), GameError>(e),
                None => exists|h2: Holdem|
                    #[trigger] prizes_calculated(h1, h2) && if delta_fails(h2) {
                        r == Err::<(), GameError>(GameError::InternalAmountOverflow)
                    } else {
                        exists|h3: Holdem, h4: Holdem|
                            #![trigger chips_updated(h2, h3), result_shown(h, sv, h2, h3, h4)]
                            chips_updated(h2, h3) && result_shown(h, sv, h2, h3, h4) && payout_ends(h4, e0, r, hf, ef)
                    },
            }
    }
}

/// Settling a showdown's pots among the winner sets `sv` from `h`: the
/// pots are awarded, the prizes calculated, the chips updated, the result
/// shown and the prizes applied, then the hand closed with the showdowns of
/// `list` recorded; each step may fail.
pub open spec fn game_result_ends(h: Holdem, sv: Seq<Seq<u64>>, list: Seq<(u64, Seq<Seq<char>>)>, r: Result<(), GameError>, hf: Holdem) -> bool {
    let ps = pot_views(h.pots@);
    if exists|i: int| 0 <= i < ps.len() && (#[trigger] awarded(ps[i], sv)).winners.len() == 0 {
        r == Err::<(), GameError>(GameError::PotWinnerMissing)
    } else {
        exists|h1: Holdem|
            #[trigger] winners_assigned(h, sv, h1) && match prize_error(h1) {
                Some(e) => r == Err::<(), GameError>(e),
                None => exists|h2: Holdem|
                    #[trigger] prizes_calculated(h1, h2) && if delta_fails(h2) {
                        r == Err::<(), GameError>(GameError::InternalAmountOverflow)
                    } else {
                        exists|h3: Holdem, h4: Holdem|
                            #![trigger chips_updated(h2, h3), result_shown(h, sv, h2, h3, h4)]
                            chips_updated(h2, h3) && result_shown(h, sv, h2, h3, h4) && if prize_overflows(
                                h4.player_map@,
                                h4.prize_map@,
                            ) {
                                r == Err::<(), GameError>(GameError::InternalAmountOverflow)
                            } else {
                                r is Ok && exists|h5: Holdem|
                                    #[trigger] prize_applied(h4, h5) && showdown_recorded(h5, list, hf)
                            }
                    },
            }
    }
}

/// A single player wins: the bets are collected and the pots settled with
/// that player as the only winner.
pub open spec fn single_win_ends(h0: Holdem, e0: Effect, winner: u64, r: Result<(), GameError>, hf: Holdem, ef: Effect) -> bool {
    match collect_error(h0) {
        Some(e) => r == Err::<(), GameError>(e),
        None => exists|hc: Holdem| #[trigger] bets_collected(h0, hc) && settle_ends(hc, seq![seq![winner]], e0, r, hf, ef),
    }
}

/// The effect got commands, the last of which is a wait.
pub open spec fn ends_with_wait(e0: Effect, e1: Effect) -> bool {
    &&& e1.actions@.len() > e0.actions@.len()
    &&& e1.actions@.last() is WaitTimeout
}

proof fn lemma_pots_total_prefix(ps: Seq<PotView>, i: int)
    requires
        0 <= i <= ps.len(),
    ensures
        crate::essential::pots_total(ps.take(i)) <= crate::essential::pots_total(ps),
    decreases ps.len() - i,
{
    if i < ps.len() {
        assert(ps.take(i + 1).drop_last() =~= ps.take(i));
        lemma_pots_total_prefix(ps, i + 1);
    } else {
        assert(ps.take(i) =~= ps);
    }
}


/// The measure by which the blinds and the next state call each other:
/// the blinds are due only while no bet is on the preflop.
pub open spec fn blinds_due(h: Holdem) -> nat {
    if h.street == Street::Preflop && h.bet_map@.is_empty() {
        2
    } else {
        0
    }
}

/// What the step leaves of the game when it succeeds.
pub open spec fn step_done(h0: Holdem, h1: Holdem, step: Step) -> bool {
    match step {
        Step::LastInGame(_) | Step::LastStanding(_) => {
            &&& h1.stage == HoldemStage::Settle
            &&& h1.acting_player is None
            &&& h1.hand_history.valid
        },
        Step::Blinds => {
            &&& h1.street_bet == h0.bb
            &&& h1.min_raise == h0.bb
            &&& h1.display@.len() > 0 && h1.display@.last() == Display::DealCards
        },
        Step::Ask(id) => {
            &&& h1.acting_player matches Some(a) && a.id == h0.player_map@[id].id
            &&& h1.player_map@.contains_key(id) && h1.player_map@[id].status == PlayerStatus::Acting
        },
        Step::Runner => {
            &&& h1.street == Street::Showdown
            &&& h1.stage == HoldemStage::Runner
            &&& h1.acting_player is None
            &&& h1.bet_map@.is_empty()
        },
        Step::NextStreet(s) => {
            &&& h1.street == s
            &&& h1.acting_player is None
            &&& h1.street_bet == 0
            &&& h1.min_raise == h0.bb
            &&& h1.bet_map@.is_empty()
        },
        Step::Showdown => {
            &&& h1.street == Street::Showdown
            &&& h1.stage == HoldemStage::Showdown
            &&& h1.acting_player is None
            &&& h1.bet_map@.is_empty()
        },
    }
}

/// `ha` is `h0` with the order of play arranged from the reference position.
pub open spec fn arranged_state(h0: Holdem, ha: Holdem) -> bool {
    &&& ha.player_order@ == arranged_order(h0.player_map@, ref_position(h0))
    &&& ha == (Holdem { player_order: ha.player_order, ..h0 })
}

/// `hs` is `h0`, with its order of play arranged, at the stage `stage`
/// and street `street` with the end of the game signalled; `es` is `e0`
/// with the pending dispatch cancelled.
pub open spec fn game_end_signalled(h0: Holdem, e0: Effect, stage: HoldemStage, street: Street, hs: Holdem, es: Effect) -> bool {
    &&& hs.player_order@ == arranged_order(h0.player_map@, ref_position(h0))
    &&& hs == (Holdem {
        player_order: hs.player_order,
        stage,
        street,
        street_bet: 0,
        min_raise: 0,
        acting_player: None,
        ..h0
    })
    &&& es.actions@ == e0.actions@.push(EffectAction::CancelDispatch)
    &&& same_context(e0, es)
}

/// Why asking player `id` of `h` to act fails, if it does: the player is
/// missing, or the end of its time does not fit.
pub open spec fn ask_error(h: Holdem, e: Effect, id: u64) -> Option<GameError> {
    if !h.player_map@.contains_key(id) {
        Some(GameError::NextActionPlayerMissing)
    } else {
        let p = h.player_map@[id];
        let timeout: int = if p.is_afk { ACTION_TIMEOUT_AFK as int } else { action_time(h) as int };
        let plain = p.is_afk || p.time_cards == 0 || (h.street == Street::Preflop && p.status == PlayerStatus::Wait);
        let end: int = e.timestamp + timeout + if plain { 0 } else { TIME_CARD_EXTRA_SECS * 1000 };
        if end > u64::MAX {
            Some(GameError::InternalAmountOverflow)
        } else {
            None
        }
    }
}

/// `ha` is `h0` with the antes taken, as the run `st` of taking them gives.
#[verifier::opaque]
pub open spec fn antes_taken(h0: Holdem, st: AnteRun, ha: Holdem) -> bool {
    &&& ha.player_map@ == st.players
    &&& ha.bet_map@ == st.bets
    &&& ha.total_bet_map@ == st.totals
    &&& ha.hand_history.blinds@ == h0.hand_history.blinds@ + st.blinds
    &&& ha.hand_history.valid == h0.hand_history.valid
    &&& ha.hand_history.board@ == h0.hand_history.board@
    &&& ha.hand_history.preflop == h0.hand_history.preflop
    &&& ha.hand_history.flop == h0.hand_history.flop
    &&& ha.hand_history.turn == h0.hand_history.turn
    &&& ha.hand_history.river == h0.hand_history.river
    &&& ha.hand_history.showdowns@ == h0.hand_history.showdowns@
    &&& ha.hand_history.chips_change@ == h0.hand_history.chips_change@
    &&& ha == (Holdem {
        player_map: ha.player_map,
        bet_map: ha.bet_map,
        total_bet_map: ha.total_bet_map,
        hand_history: ha.hand_history,
        ..h0
    })
}

/// Why taking a bet from player `id` of `h` fails, if it does.
pub open spec fn take_error(h: Holdem, id: u64) -> Option<GameError> {
    if !h.player_map@.contains_key(id) {
        Some(GameError::InvalidPlayer)
    } else if !bet_fits(h, id) {
        Some(GameError::InternalAmountOverflow)
    } else {
        None
    }
}

/// What a blind of `amount` takes from player `id` of `h`: all its chips
/// when it has no more.
pub open spec fn blind_taken_amount(h: Holdem, id: u64, amount: u64) -> u64 {
    if amount < h.player_map@[id].chips { amount } else { h.player_map@[id].chips }
}

/// `h1` is `h` with a blind of `amount` taken from player `id`, who is all
/// in when the blind takes all its chips.
#[verifier::opaque]
pub open spec fn blind_taken(h: Holdem, id: u64, amount: u64, h1: Holdem) -> bool {
    let p = h.player_map@[id];
    let taken = blind_taken_amount(h, id, amount);
    &&& h1.player_map@ == h.player_map@.insert(
        id,
        Player {
            chips: (p.chips - taken) as u64,
            status: if amount >= p.chips { PlayerStatus::Allin } else { p.status },
            ..p
        },
    )
    &&& h1.bet_map@ == h.bet_map@.insert(id, (bet_of(h.bet_map@, id) + taken) as u64)
    &&& h1.total_bet_map@ == h.total_bet_map@.insert(id, (bet_of(h.total_bet_map@, id) + taken) as u64)
    &&& h1 == (Holdem { player_map: h1.player_map, bet_map: h1.bet_map, total_bet_map: h1.total_bet_map, ..h })
}

/// `hr` is `h` with the two blinds recorded in the hand history, the
/// preflop pot set to `pot`, and the order of play rotated past the blinds.
#[verifier::opaque]
pub open spec fn blinds_recorded(h: Holdem, sb: BlindBet, bb: BlindBet, pot: u64, hr: Holdem) -> bool {
    let n = h.player_order@.len();
    let k: int = if n == 2 { 1 } else { 2 };
    &&& hr.player_order@ == h.player_order@.skip(k) + h.player_order@.take(k)
    &&& hr.hand_history.blinds@ == h.hand_history.blinds@.push(sb).push(bb)
    &&& hr.hand_history.preflop.pot == pot
    &&& hr.hand_history.preflop.actions@ == h.hand_history.preflop.actions@
    &&& hr.hand_history.flop.actions@ == h.hand_history.flop.actions@
    &&& hr.hand_history.flop.pot == h.hand_history.flop.pot
    &&& hr.hand_history.turn.actions@ == h.hand_history.turn.actions@
    &&& hr.hand_history.turn.pot == h.hand_history.turn.pot
    &&& hr.hand_history.river.actions@ == h.hand_history.river.actions@
    &&& hr.hand_history.river.pot == h.hand_history.river.pot
    &&& hr.hand_history.valid == h.hand_history.valid
    &&& hr.hand_history.board@ == h.hand_history.board@
    &&& hr.hand_history.showdowns@ == h.hand_history.showdowns@
    &&& hr.hand_history.chips_change@ == h.hand_history.chips_change@
    &&& hr == (Holdem { player_order: hr.player_order, hand_history: hr.hand_history, ..h })
}

/// Taking the blinds from `hb` ends taking the antes and the blinds of
/// `h0` alike, when `hb` is `h0` with its antes taken and collected.
proof fn lemma_blinds_ends(h0: Holdem, e0: Effect, r: Result<(), GameError>, ha: Holdem, hb: Holdem)
    requires
        h0.ante == 0 ==> hb == h0,
        h0.ante > 0 ==> {
            let st = ante_run(ante_start(h0), h0.ante, h0.player_order@);
            &&& st.err is None
            &&& antes_taken(h0, st, ha)
            &&& collect_error(ha) is None
            &&& bets_collected(ha, hb)
        },
        blinds_from(hb, if h0.ante > 0 { (ante_run(ante_start(h0), h0.ante, h0.player_order@).total as u64) as int } else { 0 }, e0, r),
    ensures
        blinds_ends(h0, e0, r),
{
    reveal(blinds_ends);
}

/// The small blind: the second of two players, else the first.
pub open spec fn sb_player(h: Holdem) -> u64 {
    if h.player_order@.len() == 2 { h.player_order@[1] } else { h.player_order@[0] }
}

/// The big blind: the first of two players, else the second.
pub open spec fn bb_player(h: Holdem) -> u64 {
    if h.player_order@.len() == 2 { h.player_order@[0] } else { h.player_order@[1] }
}

/// `hr` is `hbb` with the small blind of `sb_id` (taken from `hb`) and the
/// big blind of `bb_id` (taken from `hs`) recorded with the pot and the
/// order of play rotated.
#[verifier::opaque]
pub open spec fn blinds_of_recorded(hb: Holdem, hs: Holdem, hbb: Holdem, sb_id: u64, bb_id: u64, ante_total: int, hr: Holdem) -> bool {
    let real_sb = blind_taken_amount(hb, sb_id, hb.sb);
    let real_bb = blind_taken_amount(hs, bb_id, hb.bb);
    blinds_recorded(
        hbb,
        BlindBet { id: sb_id, blind_type: BlindType::Sb, amount: real_sb, is_allin: hb.sb >= hb.player_map@[sb_id].chips },
        BlindBet { id: bb_id, blind_type: BlindType::Bb, amount: real_bb, is_allin: hb.bb >= hs.player_map@[bb_id].chips },
        (ante_total + real_sb + real_bb) as u64,
        hr,
    )
}

/// After the blinds: the first player who can act is asked to, or, when
/// none can, the game moves on.
#[verifier::opaque]
pub open spec fn blinds_then(hr: Holdem, e0: Effect, r: Result<(), GameError>) -> bool {
    match first_actor_from(hr, 0) {
        Some(id) => match ask_error(hr, e0, id) {
            Some(e) => r == Err::<(), GameError>(e),
            None => r is Ok,
        },
        None => exists|hm: Holdem, em: Effect| #[trigger] next_state_ends(hr, e0, r, hm, em),
    }
}

/// Taking the blinds from `hb`, whose antes are taken (`ante_total` in
/// all): the small and the big blind, by the order of play, are taken,
/// recorded, and the hand goes on; each step may fail.
#[verifier::opaque]
pub open spec fn blinds_from(hb: Holdem, ante_total: int, e0: Effect, r: Result<(), GameError>) -> bool {
    let n = hb.player_order@.len();
    if n != 2 && n == 0 {
        r == Err::<(), GameError>(GameError::MplayersMissingSb)
    } else if n != 2 && n == 1 {
        r == Err::<(), GameError>(GameError::MplayersMissingBb)
    } else {
        let sb_id = sb_player(hb);
        let bb_id = bb_player(hb);
        match take_error(hb, sb_id) {
            Some(e) => r == Err::<(), GameError>(e),
            None => exists|hs: Holdem|
                #[trigger] blind_taken(hb, sb_id, hb.sb, hs) && match take_error(hs, bb_id) {
                    Some(e) => r == Err::<(), GameError>(e),
                    None => exists|hbb: Holdem|
                        #[trigger] blind_taken(hs, bb_id, hb.bb, hbb) && {
                            let real_sb = blind_taken_amount(hb, sb_id, hb.sb);
                            let real_bb = blind_taken_amount(hs, bb_id, hb.bb);
                            if real_sb + real_bb > u64::MAX || ante_total + real_sb + real_bb > u64::MAX {
                                r == Err::<(), GameError>(GameError::InternalAmountOverflow)
                            } else {
                                exists|hr: Holdem|
                                    #[trigger] blinds_of_recorded(hb, hs, hbb, sb_id, bb_id, ante_total, hr) && blinds_then(hr, e0, r)
                            }
                        },
                }
        }
    }
}

/// How taking the antes and the blinds of `h0` ends.
#[verifier::opaque]
pub open spec fn blinds_ends(h0: Holdem, e0: Effect, r: Result<(), GameError>) -> bool {
    if h0.ante > 0 {
        let st = ante_run(ante_start(h0), h0.ante, h0.player_order@);
        match st.err {
            Some(e) => r == Err::<(), GameError>(e),
            None => exists|ha: Holdem|
                #[trigger] antes_taken(h0, st, ha) && match collect_error(ha) {
                    Some(e) => r == Err::<(), GameError>(e),
                    None => exists|hb: Holdem| #[trigger] bets_collected(ha, hb) && blinds_from(hb, (st.total as u64) as int, e0, r),
                },
        }
    } else {
        blinds_from(h0, 0, e0, r)
    }
}

/// How revealing the hole cards of `hc` ends (and, for a runner, asking
/// for the board): refused when a player dealt cards is not in the game,
/// or, for a runner, when the board indexes do not fit.
pub open spec fn showdown_reveal_ends(hc: Holdem, runner: bool, r: Result<(), GameError>) -> bool {
    if !(forall|id: u64| #[trigger] hc.hand_index_map@.contains_key(id) ==> hc.player_map@.contains_key(id)) {
        r == Err::<(), GameError>(GameError::InternalPlayerNotInGameButAssignedCards)
    } else if runner && hc.hand_index_map@.len() > (usize::MAX - 5) / 2 {
        r == Err::<(), GameError>(GameError::InternalAmountOverflow)
    } else {
        r is Ok
    }
}

/// How the next step of the hand ends, for the steps it does not hand on
/// to the blinds: a single player left wins, a player is asked to act, or
/// the bets are collected for a runner, a new street or the showdown.
#[verifier::opaque]
pub open spec fn next_state_ends(h0: Holdem, e0: Effect, r: Result<(), GameError>, h1: Holdem, e1: Effect) -> bool {
    match next_step(h0) {
        Step::LastInGame(w) | Step::LastStanding(w) => exists|hs: Holdem, es: Effect|
            #[trigger] game_end_signalled(h0, e0, HoldemStage::Settle, h0.street, hs, es) && single_win_ends(hs, es, w, r, h1, e1),
        Step::Ask(id) => {
            &&& ask_error(h0, e0, id) matches Some(e) ==> r == Err::<(), GameError>(e)
            &&& ask_error(h0, e0, id) is None ==> r is Ok
        },
        Step::Runner => exists|hs: Holdem, es: Effect|
            #[trigger] game_end_signalled(h0, e0, HoldemStage::Runner, Street::Showdown, hs, es) && (collect_error(hs) matches Some(e)
                ==> r == Err::<(), GameError>(e)) && (collect_error(hs) is None ==> exists|hc: Holdem|
                #[trigger] bets_collected(hs, hc) && showdown_reveal_ends(hc, true, r)),
        Step::Showdown => exists|hs: Holdem, es: Effect|
            #[trigger] game_end_signalled(h0, e0, HoldemStage::Showdown, Street::Showdown, hs, es) && (collect_error(hs) matches Some(e)
                ==> r == Err::<(), GameError>(e)) && (collect_error(hs) is None ==> exists|hc: Holdem|
                #[trigger] bets_collected(hs, hc) && showdown_reveal_ends(hc, false, r)),
        Step::NextStreet(st) => exists|ha: Holdem, hu: Holdem, r1: Result<(), GameError>|
            #![trigger arranged_state(h0, ha), street_change_ends(ha, hu, e0.revealed@, st, r1)]
            arranged_state(h0, ha) && street_change_ends(ha, hu, e0.revealed@, st, r1) && (r1 is Err ==> r == r1) && (r1 is Ok
                ==> {
                let total = crate::essential::pots_total(
                    merge_pots(retain_owners(pot_views(hu.pots@), unfolded_ids(hu.player_map@)), collect_run(hu).pots)->0,
                );
                &&& total > u64::MAX ==> r == Err::<(), GameError>(GameError::InternalAmountOverflow)
                &&& total <= u64::MAX ==> r is Ok
            }),
        Step::Blinds => true,
    }
}

impl Holdem {
    /// The order of play rotated: the first `k` players go to the end.
    fn rotate_order(&mut self, k: usize)
        requires
            k <= old(self).player_order@.len(),
        ensures
            final(self).player_order@ == old(self).player_order@.skip(k as int) + old(self).player_order@.take(
                k as int,
            ),
            *final(self) == (Holdem { player_order: final(self).player_order, ..*old(self) }),
    {
        let n = self.player_order.len();
        let mut out: Vec<u64> = Vec::new();
        let mut i: usize = k;
        while i < n
            invariant
                n == self.player_order@.len(),
                k <= i <= n,
                out@ == self.player_order@.subrange(k as int, i as int),
            decreases n - i,
        {
            out.push(self.player_order[i]);
            assert(self.player_order@.subrange(k as int, i + 1) =~= self.player_order@.subrange(k as int, i as int).push(self.player_order@[i as int]));
            i = i + 1;
        }
        let mut j: usize = 0;
        while j < k
            invariant
                n == self.player_order@.len(),
                k <= n,
                j <= k,
                out@ == self.player_order@.skip(k as int) + self.player_order@.take(j as int),
            decreases k - j,
        {
            out.push(self.player_order[j]);
            assert(self.player_order@.take(j + 1) =~= self.player_order@.take(j as int).push(self.player_order@[j as int]));
            assert(out@ =~= self.player_order@.skip(k as int) + self.player_order@.take(j + 1));
            j = j + 1;
        }
        self.player_order = out;
    }

    /// The first player of the order of play who may be asked to act.
    fn first_to_act(&self) -> (r: Option<u64>)
        ensures
            r matches Some(id) ==> self.player_map@.contains_key(id),
            r == first_actor_from(*self, 0),
    {
        let mut i: usize = 0;
        while i < self.player_order.len()
            invariant
                i <= self.player_order@.len(),
                first_actor_from(*self, 0) == first_actor_from(*self, i as int),
            decreases self.player_order@.len() - i,
        {
            let id = self.player_order[i];
            match self.player_map.get(&id) {
                Some(p) => {
                    if p.next_to_act() {
                        return Some(id);
                    }
                },
                None => {},
            }
            i = i + 1;
        }
        None
    }

    /// Take the antes (collected at once) and the blinds: in heads-up the
    /// first of the order is the big blind and the other the small one,
    /// else the first two are the small and the big blind.  Then the first
    /// player after them who can act is asked to, or, when all are all in,
    /// the game moves on.
    #[verifier::rlimit(100)]
    #[verifier::spinoff_prover]
    pub fn blind_bets(&mut self, effect: &mut Effect) -> (r: Result<(), GameError>)
        ensures
            same_context(*old(effect), *final(effect)),
            r is Ok ==> {
                &&& same_config(*old(self), *final(self))
                &&& final(self).street_bet == old(self).bb
                &&& final(self).min_raise == old(self).bb
                &&& final(self).display@.len() > 0 && final(self).display@.last() == Display::DealCards
            },
            blinds_ends(*old(self), *old(effect), r),
        decreases 1nat,
    {
        let ghost h0 = *self;
        let ghost e0 = *effect;
        let ghost st = ante_run(ante_start(h0), h0.ante, h0.player_order@);
        let ghost mut ha_g = *self;
        let mut real_ante: u64 = 0;
        if self.ante > 0 {
            real_ante = match self.ante_bets() {
                Ok(a) => a,
                Err(e) => {
                    assert(blinds_ends(*old(self), *old(effect), Err(e))) by {
                        reveal(blinds_ends);
                    }
                    return Err(e);
                },
            };
            proof {
                ha_g = *self;
            }
            assert(antes_taken(h0, st, ha_g)) by {
                reveal(antes_taken);
            }
            match self.collect_bets() {
                Ok(()) => {},
                Err(e) => {
                    assert(blinds_ends(*old(self), *old(effect), Err(e))) by {
                        reveal(blinds_ends);
                    }
                    return Err(e);
                },
            }
            assert(bets_collected(ha_g, *self));
        }
        let ghost hb = *self;
        let ghost ante_total: int = if h0.ante > 0 { (st.total as u64) as int } else { 0 };
        assert(real_ante == ante_total);
        let n = self.player_order.len();
        let (sb_id, bb_id) = if n == 2 {
            (self.player_order[1], self.player_order[0])
        } else {
            if n == 0 {
                assert(blinds_from(hb, ante_total, e0, Err(GameError::MplayersMissingSb))) by {
            reveal(blinds_from);
        }
        proof {
            lemma_blinds_ends(*old(self), *old(effect), Err(GameError::MplayersMissingSb), ha_g, hb);
        }
                return Err(GameError::MplayersMissingSb);
            }
            if n == 1 {
                assert(blinds_from(hb, ante_total, e0, Err(GameError::MplayersMissingBb))) by {
            reveal(blinds_from);
        }
        proof {
            lemma_blinds_ends(*old(self), *old(effect), Err(GameError::MplayersMissingBb), ha_g, hb);
        }
                return Err(GameError::MplayersMissingBb);
            }
            (self.player_order[0], self.player_order[1])
        };
        let sb = self.sb;
        let bb = self.bb;
        let (sb_allin, real_sb) = match self.take_bet_checked(sb_id, sb) {
            Ok(x) => x,
            Err(e) => {
                assert(blinds_from(hb, ante_total, e0, Err(e))) by {
            reveal(blinds_from);
        }
        proof {
            lemma_blinds_ends(*old(self), *old(effect), Err(e), ha_g, hb);
        }
                return Err(e);
            },
        };
        if sb_allin {
            match self.set_player_status(sb_id, PlayerStatus::Allin) {
                Ok(()) => {},
                Err(e) => {
                    return Err(e);
                },
            }
        }
        let ghost hs = *self;
        assert(blind_taken(hb, sb_id, hb.sb, hs)) by {
            reveal(blind_taken);
            assert(hs.player_map@ =~= hb.player_map@.insert(
                sb_id,
                Player {
                    chips: (hb.player_map@[sb_id].chips - blind_taken_amount(hb, sb_id, hb.sb)) as u64,
                    status: if hb.sb >= hb.player_map@[sb_id].chips { PlayerStatus::Allin } else { hb.player_map@[sb_id].status },
                    ..hb.player_map@[sb_id]
                },
            ));
        }
        let (bb_allin, real_bb) = match self.take_bet_checked(bb_id, bb) {
            Ok(x) => x,
            Err(e) => {
                assert(blinds_from(hb, ante_total, e0, Err(e))) by {
            reveal(blinds_from);
        }
        proof {
            lemma_blinds_ends(*old(self), *old(effect), Err(e), ha_g, hb);
        }
                return Err(e);
            },
        };
        if bb_allin {
            match self.set_player_status(bb_id, PlayerStatus::Allin) {
                Ok(()) => {},
                Err(e) => {
                    return Err(e);
                },
            }
        }
        let ghost hbb = *self;
        assert(blind_taken(hs, bb_id, hb.bb, hbb)) by {
            reveal(blind_taken);
            assert(hbb.player_map@ =~= hs.player_map@.insert(
                bb_id,
                Player {
                    chips: (hs.player_map@[bb_id].chips - blind_taken_amount(hs, bb_id, hb.bb)) as u64,
                    status: if hb.bb >= hs.player_map@[bb_id].chips { PlayerStatus::Allin } else { hs.player_map@[bb_id].status },
                    ..hs.player_map@[bb_id]
                },
            ));
        }
        assert(self.bet_map@.contains_key(bb_id));
        let sb_bet = BlindBet::new(sb_id, BlindType::Sb, real_sb, sb_allin);
        let bb_bet = BlindBet::new(bb_id, BlindType::Bb, real_bb, bb_allin);
        self.hand_history.add_blinds_info(sb_bet);
        self.hand_history.add_blinds_info(bb_bet);
        if real_sb > u64::MAX - real_bb || real_ante > u64::MAX - real_sb - real_bb {
            assert(blinds_from(hb, ante_total, e0, Err(GameError::InternalAmountOverflow))) by {
            reveal(blinds_from);
        }
        proof {
            lemma_blinds_ends(*old(self), *old(effect), Err(GameError::InternalAmountOverflow), ha_g, hb);
        }
            return Err(GameError::InternalAmountOverflow);
        }
        self.hand_history.set_pot(Street::Preflop, real_sb + real_bb + real_ante);
        if n == 2 {
            self.rotate_order(1);
        } else {
            self.rotate_order(2);
        }
        let ghost hr = *self;
        assert(blinds_of_recorded(hb, hs, hbb, sb_id, bb_id, ante_total, hr)) by {
            reveal(blinds_recorded);
            reveal(blinds_of_recorded);
            reveal(blind_taken);
            assert(hr.hand_history.blinds@ == hbb.hand_history.blinds@.push(sb_bet).push(bb_bet));
        }
        let ghost r_end: Result<(), GameError> = Ok(());
        match self.first_to_act() {
            Some(id) => {
                match self.ask_for_action(id, effect) {
                    Ok(()) => {},
                    Err(e) => {
                        assert(blinds_then(hr, e0, Err(e))) by {
            reveal(blinds_then);
        }
                        assert(blinds_from(hb, ante_total, e0, Err(e))) by {
            reveal(blinds_from);
        }
        proof {
            lemma_blinds_ends(*old(self), *old(effect), Err(e), ha_g, hb);
        }
                        return Err(e);
                    },
                }
                assert(blinds_then(hr, e0, Ok(()))) by {
            reveal(blinds_then);
        }
            },
            None => {
                assert(!self.bet_map@.is_empty()) by {
                    assert(self.bet_map@.dom().contains(bb_id));
                }
                let res = self.next_state(effect);
                assert(next_state_ends(hr, e0, res, *self, *effect));
                match res {
                    Ok(()) => {},
                    Err(e) => {
                        assert(blinds_then(hr, e0, Err(e))) by {
            reveal(blinds_then);
        }
                        assert(blinds_from(hb, ante_total, e0, Err(e))) by {
            reveal(blinds_from);
        }
        proof {
            lemma_blinds_ends(*old(self), *old(effect), Err(e), ha_g, hb);
        }
                        return Err(e);
                    },
                }
                proof {
                    crate::errors::lemma_ok_unit(res);
                }
                assert(next_state_ends(hr, e0, Ok(()), *self, *effect));
                assert(blinds_then(hr, e0, Ok(()))) by {
            reveal(blinds_then);
        }
            },
        }
        assert(blinds_from(hb, ante_total, e0, Ok(()))) by {
            reveal(blinds_from);
        }
        proof {
            lemma_blinds_ends(*old(self), *old(effect), Ok(()), ha_g, hb);
        }
        self.min_raise = self.bb;
        self.street_bet = self.bb;
        self.display.push(Display::DealCards);
        Ok(())
    }

    /// Decide and take the next step of the hand; see `next_step`.
    pub fn next_state(&mut self, effect: &mut Effect) -> (r: Result<(), GameError>)
        ensures
            same_context(*old(effect), *final(effect)),
            r is Ok ==> same_config(*old(self), *final(self)),
            r is Ok ==> step_done(*old(self), *final(self), next_step(*old(self))),
            next_state_ends(*old(self), *old(effect), r, *final(self), *final(effect)),
            next_step(*old(self)) is Blinds ==> exists|ha: Holdem| #[trigger] arranged_state(*old(self), ha) && blinds_ends(ha, *old(effect), r),
        decreases blinds_due(*old(self)),
    {
        let ghost h0 = *self;
        let ghost e0 = *effect;
        reveal(next_state_ends);
        let last_pos = self.get_ref_position();
        match self.arrange_players(last_pos) {
            Ok(()) => {},
            Err(e) => {
                return Err(e);
            },
        }
        let ghost ha = *self;
        let ingame = crate::settle::copy_ids_pub(&self.player_order);
        let stay = filter_ids(&ingame, &self.player_map, 0);
        let act = filter_ids(&ingame, &self.player_map, 1);
        let allin = filter_ids(&ingame, &self.player_map, 2);
        let ghost acts = act@;
        let next_player = self.next_action_player(act);
        let next_street = self.next_street();
        proof {
            lemma_first_needing_same(h0, *self, acts, 0);
            assert(ingame@ == arranged_order(h0.player_map@, ref_position(h0)));
        }
        if ingame.len() == 1 {
            self.stage = HoldemStage::Settle;
            match self.signal_game_end(effect) {
                Ok(()) => {},
                Err(e) => {
                    return Err(e);
                },
            }
            assert(game_end_signalled(h0, e0, HoldemStage::Settle, h0.street, *self, *effect));
            let winner = ingame[0];
            self.single_player_win(effect, winner)
        } else if stay.len() == 1 {
            self.stage = HoldemStage::Settle;
            match self.signal_game_end(effect) {
                Ok(()) => {},
                Err(e) => {
                    return Err(e);
                },
            }
            assert(game_end_signalled(h0, e0, HoldemStage::Settle, h0.street, *self, *effect));
            let winner = stay[0];
            self.single_player_win(effect, winner)
        } else if self.street == Street::Preflop && self.bet_map.is_empty() {
            assert(arranged_state(h0, ha));
            self.blind_bets(effect)
        } else if next_player.is_some() {
            let id = match next_player {
                Some(id) => id,
                None => {
                    return Err(GameError::NextActionPlayerMissing);
                },
            };
            self.ask_for_action(id, effect)
        } else if self.stage != HoldemStage::Runner && (stay.len() == 0 || allin.len() >= stay.len() - 1) {
            self.street = Street::Showdown;
            self.stage = HoldemStage::Runner;
            match self.signal_game_end(effect) {
                Ok(()) => {},
                Err(e) => {
                    return Err(e);
                },
            }
            assert(game_end_signalled(h0, e0, HoldemStage::Runner, Street::Showdown, *self, *effect));
            match self.collect_bets() {
                Ok(()) => {},
                Err(e) => {
                    return Err(e);
                },
            }
            let ghost hc = *self;
            match self.reveal_hole_cards(effect) {
                Ok(()) => {},
                Err(e) => {
                    assert(showdown_reveal_ends(hc, true, Err(e)));
                    return Err(e);
                },
            }
            let players = self.hand_index_map.len();
            assert(players == hc.hand_index_map@.len()) by {
                assert(self.hand_index_map@.dom().len() == players);
            }
            if players > (usize::MAX - 5) / 2 {
                return Err(GameError::InternalAmountOverflow);
            }
            let board_start = players * 2;
            let mut ix: Vec<usize> = Vec::new();
            let mut k: usize = 0;
            while k < 5
                invariant
                    k <= 5,
                    board_start <= usize::MAX - 5,
                decreases 5 - k,
            {
                ix.push(board_start + k);
                k = k + 1;
            }
            effect.push(EffectAction::Reveal { random_id: self.deck_random_id, indexes: ix });
            Ok(())
        } else if next_street != Street::Showdown {
            assert(arranged_state(h0, ha));
            let r1 = self.change_street(effect, next_street);
            match r1 {
                Ok(()) => {},
                Err(e) => {
                    return Err(e);
                },
            }
            let street = self.street;
            let total = match self.total_pot() {
                Ok(t) => t,
                Err(e) => {
                    return Err(e);
                },
            };
            self.hand_history.set_pot(street, total);
            Ok(())
        } else {
            self.stage = HoldemStage::Showdown;
            self.street = Street::Showdown;
            match self.signal_game_end(effect) {
                Ok(()) => {},
                Err(e) => {
                    return Err(e);
                },
            }
            assert(game_end_signalled(h0, e0, HoldemStage::Showdown, Street::Showdown, *self, *effect));
            match self.collect_bets() {
                Ok(()) => {},
                Err(e) => {
                    return Err(e);
                },
            }
            let ghost hc = *self;
            let res = self.reveal_hole_cards(effect);
            assert(showdown_reveal_ends(hc, false, res));
            res
        }
    }
}

/// Who has to act is the same in two states with the same players, bets
/// and street bet.
pub open spec fn needs_action_same(h0: Holdem, h1: Holdem) -> bool {
    h0.player_map@ == h1.player_map@ && h0.bet_map@ == h1.bet_map@ && h0.street_bet == h1.street_bet
}


/// Who acts first is the same in two states with the same players, bets
/// and street bet.
proof fn lemma_first_needing_same(h0: Holdem, h1: Holdem, s: Seq<u64>, i: int)
    requires
        needs_action_same(h0, h1),
    ensures
        first_needing(h0, s, i) == first_needing(h1, s, i),
    decreases s.len() - i,
{
    if 0 <= i < s.len() {
        lemma_first_needing_same(h0, h1, s, i + 1);
    }
}


/// Whether `id` is the acting player.
pub open spec fn acting_is(h: Holdem, id: u64) -> bool {
    h.acting_player matches Some(a) && a.id == id
}

/// `h1` is `h0` with the action of `sender` carried out, as `apply_action`
/// states it.
pub open spec fn action_applied(h0: Holdem, event: GameEvent, sender: u64, h1: Holdem) -> bool {
    &&& same_config(h0, h1)
    &&& match event {
        GameEvent::Bet(amount) => h1.street_bet == amount && h1.min_raise == amount && took(h0, h1, sender, amount as int),
        GameEvent::Call => took(h0, h1, sender, h0.street_bet - bet_of(h0.bet_map@, sender)) && h1.street_bet
            == h0.street_bet,
        GameEvent::Check => h1.player_map@[sender].status == PlayerStatus::Acted && h1.bet_map@ == h0.bet_map@,
        GameEvent::Fold => h1.player_map@[sender].status == PlayerStatus::Fold && h1.bet_map@ == h0.bet_map@,
        GameEvent::Raise(amount) => {
            let betted = bet_of(h0.bet_map@, sender);
            let p = h0.player_map@[sender];
            let t: int = if amount < p.chips { amount as int } else { p.chips as int };
            &&& took(h0, h1, sender, amount as int)
            &&& h1.street_bet == betted + t
            &&& h1.min_raise == betted + t - h0.street_bet
        },
        _ => h1 == h0,
    }
}

/// Why carrying out a valid action of `sender` still fails, if it does:
/// the bet does not fit, a raise's new street bet does not fit, the street
/// takes no actions, or the time card cannot be used up.
pub open spec fn action_more_error(h: Holdem, e: Effect, event: GameEvent, sender: u64) -> Option<GameError> {
    let p = h.player_map@[sender];
    let betted = bet_of(h.bet_map@, sender);
    let record = if h.street == Street::Init || h.street == Street::Showdown {
        Some(GameError::InternalUnexpectedStreet)
    } else {
        time_card_use_error(h, e)
    };
    match event {
        GameEvent::Bet(_) | GameEvent::Call => if !bet_fits(h, sender) {
            Some(GameError::InternalAmountOverflow)
        } else {
            record
        },
        GameEvent::Raise(amount) => {
            let t: int = if amount < p.chips { amount as int } else { p.chips as int };
            if !bet_fits(h, sender) {
                Some(GameError::InternalAmountOverflow)
            } else if betted + t > u64::MAX || betted + t < h.street_bet {
                Some(GameError::InternalAmountOverflow)
            } else {
                record
            }
        },
        GameEvent::Check | GameEvent::Fold => record,
        _ => None,
    }
}

/// Why a player's action is refused before anything is done, if it is:
/// the sender must be a player and the acting one; a bet needs no bet of
/// theirs and no bet on the street yet, and at least a big blind unless it
/// is all in; a call needs the street bet to be at least theirs; a check
/// needs their bet to match the street bet; a raise needs a bet on the
/// street and must reach the street bet plus the minimum raise unless it
/// is all in.
pub open spec fn action_error(h: Holdem, event: GameEvent, sender: u64) -> Option<GameError> {
    if !h.player_map@.contains_key(sender) {
        Some(GameError::InvalidPlayer)
    } else {
        let p = h.player_map@[sender];
        let acting = acting_is(h, sender);
        let betted = bet_of(h.bet_map@, sender);
        match event {
            GameEvent::Bet(amount) => if !acting {
                Some(GameError::NotTheActingPlayerToBet)
            } else if h.bet_map@.contains_key(sender) {
                Some(GameError::PlayerAlreadyBetted)
            } else if h.street_bet != 0 {
                Some(GameError::PlayerCantBet)
            } else if h.bb > amount && p.chips != amount {
                Some(GameError::BetAmountIsTooSmall)
            } else {
                None
            },
            GameEvent::Call => if !acting {
                Some(GameError::NotTheActingPlayerToCall)
            } else if betted > h.street_bet {
                Some(GameError::InternalAmountOverflow)
            } else {
                None
            },
            GameEvent::Check => if !acting {
                Some(GameError::NotTheActingPlayerToCheck)
            } else if betted != h.street_bet {
                Some(GameError::PlayerCantCheck)
            } else {
                None
            },
            GameEvent::Fold => if !acting {
                Some(GameError::NotTheActingPlayerToFold)
            } else {
                None
            },
            GameEvent::Raise(amount) => if !acting {
                Some(GameError::NotTheActingPlayerToRaise)
            } else if h.street_bet == 0 || h.bet_map@.is_empty() {
                Some(GameError::PlayerCantRaise)
            } else if amount + betted < h.street_bet + h.min_raise && amount != p.chips {
                Some(GameError::RaiseAmountIsTooSmall)
            } else {
                None
            },
            _ => None,
        }
    }
}

/// The bet of `amount` was taken from player `id`: what they had, at most,
/// and they acted, or went all in.
pub open spec fn took(h0: Holdem, h1: Holdem, id: u64, amount: int) -> bool {
    let p = h0.player_map@[id];
    let t: int = if amount < p.chips {
        amount
    } else {
        p.chips as int
    };
    &&& h1.player_map@.contains_key(id)
    &&& h1.player_map@[id].chips == p.chips - t
    &&& h1.player_map@[id].status == (if amount >= p.chips {
        PlayerStatus::Allin
    } else {
        PlayerStatus::Acted
    })
    &&& h1.bet_map@ == h0.bet_map@.insert(id, (bet_of(h0.bet_map@, id) + t) as u64)
    &&& h1.total_bet_map@ == h0.total_bet_map@.insert(id, (bet_of(h0.total_bet_map@, id) + t) as u64)
}

impl Holdem {
    /// Record an action in the hand history and use up a time card when
    /// the action ran past the normal clock.
    fn record_action(&mut self, effect: &mut Effect, action: PlayerAction) -> (r: Result<(), GameError>)
        ensures
            *final(effect) == *old(effect),
            r is Ok ==> same_config(*old(self), *final(self)),
            r is Ok ==> final(self).bet_map@ == old(self).bet_map@ && final(self).total_bet_map@ == old(self).total_bet_map@ && final(self).street_bet == old(self).street_bet && final(self).min_raise == old(self).min_raise,
            r is Ok ==> final(self).player_map@.dom() == old(self).player_map@.dom() && forall|k: u64|
                old(self).player_map@.contains_key(k) ==> (#[trigger] final(self).player_map@[k]).chips == old(self).player_map@[k].chips && final(self).player_map@[k].status == old(self).player_map@[k].status,
            old(self).street == Street::Init || old(self).street == Street::Showdown ==> r == Err::<(), GameError>(
                GameError::InternalUnexpectedStreet,
            ),
            !(old(self).street == Street::Init || old(self).street == Street::Showdown) ==> {
                &&& time_card_use_error(*old(self), *old(effect)) matches Some(e) ==> r == Err::<(), GameError>(e)
                &&& time_card_use_error(*old(self), *old(effect)) is None ==> r is Ok && exists|ha: Holdem|
                    #[trigger] action_recorded(*old(self), action, ha) && time_cards_reduced(ha, *old(effect), *final(self))
            },
    {
        let ghost h0 = *self;
        let street = self.street;
        match self.hand_history.add_action(street, action) {
            Ok(()) => {},
            Err(e) => {
                return Err(e);
            },
        }
        let ghost ha = *self;
        assert(action_recorded(h0, action, ha));
        self.reduce_time_cards(effect)
    }

    /// Carry out a player's action (bet, call, check, fold or raise),
    /// without moving the game on.
    #[verifier::rlimit(40)]
    pub fn apply_action(&mut self, effect: &mut Effect, event: GameEvent, sender: u64) -> (r: Result<(), GameError>)
        ensures
            *final(effect) == *old(effect),
            action_error(*old(self), event, sender) matches Some(e) ==> r == Err::<(), GameError>(e),
            action_error(*old(self), event, sender) is Some ==> *final(self) == *old(self),
            action_error(*old(self), event, sender) is None ==> match action_more_error(*old(self), *old(effect), event, sender) {
                Some(e) => r == Err::<(), GameError>(e),
                None => r is Ok,
            },
            r is Ok ==> same_config(*old(self), *final(self)),
            r is Ok ==> action_applied(*old(self), event, sender, *final(self)),
            r is Ok ==> match event {
                GameEvent::Bet(amount) => final(self).street_bet == amount && final(self).min_raise == amount
                    && took(*old(self), *final(self), sender, amount as int),
                GameEvent::Call => took(
                    *old(self),
                    *final(self),
                    sender,
                    old(self).street_bet - bet_of(old(self).bet_map@, sender),
                ) && final(self).street_bet == old(self).street_bet,
                GameEvent::Check => final(self).player_map@[sender].status == PlayerStatus::Acted
                    && final(self).bet_map@ == old(self).bet_map@,
                GameEvent::Fold => final(self).player_map@[sender].status == PlayerStatus::Fold
                    && final(self).bet_map@ == old(self).bet_map@,
                GameEvent::Raise(amount) => {
                    let betted = bet_of(old(self).bet_map@, sender);
                    let p = old(self).player_map@[sender];
                    let t: int = if amount < p.chips {
                        amount as int
                    } else {
                        p.chips as int
                    };
                    &&& took(*old(self), *final(self), sender, amount as int)
                    &&& final(self).street_bet == betted + t
                    &&& final(self).min_raise == betted + t - old(self).street_bet
                },
                _ => *final(self) == *old(self),
            },
    {
        let player = match self.player_map.get(&sender) {
            Some(p) => *p,
            None => {
                return Err(GameError::InvalidPlayer);
            },
        };
        let player_id = player.id;
        match event {
            GameEvent::Bet(amount) => {
                if !self.is_acting_player(sender) {
                    return Err(GameError::NotTheActingPlayerToBet);
                }
                if self.bet_map.contains_key(&sender) {
                    return Err(GameError::PlayerAlreadyBetted);
                }
                if self.street_bet != 0 {
                    return Err(GameError::PlayerCantBet);
                }
                if self.bb > amount && player.chips != amount {
                    return Err(GameError::BetAmountIsTooSmall);
                }
                let (allin, taken) = match self.take_bet_checked(sender, amount) {
                    Ok(x) => x,
                    Err(e) => {
                        return Err(e);
                    },
                };
                match self.set_player_acted(sender, allin) {
                    Ok(()) => {},
                    Err(e) => {
                        return Err(e);
                    },
                }
                self.min_raise = amount;
                self.street_bet = amount;
                self.record_action(effect, PlayerAction::new_bet(player_id, taken, allin))
            },
            GameEvent::Call => {
                if !self.is_acting_player(sender) {
                    return Err(GameError::NotTheActingPlayerToCall);
                }
                let betted = self.get_player_bet(sender);
                if betted > self.street_bet {
                    return Err(GameError::InternalAmountOverflow);
                }
                let call_amount = self.street_bet - betted;
                let (allin, taken) = match self.take_bet_checked(sender, call_amount) {
                    Ok(x) => x,
                    Err(e) => {
                        return Err(e);
                    },
                };
                match self.set_player_acted(sender, allin) {
                    Ok(()) => {},
                    Err(e) => {
                        return Err(e);
                    },
                }
                self.record_action(effect, PlayerAction::new_call(player_id, taken, allin))
            },
            GameEvent::Check => {
                if !self.is_acting_player(sender) {
                    return Err(GameError::NotTheActingPlayerToCheck);
                }
                let current = self.get_player_bet(sender);
                if current != self.street_bet {
                    return Err(GameError::PlayerCantCheck);
                }
                match self.set_player_status(sender, PlayerStatus::Acted) {
                    Ok(()) => {},
                    Err(e) => {
                        return Err(e);
                    },
                }
                self.record_action(effect, PlayerAction::new_check(player_id))
            },
            GameEvent::Fold => {
                if !self.is_acting_player(sender) {
                    return Err(GameError::NotTheActingPlayerToFold);
                }
                match self.set_player_status(sender, PlayerStatus::Fold) {
                    Ok(()) => {},
                    Err(e) => {
                        return Err(e);
                    },
                }
                self.record_action(effect, PlayerAction::new_fold(player_id))
            },
            GameEvent::Raise(amount) => {
                if !self.is_acting_player(sender) {
                    return Err(GameError::NotTheActingPlayerToRaise);
                }
                if self.street_bet == 0 || self.bet_map.is_empty() {
                    return Err(GameError::PlayerCantRaise);
                }
                let betted = self.get_player_bet(sender);
                if (amount as u128) + (betted as u128) < (self.street_bet as u128) + (self.min_raise as u128)
                    && amount != player.chips {
                    return Err(GameError::RaiseAmountIsTooSmall);
                }
                let (allin, taken) = match self.take_bet_checked(sender, amount) {
                    Ok(x) => x,
                    Err(e) => {
                        return Err(e);
                    },
                };
                match self.set_player_acted(sender, allin) {
                    Ok(()) => {},
                    Err(e) => {
                        return Err(e);
                    },
                }
                if taken > u64::MAX - betted || betted + taken < self.street_bet {
                    return Err(GameError::InternalAmountOverflow);
                }
                let new_street_bet = betted + taken;
                let new_min_raise = new_street_bet - self.street_bet;
                self.street_bet = new_street_bet;
                self.min_raise = new_min_raise;
                self.record_action(effect, PlayerAction::new_raise(player_id, new_street_bet, allin))
            },
            _ => Ok(()),
        }
    }

    /// Handle a player's action, then move the game on.
    pub fn handle_action_event(&mut self, effect: &mut Effect, event: GameEvent, sender: u64) -> (r: Result<
        (),
        GameError,
    >)
        ensures
            same_context(*old(effect), *final(effect)),
            action_event_ends(*old(self), *old(effect), event, sender, r, *final(self), *final(effect)),
            r is Ok ==> same_config(*old(self), *final(self)),
    {
        match self.apply_action(effect, event, sender) {
            Ok(()) => {},
            Err(e) => {
                return Err(e);
            },
        }
        let ghost ha = *self;
        let res = self.next_state(effect);
        proof {
            assert(action_applied(*old(self), event, sender, ha));
        }
        res
    }
}


/// The commands that pay out and remove the players who leave.
pub open spec fn kick_actions(ps: Seq<Player>) -> Seq<EffectAction>
    decreases ps.len(),
{
    if ps.len() == 0 {
        Seq::empty()
    } else {
        let p = ps.last();
        kick_actions(ps.drop_last()).push(
            EffectAction::Withdraw { player_id: p.id, amount: (p.chips + p.deposit) as u64 },
        ).push(EffectAction::Eject { player_id: p.id })
    }
}

/// Whether paying out some leaving player overflows.
pub open spec fn payout_overflows(ps: Seq<Player>) -> bool {
    exists|i: int| 0 <= i < ps.len() && (#[trigger] ps[i]).chips + ps[i].deposit > u64::MAX
}

/// The players a cash table removes: those leaving, sitting out or
/// eliminated, by id; other tables keep everyone.
pub open spec fn kicked(h: Holdem) -> Seq<Player> {
    kicked_from(h.mode, h.player_map@)
}

/// The players a table in `mode` with players `pm` removes.
pub open spec fn kicked_from(mode: crate::essential::GameMode, pm: Map<u64, Player>) -> Seq<Player> {
    if mode == crate::essential::GameMode::Cash {
        players_of(pm, key_seq(pm).filter(removable_pred(pm)))
    } else {
        Seq::empty()
    }
}

/// The players after the removals of a cash table.
pub open spec fn kept_players(h: Holdem) -> Map<u64, Player> {
    kept_from(h.mode, h.player_map@)
}

/// The players a table in `mode` with players `pm` keeps.
pub open spec fn kept_from(mode: crate::essential::GameMode, pm: Map<u64, Player>) -> Map<u64, Player> {
    if mode == crate::essential::GameMode::Cash {
        pm.restrict(pm.dom().filter(|id: u64| !is_removable(pm[id].status)))
    } else {
        pm
    }
}

impl Holdem {
    /// Remove the leaving players of a cash table; other tables keep them.
    fn cash_table_kick_players(&mut self) -> (r: Vec<Player>)
        ensures
            r@ == kicked(*old(self)),
            final(self).player_map@ == kept_players(*old(self)),
            *final(self) == (Holdem { player_map: final(self).player_map, ..*old(self) }),
    {
        if self.mode == crate::essential::GameMode::Cash {
            return self.kick_players();
        }
        Vec::new()
    }

    /// Pay out and remove the given players.
    fn pay_out(&self, effect: &mut Effect, players: &Vec<Player>) -> (r: Result<(), GameError>)
        ensures
            same_context(*old(effect), *final(effect)),
            payout_overflows(players@) ==> r == Err::<(), GameError>(GameError::InternalAmountOverflow),
            !payout_overflows(players@) ==> r is Ok && final(effect).actions@ == old(effect).actions@ + kick_actions(
                players@,
            ),
    {
        let mut i: usize = 0;
        while i < players.len()
            invariant
                same_context(*old(effect), *effect),
                i <= players@.len(),
                forall|k: int| 0 <= k < i ==> (#[trigger] players@[k]).chips + players@[k].deposit <= u64::MAX,
                effect.actions@ == old(effect).actions@ + kick_actions(players@.take(i as int)),
            decreases players@.len() - i,
        {
            let p = players[i];
            if p.chips > u64::MAX - p.deposit {
                return Err(GameError::InternalAmountOverflow);
            }
            effect.push(EffectAction::Withdraw { player_id: p.id, amount: p.chips + p.deposit });
            effect.push(EffectAction::Eject { player_id: p.id });
            proof {
                assert(players@.take(i + 1).drop_last() =~= players@.take(i as int));
                assert(effect.actions@ =~= old(effect).actions@ + kick_actions(players@.take(i + 1)));
            }
            i = i + 1;
        }
        assert(players@.take(i as int) =~= players@);
        Ok(())
    }

    /// After the settlement: remove and pay out the leaving players of a
    /// cash table, transfer the rake, checkpoint, and clear the hand.
    pub fn settle(&mut self, effect: &mut Effect) -> (r: Result<(), GameError>)
        ensures
            same_context(*old(effect), *final(effect)),
            payout_overflows(kicked(*old(self))) ==> r == Err::<(), GameError>(GameError::InternalAmountOverflow),
            r is Ok ==> {
                &&& settled_actions(*old(self), *old(effect), *final(effect))
                &&& old(self).mode != crate::essential::GameMode::Cash ==> final(self).player_map@ == old(self).player_map@
                &&& old(self).mode == crate::essential::GameMode::Cash ==> final(self).player_map@ == mapped(
                    kept_players(*old(self)),
                    reset_fn(),
                )
            },
            settled(*old(self), *old(effect), r, *final(self), *final(effect)),
    {
        let ghost h0 = *self;
        let ghost a0 = effect.actions@;
        let removed = self.cash_table_kick_players();
        match self.pay_out(effect, &removed) {
            Ok(()) => {},
            Err(e) => {
                return Err(e);
            },
        }
        let ghost a1 = effect.actions@;
        if self.rake_collected > 0 {
            effect.push(EffectAction::Transfer { amount: self.rake_collected });
        }
        let ghost a2 = effect.actions@;
        effect.push(EffectAction::Checkpoint);
        proof {
            let t = if h0.rake_collected > 0 {
                seq![EffectAction::Transfer { amount: h0.rake_collected }]
            } else {
                Seq::<EffectAction>::empty()
            };
            assert(a2 =~= a1 + t);
            assert(effect.actions@ =~= a0 + kick_actions(kicked(h0)) + t + seq![EffectAction::Checkpoint]);
        }
        if self.mode == crate::essential::GameMode::Cash {
            return self.reset_state();
        }
        Ok(())
    }
}

/// The commands of a settlement: pay-outs, the rake, a checkpoint.
pub open spec fn settled_actions(h0: Holdem, e0: Effect, e1: Effect) -> bool {
    e1.actions@ == e0.actions@ + kick_actions(kicked(h0)) + (if h0.rake_collected > 0 {
        seq![EffectAction::Transfer { amount: h0.rake_collected }]
    } else {
        Seq::empty()
    }) + seq![EffectAction::Checkpoint]
}


/// Whether a player with this status takes part in the showdown.
pub open spec fn at_showdown(status: PlayerStatus) -> bool {
    status != PlayerStatus::Fold && status != PlayerStatus::Init && status != PlayerStatus::Leave
}

/// What player `id` brings to the showdown: the seven cards by their
/// characters, nothing when the player is out of it, or why it fails.
pub open spec fn showdown_entry(h: Holdem, rv: Map<usize, String>, id: u64) -> Result<Option<Seq<Seq<char>>>, GameError> {
    if h.hand_index_map@[id]@.len() != 2 {
        Err(GameError::InvalidHoleCardsNumber)
    } else if !h.player_map@.contains_key(id) {
        Err(GameError::InternalPlayerNotFound)
    } else if at_showdown(h.player_map@[id].status) {
        match holdem_cards(string_views(h.board@), h.hand_index_map@, rv, id) {
            Ok(c) => Ok(Some(c)),
            Err(e) => Err(e),
        }
    } else {
        Ok(None)
    }
}

/// The showdown of the players `ids` in order: the cards of those taking
/// part, or the first failure.
pub open spec fn showdown_of(h: Holdem, rv: Map<usize, String>, ids: Seq<u64>) -> Result<Seq<(u64, Seq<Seq<char>>)>, GameError>
    decreases ids.len(),
{
    if ids.len() == 0 {
        Ok(Seq::empty())
    } else {
        match showdown_of(h, rv, ids.drop_last()) {
            Err(e) => Err(e),
            Ok(prev) => match showdown_entry(h, rv, ids.last()) {
                Err(e) => Err(e),
                Ok(Some(c)) => Ok(prev.push((ids.last(), c))),
                Ok(None) => Ok(prev),
            },
        }
    }
}

/// The showdown of all players dealt cards, in the order of their ids.
pub open spec fn holdem_showdown(h: Holdem, rv: Map<usize, String>) -> Result<Seq<(u64, Seq<Seq<char>>)>, GameError> {
    showdown_of(h, rv, key_seq(h.hand_index_map@))
}


/// A failure at player `i`, after the first `i` players went through,
/// is the failure of the whole showdown.
proof fn lemma_showdown_stops(h: Holdem, rv: Map<usize, String>, ids: Seq<u64>, i: int)
    requires
        0 <= i < ids.len(),
        showdown_of(h, rv, ids.take(i)) is Ok,
        showdown_entry(h, rv, ids[i]) is Err,
    ensures
        showdown_of(h, rv, ids) == Err::<Seq<(u64, Seq<Seq<char>>)>, GameError>(showdown_entry(h, rv, ids[i])->Err_0),
    decreases ids.len(),
{
    if i == ids.len() - 1 {
        assert(ids.drop_last() =~= ids.take(i));
    } else {
        assert(ids.drop_last().take(i) =~= ids.take(i));
        assert(ids.drop_last()[i] == ids[i]);
        lemma_showdown_stops(h, rv, ids.drop_last(), i);
    }
}


/// The hand values of a showdown, in the order of the players' ids.
pub open spec fn showdown_values(list: Seq<(u64, Seq<Seq<char>>)>) -> Seq<(u64, Seq<u8>)> {
    list.map_values(|x: (u64, Seq<Seq<char>>)| (x.0, seven_card_value(x.1)))
}

/// Every pot has a winner among the winner sets `sv`, and the pots of `h1`
/// are those of `h` so awarded.
pub open spec fn winners_assigned(h: Holdem, sv: Seq<Seq<u64>>, h1: Holdem) -> bool {
    let ps = pot_views(h.pots@);
    &&& forall|i: int| 0 <= i < ps.len() ==> (#[trigger] awarded(ps[i], sv)).winners.len() > 0
    &&& pot_views(h1.pots@) == ps.map_values(|p: PotView| awarded(p, sv))
    &&& h1 == (Holdem { pots: h1.pots, ..h })
}

/// The prizes of `h2` are those that the pots of `h1` give.
pub open spec fn prizes_calculated(h1: Holdem, h2: Holdem) -> bool {
    let ps = pot_views(h1.pots@);
    &&& !prizes_overflow(ps)
    &&& remainder_id(h1) matches Some(rp) && prize_sum(ps, rp) + odd_sum(ps) <= u64::MAX && h2.prize_map@ == prizes(ps, rp)
    &&& h2 == (Holdem { prize_map: h2.prize_map, ..h1 })
}

/// The winners and the changes of chips of `h3` are those that the prizes of `h2` give.
pub open spec fn chips_updated(h2: Holdem, h3: Holdem) -> bool {
    &&& !delta_fails(h2)
    &&& h3.winners@ == key_seq(h2.prize_map@).filter(positive_prize(h2.prize_map@))
    &&& h3.hand_history.chips_change@ == with_changes(h2.hand_history.chips_change@, deltas(h2))
    &&& h3.hand_history.valid == h2.hand_history.valid
    &&& h3.hand_history.board@ == h2.hand_history.board@
    &&& h3.hand_history.blinds@ == h2.hand_history.blinds@
    &&& h3.hand_history.preflop == h2.hand_history.preflop
    &&& h3.hand_history.flop == h2.hand_history.flop
    &&& h3.hand_history.turn == h2.hand_history.turn
    &&& h3.hand_history.river == h2.hand_history.river
    &&& h3.hand_history.showdowns@ == h2.hand_history.showdowns@
    &&& h3 == (Holdem { winners: h3.winners, hand_history: h3.hand_history, ..h2 })
}

/// `h4` shows one more game result: the pots of `h` awarded among `sv`,
/// and the players of `h2`.
pub open spec fn result_shown(h: Holdem, sv: Seq<Seq<u64>>, h2: Holdem, h3: Holdem, h4: Holdem) -> bool {
    let ps = pot_views(h.pots@);
    &&& h4 == (Holdem { display: h4.display, ..h3 })
    &&& h4.display@.len() == h3.display@.len() + 1
    &&& h4.display@.drop_last() == h3.display@
    &&& h4.display@.last() matches Display::GameResult { award_pots, player_map } && {
        &&& player_map@ == results_of(h2.player_map@)
        &&& award_pots@.len() == ps.len()
        &&& forall|i: int|
            0 <= i < ps.len() ==> (#[trigger] award_pots@[i]).winners@ == awarded(ps[i], sv).winners
                && award_pots@[i].amount == ps[i].amount
    }
}

/// The prizes of `h4` are paid to its players in `h5`.
pub open spec fn prize_applied(h4: Holdem, h5: Holdem) -> bool {
    &&& !prize_overflows(h4.player_map@, h4.prize_map@)
    &&& h5.player_map@ == Map::new(
        |k: u64| h4.player_map@.contains_key(k),
        |k: u64| with_prize(h4.player_map@[k], h4.prize_map@),
    )
    &&& h5 == (Holdem { player_map: h5.player_map, ..h4 })
}

/// The pots of `h` settled among the winner sets `sv`: winners assigned,
/// prizes calculated, chips updated, the result shown and the prizes paid.
pub open spec fn pots_settled(h: Holdem, sv: Seq<Seq<u64>>, h5: Holdem) -> bool {
    exists|h1: Holdem, h2: Holdem, h3: Holdem, h4: Holdem|
        #![trigger winners_assigned(h, sv, h1), prizes_calculated(h1, h2), chips_updated(h2, h3), prize_applied(h4, h5)]
        winners_assigned(h, sv, h1) && prizes_calculated(h1, h2) && chips_updated(h2, h3) && result_shown(
            h,
            sv,
            h2,
            h3,
            h4,
        ) && prize_applied(h4, h5)
}

/// After the pots are settled in `h5`: the hand history is valid, players
/// out of chips are eliminated, and the showdown of every player in `list`
/// is recorded.
pub open spec fn showdown_recorded(h5: Holdem, list: Seq<(u64, Seq<Seq<char>>)>, h: Holdem) -> bool {
    let base = h5.hand_history.showdowns@;
    let sds = h.hand_history.showdowns@;
    &&& h.hand_history.valid
    &&& h.player_map@ == mapped(h5.player_map@, eliminate_fn())
    &&& forall|id: u64|
        #[trigger] sds.contains_key(id) <==> base.contains_key(id) || exists|k: int| 0 <= k < list.len() && list[k].0 == id
    &&& forall|id: u64|
        #[trigger] base.contains_key(id) && !(exists|k: int| 0 <= k < list.len() && list[k].0 == id) ==> sds[id] == base[id]
    &&& forall|k: int| 0 <= k < list.len() ==> shows_hand(#[trigger] sds[list[k].0], list[k].1)
    &&& h.hand_history.board@ == h5.hand_history.board@
    &&& h.hand_history.blinds@ == h5.hand_history.blinds@
    &&& h.hand_history.preflop == h5.hand_history.preflop
    &&& h.hand_history.flop == h5.hand_history.flop
    &&& h.hand_history.turn == h5.hand_history.turn
    &&& h.hand_history.river == h5.hand_history.river
    &&& h.hand_history.chips_change@ == h5.hand_history.chips_change@
    &&& h == (Holdem { player_map: h.player_map, hand_history: h.hand_history, ..h5 })
}

/// The players of a showdown come in increasing order of id.
proof fn lemma_showdown_increasing(h: Holdem, rv: Map<usize, String>, ids: Seq<u64>)
    requires
        crate::keys::strictly_increasing(ids),
        showdown_of(h, rv, ids) is Ok,
    ensures
        ({
            let list = showdown_of(h, rv, ids)->Ok_0;
            &&& forall|a: int, b: int| 0 <= a < b < list.len() ==> list[a].0 < list[b].0
            &&& forall|a: int| 0 <= a < list.len() ==> exists|m: int| 0 <= m < ids.len() && ids[m] == (#[trigger] list[a]).0
        }),
    decreases ids.len(),
{
    if ids.len() > 0 {
        lemma_showdown_increasing(h, rv, ids.drop_last());
        let prev = showdown_of(h, rv, ids.drop_last())->Ok_0;
        let list = showdown_of(h, rv, ids)->Ok_0;
        assert forall|a: int| 0 <= a < prev.len() implies exists|m: int| 0 <= m < ids.len() && ids[m] == (#[trigger] prev[a]).0 by {
            let m = choose|m: int| 0 <= m < ids.drop_last().len() && ids.drop_last()[m] == prev[a].0;
            assert(ids[m] == prev[a].0);
        }
        assert forall|a: int| 0 <= a < prev.len() implies (#[trigger] prev[a]).0 < ids.last() by {
            let m = choose|m: int| 0 <= m < ids.drop_last().len() && ids.drop_last()[m] == prev[a].0;
            assert(ids[m] == prev[a].0);
        }
        if list.len() > prev.len() {
            assert(list == prev.push((ids.last(), list.last().1)));
            assert forall|a: int| 0 <= a < list.len() implies exists|m: int| 0 <= m < ids.len() && ids[m] == (#[trigger] list[a]).0 by {
                if a < prev.len() {
                    assert(list[a] == prev[a]);
                } else {
                    assert(ids[ids.len() - 1] == list[a].0);
                }
            }
            assert forall|a: int, b: int| 0 <= a < b < list.len() implies list[a].0 < list[b].0 by {
                assert(list[a] == prev[a]);
                if b < prev.len() {
                    assert(list[b] == prev[b]);
                }
            }
        }
    }
}

impl Holdem {
    /// The hands of the players at the showdown (all who have not folded,
    /// are not new and have not left), by id, with what the showdown shows.
    fn evaluate_showdown(&self, effect: &Effect) -> (r: Result<(Vec<(u64, Vec<u8>)>, Vec<(u64, Showdown)>), GameError>)
        ensures
            match holdem_showdown(*self, effect.revealed@) {
                Err(e) => r == Err::<(Vec<(u64, Vec<u8>)>, Vec<(u64, Showdown)>), GameError>(e),
                Ok(list) => r matches Ok(x) && {
                    &&& x.0@.len() == list.len()
                    &&& x.1@.len() == list.len()
                    &&& forall|k: int|
                        0 <= k < list.len() ==> (#[trigger] x.0@[k]).0 == list[k].0 && x.0@[k].1@ == seven_card_value(list[k].1)
                            && x.1@[k].0 == list[k].0 && shows_hand(x.1@[k].1, list[k].1)
                    &&& forall|a: int, b: int| 0 <= a < b < list.len() ==> list[a].0 < list[b].0
                },
            },
    {
        let revealed = match effect.get_revealed(self.deck_random_id) {
            Ok(m) => m,
            Err(e) => {
                return Err(e);
            },
        };
        let ghost rv = revealed@;
        let ghost bd = string_views(self.board@);
        let mut board: Vec<&str> = Vec::new();
        let mut b: usize = 0;
        while b < self.board.len()
            invariant
                b <= self.board@.len(),
                board@.len() == b,
                forall|j: int| 0 <= j < b ==> (#[trigger] board@[j])@ == self.board@[j]@,
            decreases self.board@.len() - b,
        {
            board.push(self.board[b].as_str());
            b = b + 1;
        }
        proof {
            assert(views(board@) =~= bd);
        }
        let ids = crate::keys::sorted_keys(&self.hand_index_map);
        let mut hands: Vec<(u64, Vec<u8>)> = Vec::new();
        let mut showdowns: Vec<(u64, Showdown)> = Vec::new();
        let mut i: usize = 0;
        while i < ids.len()
            invariant
                i <= ids@.len(),
                ids@.to_set() == self.hand_index_map@.dom(),
                ids@ == key_seq(self.hand_index_map@),
                rv == revealed@,
                rv == effect.revealed@,
                bd == string_views(self.board@),
                views(board@) == bd,
                showdown_of(*self, rv, ids@.take(i as int)) matches Ok(list) && {
                    &&& hands@.len() == list.len()
                    &&& showdowns@.len() == list.len()
                    &&& forall|k: int|
                        0 <= k < list.len() ==> (#[trigger] hands@[k]).0 == list[k].0 && hands@[k].1@ == seven_card_value(list[k].1)
                            && showdowns@[k].0 == list[k].0 && shows_hand(showdowns@[k].1, list[k].1)
                },
            decreases ids@.len() - i,
        {
            let id = ids[i];
            let ghost prev = showdown_of(*self, rv, ids@.take(i as int))->Ok_0;
            proof {
                assert(ids@.take(i + 1).drop_last() =~= ids@.take(i as int));
                assert(ids@.take(i + 1).last() == id);
                assert(ids@.to_set().contains(id));
            }
            let idxs = match self.hand_index_map.get(&id) {
                Some(v) => v,
                None => {
                    return Err(GameError::InvalidHoleCardsNumber);
                },
            };
            if idxs.len() != 2 {
                proof { lemma_showdown_stops(*self, rv, ids@, i as int); }
                return Err(GameError::InvalidHoleCardsNumber);
            }
            let p = match self.player_map.get(&id) {
                Some(p) => *p,
                None => {
                    proof { lemma_showdown_stops(*self, rv, ids@, i as int); }
                    return Err(GameError::InternalPlayerNotFound);
                },
            };
            if p.status != PlayerStatus::Fold && p.status != PlayerStatus::Init && p.status != PlayerStatus::Leave {
                let c1 = match revealed.get(&idxs[0]) {
                    Some(c) => c,
                    None => {
                        proof { lemma_showdown_stops(*self, rv, ids@, i as int); }
                        return Err(GameError::HoleCardMissing);
                    },
                };
                let c2 = match revealed.get(&idxs[1]) {
                    Some(c) => c,
                    None => {
                        proof { lemma_showdown_stops(*self, rv, ids@, i as int); }
                        return Err(GameError::HoleCardMissing);
                    },
                };
                let mut hole: Vec<&str> = Vec::new();
                hole.push(c1.as_str());
                hole.push(c2.as_str());
                let cards = create_cards(board.as_slice(), hole.as_slice());
                let ghost cv = bd + seq![c1@, c2@];
                proof {
                    crate::card_views::lemma_views_add(board@, hole@);
                    assert(views(hole@) =~= seq![c1@, c2@]);
                    assert(views(cards@) == cv);
                    assert(cards@.len() == views(cards@).len());
                    if valid_cards(cards@) {
                        assert forall|j: int| 0 <= j < cv.len() implies valid_card(#[trigger] cv[j]) by {
                            assert(views(cards@)[j] == cards@[j]@);
                            assert(valid_card(cards@[j]@));
                        }
                    }
                    if forall|j: int| 0 <= j < cv.len() ==> valid_card(#[trigger] cv[j]) {
                        assert forall|j: int| 0 <= j < cards@.len() implies valid_card(#[trigger] cards@[j]@) by {
                            assert(views(cards@)[j] == cards@[j]@);
                            assert(valid_card(cv[j]));
                        }
                    }
                }
                if cards.len() != 7 || !cards_ok(&cards) {
                    proof { lemma_showdown_stops(*self, rv, ids@, i as int); }
                    return Err(GameError::InvalidCards);
                }
                proof {
                    lemma_seven_card_hand(cards@);
                }
                let hand = evaluate_cards(cards);
                let mut hole_cards: Vec<String> = Vec::new();
                hole_cards.push(c1.clone());
                hole_cards.push(c2.clone());
                proof {
                    assert(string_views(hole_cards@) =~= cv.subrange(5, 7));
                    assert(showdown_entry(*self, rv, id) == Ok::<Option<Seq<Seq<char>>>, GameError>(Some(cv)));
                }
                let ghost oh = hands@;
                let ghost os = showdowns@;
                hands.push((id, hand.value));
                showdowns.push((id, Showdown { hole_cards, category: hand.category, picks: hand.picks }));
                proof {
                    let list = prev.push((id, cv));
                    assert(showdown_of(*self, rv, ids@.take(i + 1)) == Ok::<Seq<(u64, Seq<Seq<char>>)>, GameError>(list));
                    assert forall|k: int| 0 <= k < list.len() implies (#[trigger] hands@[k]).0 == list[k].0 && hands@[k].1@
                        == seven_card_value(list[k].1) && showdowns@[k].0 == list[k].0 && shows_hand(showdowns@[k].1, list[k].1) by {
                        if k < prev.len() {
                            assert(list[k] == prev[k]);
                            assert(hands@[k] == oh[k]);
                            assert(showdowns@[k] == os[k]);
                        } else {
                            assert(list[k] == (id, cv));
                            assert(hands@[k].1@ == hand.value@);
                            assert(seven_card_value(cv) == hand.value@);
                        }
                    }
                }
            } else {
                proof {
                    assert(showdown_entry(*self, rv, id) == Ok::<Option<Seq<Seq<char>>>, GameError>(None));
                    assert(showdown_of(*self, rv, ids@.take(i + 1)) == Ok::<Seq<(u64, Seq<Seq<char>>)>, GameError>(prev));
                }
            }
            assert(showdown_of(*self, rv, ids@.take(i + 1)) matches Ok(list) && {
                &&& hands@.len() == list.len()
                &&& showdowns@.len() == list.len()
            });
            i = i + 1;
        }
        proof {
            assert(ids@.take(ids@.len() as int) =~= ids@);
            lemma_showdown_increasing(*self, rv, ids@);
        }
        Ok((hands, showdowns))
    }

    /// Settle a showdown: rank the hands, award the pots to the strongest
    /// hands they are owned by, settle the prizes, show the result, and
    /// record the showdowns.
    #[verifier::rlimit(60)]
    pub fn update_game_result(&mut self, effect: &mut Effect) -> (r: Result<(), GameError>)
        ensures
            *final(effect) == *old(effect),
            r is Ok ==> {
                &&& same_config(*old(self), *final(self))
                &&& final(self).stage == old(self).stage
                &&& final(self).street == old(self).street
                &&& final(self).acting_player == old(self).acting_player
                &&& final(self).hand_history.valid
                &&& all_have_winners(pot_views(final(self).pots@))
            },
            match holdem_showdown(*old(self), old(effect).revealed@) {
                Err(e) => r == Err::<(), GameError>(e) && *final(self) == *old(self),
                Ok(list) => {
                    let ranked = rank_hands(showdown_values(list));
                    let sv = showdown_sets(ranked);
                    let ps = pot_views(old(self).pots@);
                    &&& ranked.len() == 0 ==> r == Err::<(), GameError>(GameError::StrongestHandNotFound) && *final(self)
                        == *old(self)
                    &&& ranked.len() > 0 ==> game_result_ends(*old(self), sv, list, r, *final(self))
                },
            },
    {
        let ghost h0 = *self;
        let ghost rv = effect.revealed@;
        let (hands, showdowns) = match self.evaluate_showdown(effect) {
            Ok(x) => x,
            Err(e) => {
                return Err(e);
            },
        };
        let ghost list = holdem_showdown(h0, rv)->Ok_0;
        let ghost hv = hand_views(hands@);
        proof {
            assert(hv =~= showdown_values(list));
            assert forall|a: int| 0 <= a < list.len() implies (#[trigger] showdowns@[a]).0 == list[a].0 && shows_hand(
                showdowns@[a].1,
                list[a].1,
            ) by {
                assert(hands@[a].0 == list[a].0);
            }
        }
        let ranked = rank_player_hands(hands);
        if ranked.len() == 0 {
            return Err(GameError::StrongestHandNotFound);
        }
        let sets = showdown_winner_sets(&ranked);
        let ghost sv = set_views(sets@);
        proof {
            assert(sv == showdown_sets(rank_hands(showdown_values(list))));
        }
        let award_pots = match self.assign_winners(sets) {
            Ok(a) => a,
            Err(e) => {
                return Err(e);
            },
        };
        let ghost h1 = *self;
        proof {
            let ps = pot_views(self.pots@);
            assert forall|i: int| 0 <= i < ps.len() implies (#[trigger] ps[i]).winners.len() > 0 by {}
        }
        let ghost pots_after = pot_views(self.pots@);
        proof {
            assert(winners_assigned(h0, sv, h1));
        }
        match self.calc_prize() {
            Ok(()) => {},
            Err(e) => {
                proof {
                    assert(prize_error(h1) == Some(e));
                    assert(game_result_ends(h0, sv, list, Err(e), *self));
                }
                return Err(e);
            },
        }
        let ghost h2 = *self;
        proof {
            assert(prize_error(h1) is None);
            assert(prizes_calculated(h1, h2));
        }
        let results = match self.update_player_chips() {
            Ok(m) => m,
            Err(e) => {
                proof {
                    assert(game_result_ends(h0, sv, list, Err(e), *self));
                }
                return Err(e);
            },
        };
        let ghost h3 = *self;
        self.display.push(Display::GameResult { award_pots, player_map: results });
        let ghost h4 = *self;
        proof {
            assert(h4.display@.drop_last() =~= h3.display@);
        }
        proof {
            assert(chips_updated(h2, h3));
            assert(result_shown(h0, sv, h2, h3, h4));
        }
        match self.apply_prize() {
            Ok(()) => {},
            Err(e) => {
                proof {
                    assert(game_result_ends(h0, sv, list, Err(e), *self));
                }
                return Err(e);
            },
        }
        let ghost h5 = *self;
        proof {
            assert(winners_assigned(h0, sv, h1));
            assert(prizes_calculated(h1, h2));
            assert(chips_updated(h2, h3));
            assert(result_shown(h0, sv, h2, h3, h4));
            assert(prize_applied(h4, h5));
            assert(pots_settled(h0, sv, h5));
        }
        self.hand_history.valid = true;
        self.mark_eliminated_players();
        let ghost h6 = *self;
        let ghost all = showdowns@;
        let n_sds = showdowns.len();
        let mut sds = showdowns;
        let mut k: usize = 0;
        while sds.len() > 0
            invariant
                self.hand_history.valid,
                pot_views(self.pots@) == pots_after,
                all_have_winners(pots_after),
                same_config(*old(self), *self),
                self.stage == old(self).stage,
                self.street == old(self).street,
                self.acting_player == old(self).acting_player,
                k <= all.len(),
                all.len() <= usize::MAX,
                all.len() == list.len(),
                sds@ == all.skip(k as int),
                forall|a: int| 0 <= a < list.len() ==> (#[trigger] all[a]).0 == list[a].0 && shows_hand(all[a].1, list[a].1),
                forall|a: int, b: int| 0 <= a < b < list.len() ==> list[a].0 < list[b].0,
                *self == (Holdem { hand_history: self.hand_history, ..h6 }),
                self.hand_history.board@ == h6.hand_history.board@,
                self.hand_history.blinds@ == h6.hand_history.blinds@,
                self.hand_history.preflop == h6.hand_history.preflop,
                self.hand_history.flop == h6.hand_history.flop,
                self.hand_history.turn == h6.hand_history.turn,
                self.hand_history.river == h6.hand_history.river,
                self.hand_history.chips_change@ == h6.hand_history.chips_change@,
                forall|id: u64|
                    #[trigger] self.hand_history.showdowns@.contains_key(id) <==> h6.hand_history.showdowns@.contains_key(id)
                        || exists|a: int| 0 <= a < k && list[a].0 == id,
                forall|id: u64|
                    #[trigger] h6.hand_history.showdowns@.contains_key(id) && !(exists|a: int| 0 <= a < k && list[a].0 == id)
                        ==> self.hand_history.showdowns@[id] == h6.hand_history.showdowns@[id],
                forall|a: int| 0 <= a < k ==> self.hand_history.showdowns@[#[trigger] list[a].0] == all[a].1,
            decreases sds@.len(),
        {
            let ghost before = sds@;
            let (id, sd) = sds.remove(0);
            proof {
                assert(before[0] == all[k as int]);
                assert(sds@ =~= all.skip(k + 1));
            }
            self.hand_history.add_showdown(id, sd);
            proof {
                assert(id == list[k as int].0);
                assert forall|id2: u64|
                    #[trigger] self.hand_history.showdowns@.contains_key(id2) <==> h6.hand_history.showdowns@.contains_key(id2)
                        || exists|a: int| 0 <= a < k + 1 && list[a].0 == id2 by {
                    if id2 == id {
                        assert(list[k as int].0 == id2);
                    }
                }
                assert forall|id2: u64|
                    #[trigger] h6.hand_history.showdowns@.contains_key(id2) && !(exists|a: int| 0 <= a < k + 1 && list[a].0 == id2)
                        implies self.hand_history.showdowns@[id2] == h6.hand_history.showdowns@[id2] by {
                    assert(id2 != list[k as int].0);
                }
                assert forall|a: int| 0 <= a < k + 1 implies self.hand_history.showdowns@[#[trigger] list[a].0] == all[a].1 by {
                    if a < k {
                        assert(list[a].0 < list[k as int].0);
                    }
                }
            }
            k = k + 1;
        }
        proof {
            assert(sds@.len() == 0);
            assert(k == all.len());
            assert forall|a: int| 0 <= a < list.len() implies shows_hand(#[trigger] self.hand_history.showdowns@[list[a].0], list[a].1) by {
                assert(self.hand_history.showdowns@[list[a].0] == all[a].1);
            }
            let base = h5.hand_history.showdowns@;
            assert(base == h6.hand_history.showdowns@);
            assert(self.player_map@ == mapped(h5.player_map@, eliminate_fn()));
            assert(*self == (Holdem { player_map: self.player_map, hand_history: self.hand_history, ..h5 }));
            assert(self.hand_history.chips_change@ == h5.hand_history.chips_change@);
            assert(showdown_recorded(h5, list, *self));
            assert(game_result_ends(h0, sv, list, Ok(()), *self));
        }
        Ok(())
    }
}


/// Why using a time card is refused, if it is: the sender must be the
/// acting player and a player, must have a time card left and must not be
/// using one already.
pub open spec fn time_card_error(h: Holdem, sender: u64) -> Option<GameError> {
    match h.acting_player {
        None => Some(GameError::NotTheActingPlayer),
        Some(a) => if a.id != sender {
            Some(GameError::NotTheActingPlayer)
        } else if !h.player_map@.contains_key(sender) {
            Some(GameError::InvalidPlayer)
        } else if h.player_map@[sender].time_cards == 0 {
            Some(GameError::NoTimeCards)
        } else if a.time_card_clock is Some {
            Some(GameError::TimeCardAlreadyInUse)
        } else {
            None
        },
    }
}

/// The players still able to play a hand: not sitting out nor leaving.
pub open spec fn active_pred(pm: Map<u64, Player>) -> spec_fn(u64) -> bool {
    |id: u64| !(pm[id].status == PlayerStatus::Out || pm[id].status == PlayerStatus::Leave)
}

impl Holdem {
    /// Handle a player's own event: an action, sitting out (which leaves),
    /// using a time card, or sitting back in.
    pub fn handle_custom_event(&mut self, effect: &mut Effect, event: GameEvent, sender: u64) -> (r: Result<
        (),
        GameError,
    >)
        ensures
            same_context(*old(effect), *final(effect)),
            match event {
                GameEvent::SitOut => (r is Ok <==> old(self).player_map@.contains_key(sender)) && (r is Err ==> r
                    == Err::<(), GameError>(GameError::InvalidPlayer)),
                GameEvent::UseTimeCard => {
                    &&& time_card_error(*old(self), sender) matches Some(e) ==> r == Err::<(), GameError>(e)
                    &&& r is Ok ==> (final(self).acting_player matches Some(a) && old(self).acting_player is Some
                        && a.time_card_clock == Some((old(self).acting_player->0.clock + TIME_CARD_EXTRA_SECS * 1000) as u64))
                },
                GameEvent::SitIn => {
                    &&& !old(self).player_map@.contains_key(sender) ==> r == Err::<(), GameError>(
                        GameError::InvalidPlayer,
                    )
                    &&& old(self).player_map@.contains_key(sender) ==> r is Ok && final(self).player_map@ == old(self).player_map@.insert(sender, Player { is_afk: false, ..old(self).player_map@[sender] })
                        && *final(self) == (Holdem { player_map: final(self).player_map, ..*old(self) })
                },
                _ => action_error(*old(self), event, sender) matches Some(e) ==> r == Err::<(), GameError>(e),
            },
            custom_handled(*old(self), *old(effect), event, sender, r, *final(self), *final(effect)),
    {
        match event {
            GameEvent::SitOut => {
                match self.set_player_status(sender, PlayerStatus::Leave) {
                    Ok(()) => {},
                    Err(e) => {
                        return Err(e);
                    },
                }
                let _ = self.handle_player_leave(effect, sender);
                Ok(())
            },
            GameEvent::UseTimeCard => {
                let a = match self.acting_player {
                    Some(a) => a,
                    None => {
                        return Err(GameError::NotTheActingPlayer);
                    },
                };
                if a.id != sender {
                    return Err(GameError::NotTheActingPlayer);
                }
                let p = match self.player_map.get(&sender) {
                    Some(p) => *p,
                    None => {
                        return Err(GameError::InvalidPlayer);
                    },
                };
                if p.time_cards == 0 {
                    return Err(GameError::NoTimeCards);
                }
                if a.time_card_clock.is_some() {
                    return Err(GameError::TimeCardAlreadyInUse);
                }
                if a.clock > u64::MAX - TIME_CARD_EXTRA_SECS * 1000 {
                    return Err(GameError::InternalAmountOverflow);
                }
                let mut a2 = a;
                a2.time_card_clock = Some(a.clock + TIME_CARD_EXTRA_SECS * 1000);
                self.acting_player = Some(a2);
                self.set_action_timeout(effect)
            },
            GameEvent::SitIn => {
                let mut p = match self.player_map.get(&sender) {
                    Some(p) => *p,
                    None => {
                        return Err(GameError::InvalidPlayer);
                    },
                };
                p.is_afk = false;
                self.player_map.insert(sender, p);
                Ok(())
            },
            _ => self.handle_action_event(effect, event, sender),
        }
    }

    /// A player leaves.  Outside a hand (init or settled) they are removed
    /// and paid out at once; while a hand is being settled they are just
    /// marked; during play the game goes on, moves on if they were acting,
    /// or lets the last player win.
    fn handle_player_leave(&mut self, effect: &mut Effect, player_id: u64) -> (r: Result<(), GameError>)
        ensures
            same_context(*old(effect), *final(effect)),
            (old(self).stage == HoldemStage::Init || old(self).stage == HoldemStage::Settle || old(self).stage
                == HoldemStage::Runner || old(self).stage == HoldemStage::Showdown) && !old(self).player_map@.contains_key(
                player_id,
            ) ==> r == Err::<(), GameError>(GameError::InvalidPlayer),
            (old(self).stage == HoldemStage::Runner || old(self).stage == HoldemStage::Showdown)
                && old(self).player_map@.contains_key(player_id) ==> {
                &&& r is Ok
                &&& final(self).player_map@ == old(self).player_map@.insert(
                    player_id,
                    Player { status: PlayerStatus::Leave, ..old(self).player_map@[player_id] },
                )
                &&& *final(self) == (Holdem { player_map: final(self).player_map, ..*old(self) })
                &&& final(effect).actions@ == old(effect).actions@.push(EffectAction::Checkpoint)
            },
            leave_handled(*old(self), *old(effect), player_id, r, *final(self), *final(effect)),
    {
        match self.stage {
            HoldemStage::Init | HoldemStage::Settle => {
                let mut p = match self.player_map.get(&player_id) {
                    Some(p) => *p,
                    None => {
                        return Err(GameError::InvalidPlayer);
                    },
                };
                effect.push(EffectAction::Checkpoint);
                p.status = PlayerStatus::Leave;
                self.player_map.insert(player_id, p);
                if WAIT_TIMEOUT_DEFAULT > u64::MAX - effect.timestamp() {
                    return Err(GameError::InternalAmountOverflow);
                }
                self.wait_timeout(effect, WAIT_TIMEOUT_DEFAULT);
                match self.signal_game_end(effect) {
                    Ok(()) => {},
                    Err(e) => {
                        return Err(e);
                    },
                }
                proof {
                    assert(self.player_map@ == marked_leaving(*old(self), player_id));
                }
                let removed = self.cash_table_kick_players();
                self.pay_out(effect, &removed)
            },
            HoldemStage::Runner | HoldemStage::Showdown => {
                let mut p = match self.player_map.get(&player_id) {
                    Some(p) => *p,
                    None => {
                        return Err(GameError::InvalidPlayer);
                    },
                };
                p.status = PlayerStatus::Leave;
                self.player_map.insert(player_id, p);
                effect.push(EffectAction::Checkpoint);
                Ok(())
            },
            HoldemStage::Play | HoldemStage::ShareKey => {
                let unfolded = self.count_unfolded_players();
                if self.stage == HoldemStage::Play && !self.is_acting_player(player_id) && unfolded > 1 {
                    Ok(())
                } else if self.is_acting_player(player_id) {
                    self.next_state(effect)
                } else if unfolded == 1 {
                    let winner = match self.other_player(player_id) {
                        Some(w) => w,
                        None => {
                            return Err(GameError::SingleWinnerMissing);
                        },
                    };
                    self.stage = HoldemStage::Settle;
                    match self.single_player_win(effect, winner) {
                        Ok(()) => {},
                        Err(e) => {
                            return Err(e);
                        },
                    }
                    self.signal_game_end(effect)
                } else {
                    Ok(())
                }
            },
        }
    }

    /// The first player, by id, other than `player_id`.
    fn other_player(&self, player_id: u64) -> (r: Option<u64>)
        ensures
            r matches Some(w) ==> w != player_id && exists|k: u64| self.player_map@.contains_key(k)
                && self.player_map@[k].id == w,
            r is None ==> forall|k: u64| self.player_map@.contains_key(k) ==> self.player_map@[k].id == player_id,
    {
        let ids = crate::keys::sorted_keys(&self.player_map);
        let ghost pm = self.player_map@;
        let mut i: usize = 0;
        while i < ids.len()
            invariant
                pm == self.player_map@,
                ids@.to_set() == pm.dom(),
                i <= ids@.len(),
                forall|k: int| 0 <= k < i ==> pm[#[trigger] ids@[k]].id == player_id,
            decreases ids@.len() - i,
        {
            let id = ids[i];
            assert(ids@.to_set().contains(id));
            match self.player_map.get(&id) {
                Some(p) => {
                    if p.id != player_id {
                        return Some(p.id);
                    }
                },
                None => {},
            }
            i = i + 1;
        }
        proof {
            assert forall|k: u64| pm.contains_key(k) implies pm[k].id == player_id by {
                assert(ids@.to_set().contains(k));
                let j = choose|j: int| 0 <= j < ids@.len() && ids@[j] == k;
            }
        }
        None
    }

    /// Count the players still able to play a hand.
    fn count_active_players(&self) -> (r: usize)
        ensures
            r == self.ids().filter(active_pred(self.player_map@)).len(),
    {
        let ids = crate::keys::sorted_keys(&self.player_map);
        let ghost pm = self.player_map@;
        let mut n: usize = 0;
        let mut i: usize = 0;
        while i < ids.len()
            invariant
                pm == self.player_map@,
                ids@ == self.ids(),
                ids@.to_set() == pm.dom(),
                i <= ids@.len(),
                n <= i,
                n == ids@.take(i as int).filter(active_pred(pm)).len(),
            decreases ids@.len() - i,
        {
            let id = ids[i];
            proof {
                crate::holdem_evaluator::lemma_filter_take_step(ids@, active_pred(pm), i as int);
                assert(ids@.to_set().contains(id));
            }
            match self.player_map.get(&id) {
                Some(p) => {
                    if !(p.status == PlayerStatus::Out || p.status == PlayerStatus::Leave) {
                        n = n + 1;
                    }
                },
                None => {},
            }
            i = i + 1;
        }
        assert(ids@.take(i as int) =~= ids@);
        n
    }

    /// Start a hand: clear the last one, move deposits into chips, move
    /// the button, and shuffle a deck when at least two players can play.
    pub fn internal_start_game(&mut self, effect: &mut Effect) -> (r: Result<(), GameError>)
        requires
            old(effect).next_random_id < usize::MAX,
        ensures
            final(effect).timestamp == old(effect).timestamp,
            final(effect).nodes_count == old(effect).nodes_count,
            final(effect).revealed@ == old(effect).revealed@,
            timeout_overflows(old(self).player_map@) ==> r == Err::<(), GameError>(GameError::InternalAmountOverflow),
            !timeout_overflows(old(self).player_map@) && old(self).player_map@.dom().is_empty() ==> r == Err::<
                (),
                GameError,
            >(GameError::NextButtonPlayerNotFound),
            !timeout_overflows(old(self).player_map@) && !old(self).player_map@.dom().is_empty() ==> (r is Ok
                <==> old(self).hand_id < usize::MAX),
            r is Err && !timeout_overflows(old(self).player_map@) && !old(self).player_map@.dom().is_empty() ==> r
                == Err::<(), GameError>(GameError::InternalAmountOverflow),
            r is Ok ==> {
                &&& final(self).player_map@ == mapped(
                    mapped(old(self).player_map@, reset_fn()),
                    refill_fn(old(self).max_deposit),
                )
                &&& has_position(final(self).player_map@, final(self).btn as int)
                &&& final(self).hand_id == old(self).hand_id + 1
                &&& final(self).stage == HoldemStage::Init && final(self).street == Street::Init
                &&& final(self).bet_map@.is_empty() && final(self).pots@.len() == 0
                &&& final(self).hand_history.empty()
                &&& (final(self).ids().filter(active_pred(final(self).player_map@)).len() >= 2 ==> final(self).deck_random_id == old(effect).next_random_id && final(effect).actions@ == old(effect).actions@.push(
                    EffectAction::InitDeck { random_id: old(effect).next_random_id },
                ))
                &&& (final(self).ids().filter(active_pred(final(self).player_map@)).len() < 2 ==> final(self).deck_random_id == 0 && *final(effect) == *old(effect))
            },
            start_done(*old(self), *old(effect), r, *final(self), *final(effect)),
    {
        match self.reset_state() {
            Ok(()) => {},
            Err(e) => {
                return Err(e);
            },
        }
        self.fill_player_chips_with_deposits();
        let next_btn = match self.get_next_btn() {
            Ok(b) => b,
            Err(e) => {
                proof {
                    assert(self.player_map@.dom().is_empty());
                    assert(old(self).player_map@.dom() =~= self.player_map@.dom());
                }
                return Err(e);
            },
        };
        self.btn = next_btn;
        if self.hand_id == usize::MAX {
            return Err(GameError::InternalAmountOverflow);
        }
        if self.count_active_players() >= 2 {
            let id = effect.init_deck();
            self.deck_random_id = id;
        }
        self.hand_id = self.hand_id + 1;
        Ok(())
    }
}


/// Whether a game can start: two players and a server.
pub open spec fn can_start(h: Holdem, e: Effect) -> bool {
    h.player_map@.len() >= 2 && e.nodes_count >= 1
}

/// The players after some joined: each at their seat with no chips, new
/// to the table until the next hand.
pub open spec fn joined(pm: Map<u64, Player>, ps: Seq<JoinedPlayer>) -> Map<u64, Player>
    decreases ps.len(),
{
    if ps.len() == 0 {
        pm
    } else {
        let p = ps.last();
        joined(pm, ps.drop_last()).insert(
            p.id,
            Player {
                id: p.id,
                chips: 0,
                position: p.position,
                status: PlayerStatus::Init,
                timeout: 0,
                deposit: 0,
                time_cards: crate::essential::DEFAULT_TIME_CARDS,
                is_afk: false,
            },
        )
    }
}

/// The state of handling deposits, one by one.
pub struct DepositRun {
    pub players: Map<u64, Player>,
    pub actions: Seq<EffectAction>,
    pub err: bool,
}

/// A deposit is accepted, and added to the player's deposit, unless the
/// player is unknown or already holds more than twice the maximum deposit.
pub open spec fn deposit_step(st: DepositRun, max_deposit: u64, d: PlayerDeposit) -> DepositRun {
    if st.err {
        st
    } else if !st.players.contains_key(d.id) {
        DepositRun {
            actions: st.actions.push(EffectAction::RejectDeposit { player_id: d.id, amount: d.balance }),
            ..st
        }
    } else {
        let p = st.players[d.id];
        if p.chips + p.deposit > 2 * max_deposit {
            DepositRun {
                actions: st.actions.push(EffectAction::RejectDeposit { player_id: d.id, amount: d.balance }),
                ..st
            }
        } else if p.deposit + d.balance > u64::MAX {
            DepositRun { err: true, ..st }
        } else {
            DepositRun {
                players: st.players.insert(d.id, Player { deposit: (p.deposit + d.balance) as u64, ..p }),
                actions: st.actions.push(EffectAction::AcceptDeposit { player_id: d.id, amount: d.balance }),
                err: false,
            }
        }
    }
}

/// Handling the deposits in order.
pub open spec fn deposit_run(st: DepositRun, max_deposit: u64, ds: Seq<PlayerDeposit>) -> DepositRun
    decreases ds.len(),
{
    if ds.len() == 0 {
        st
    } else {
        deposit_step(deposit_run(st, max_deposit, ds.drop_last()), max_deposit, ds.last())
    }
}

proof fn lemma_deposit_err(st: DepositRun, max_deposit: u64, ds: Seq<PlayerDeposit>, i: int)
    requires
        0 <= i <= ds.len(),
        deposit_run(st, max_deposit, ds.take(i)).err,
    ensures
        deposit_run(st, max_deposit, ds).err,
    decreases ds.len() - i,
{
    if i < ds.len() {
        assert(ds.take(i + 1).drop_last() =~= ds.take(i));
        lemma_deposit_err(st, max_deposit, ds, i + 1);
    } else {
        assert(ds.take(i) =~= ds);
    }
}

/// The players dealt hole cards: those waiting, each the two cards at
/// twice their place among the players by id.
pub open spec fn dealt(h: Holdem, id: u64) -> bool {
    h.player_map@.contains_key(id) && h.player_map@[id].status == PlayerStatus::Wait
}

/// The hole card indexes of the player at place `j`.
pub open spec fn hole_indexes(j: int) -> Seq<usize> {
    seq![(2 * j) as usize, (2 * j + 1) as usize]
}

impl Holdem {
    /// The acting player did not act in time: count a timeout; a cash
    /// table lets a player who timed out too often leave (folding), other
    /// tables mark them away; otherwise the player checks when they can
    /// and folds when not.
    fn handle_action_timeout(&mut self, effect: &mut Effect, player_id: u64) -> (r: Result<(), GameError>)
        ensures
            same_context(*old(effect), *final(effect)),
            !acting_is(*old(self), player_id) ==> r == Err::<(), GameError>(GameError::NotTheActingPlayer),
            r is Ok ==> same_config(*old(self), *final(self)),
            timeout_handled(*old(self), *old(effect), player_id, r, *final(self), *final(effect)),
    {
        if !self.is_acting_player(player_id) {
            return Err(GameError::NotTheActingPlayer);
        }
        match self.reduce_time_cards(effect) {
            Ok(()) => {},
            Err(e) => {
                assert(timeout_ends(*old(self), *old(effect), player_id, Err(e), *self, *effect));
                return Err(e);
            },
        }
        let ghost hr = *self;
        proof {
            assert(time_cards_reduced(*old(self), *old(effect), hr));
        }
        let mut p = match self.player_map.get(&player_id) {
            Some(p) => *p,
            None => {
                assert(timeout_ends(*old(self), *old(effect), player_id, Err(GameError::InternalPlayerNotFound), *self, *effect));
                return Err(GameError::InternalPlayerNotFound);
            },
        };
        if p.timeout == u8::MAX {
            assert(timeout_ends(*old(self), *old(effect), player_id, Err(GameError::InternalAmountOverflow), *self, *effect));
            return Err(GameError::InternalAmountOverflow);
        }
        p.timeout = p.timeout + 1;
        let street = self.street;
        let cash = self.mode == GameMode::Cash;
        if p.timeout >= MAX_ACTION_TIMEOUT_COUNT {
            if cash {
                p.status = PlayerStatus::Leave;
                self.player_map.insert(player_id, p);
                let fold = PlayerAction::new_fold(player_id);
                let ghost hh = self.hand_history;
                match self.hand_history.add_action(street, fold) {
                    Ok(()) => {},
                    Err(e) => {
                        assert(timeout_ends(*old(self), *old(effect), player_id, Err(e), *self, *effect));
                        return Err(e);
                    },
                }
                proof {
                    assert(action_added(hr.hand_history, self.hand_history, hr.street, fold));
                    assert(timeout_applied(hr, player_id, *self));
                }
                let ghost hm = *self;
                let res = self.next_state(effect);
                assert(timeout_ends(*old(self), *old(effect), player_id, res, *self, *effect));
                return res;
            } else {
                p.is_afk = true;
            }
        }
        if cash && street != Street::Preflop {
            p.timeout = p.timeout + 1;
        }
        self.player_map.insert(player_id, p);
        let bet = self.get_player_bet(player_id);
        if bet == self.street_bet {
            match self.set_player_status(player_id, PlayerStatus::Acted) {
                Ok(()) => {},
                Err(e) => {
                    return Err(e);
                },
            }
            let check = PlayerAction::new_check(player_id);
            match self.hand_history.add_action(street, check) {
                Ok(()) => {},
                Err(e) => {
                    assert(timeout_ends(*old(self), *old(effect), player_id, Err(e), *self, *effect));
                    return Err(e);
                },
            }
            proof {
                assert(action_added(hr.hand_history, self.hand_history, hr.street, check));
            }
        } else {
            match self.set_player_status(player_id, PlayerStatus::Fold) {
                Ok(()) => {},
                Err(e) => {
                    return Err(e);
                },
            }
            let fold = PlayerAction::new_fold(player_id);
            match self.hand_history.add_action(street, fold) {
                Ok(()) => {},
                Err(e) => {
                    assert(timeout_ends(*old(self), *old(effect), player_id, Err(e), *self, *effect));
                    return Err(e);
                },
            }
            proof {
                assert(action_added(hr.hand_history, self.hand_history, hr.street, fold));
            }
        }
        proof {
            assert(self.player_map@ =~= hr.player_map@.insert(
                player_id,
                Player {
                    timeout: (if cash && hr.street != Street::Preflop { hr.player_map@[player_id].timeout + 2 } else { hr.player_map@[player_id].timeout + 1 }) as u8,
                    is_afk: if hr.player_map@[player_id].timeout + 1 >= MAX_ACTION_TIMEOUT_COUNT { true } else { hr.player_map@[player_id].is_afk },
                    status: if bet_of(hr.bet_map@, player_id) == hr.street_bet { PlayerStatus::Acted } else { PlayerStatus::Fold },
                    ..hr.player_map@[player_id]
                },
            ));
            assert(timeout_applied(hr, player_id, *self));
        }
        let ghost hm = *self;
        let res = self.next_state(effect);
        assert(timeout_ends(*old(self), *old(effect), player_id, res, *self, *effect));
        res
    }

    /// Players joined: seat them, new to the table; start a game when
    /// possible, or wait until the next may start.
    fn handle_join(&mut self, effect: &mut Effect, players: Vec<JoinedPlayer>) -> (r: Result<(), GameError>)
        ensures
            r is Ok,
            same_context(*old(effect), *final(effect)),
            final(self).player_map@ == joined(old(self).player_map@, players@),
            *final(self) == (Holdem { player_map: final(self).player_map, ..*old(self) }),
            ({
                let h1 = *final(self);
                let now = old(effect).timestamp;
                final(effect).actions@ == old(effect).actions@ + match old(self).stage {
                    HoldemStage::Init => if can_start(h1, *old(effect)) {
                        seq![EffectAction::StartGame]
                    } else {
                        Seq::empty()
                    },
                    HoldemStage::Runner | HoldemStage::Settle | HoldemStage::Showdown => if h1.next_game_start
                        > now {
                        seq![EffectAction::WaitTimeout { timeout: (h1.next_game_start - now) as u64 }]
                    } else if can_start(h1, *old(effect)) {
                        seq![EffectAction::StartGame]
                    } else {
                        Seq::empty()
                    },
                    _ => Seq::empty(),
                }
            }),
            join_handled(*old(self), *old(effect), players@, r, *final(self), *final(effect)),
    {
        let mut i: usize = 0;
        assert(players@.take(0) =~= Seq::<JoinedPlayer>::empty());
        while i < players.len()
            invariant
                i <= players@.len(),
                self.player_map@ == joined(old(self).player_map@, players@.take(i as int)),
                *self == (Holdem { player_map: self.player_map, ..*old(self) }),
            decreases players@.len() - i,
        {
            let p = players[i];
            assert(players@.take(i + 1).drop_last() =~= players@.take(i as int));
            self.player_map.insert(p.id, Player::init(p.id, 0, p.position, PlayerStatus::Init));
            i = i + 1;
        }
        assert(players@.take(i as int) =~= players@);
        let ghost a0 = effect.actions@;
        let start = self.player_map.len() >= 2 && effect.count_nodes() >= 1;
        match self.stage {
            HoldemStage::Init => {
                if start {
                    effect.push(EffectAction::StartGame);
                }
            },
            HoldemStage::Runner | HoldemStage::Settle | HoldemStage::Showdown => {
                let now = effect.timestamp();
                if self.next_game_start > now {
                    effect.push(EffectAction::WaitTimeout { timeout: self.next_game_start - now });
                } else if start {
                    effect.push(EffectAction::StartGame);
                }
            },
            _ => {},
        }
        proof {
            assert(effect.actions@ =~= a0 + match old(self).stage {
                HoldemStage::Init => if can_start(*self, *old(effect)) {
                    seq![EffectAction::StartGame]
                } else {
                    Seq::empty()
                },
                HoldemStage::Runner | HoldemStage::Settle | HoldemStage::Showdown => if self.next_game_start
                    > old(effect).timestamp {
                    seq![EffectAction::WaitTimeout { timeout: (self.next_game_start - old(effect).timestamp) as u64 }]
                } else if can_start(*self, *old(effect)) {
                    seq![EffectAction::StartGame]
                } else {
                    Seq::empty()
                },
                _ => Seq::empty(),
            });
        }
        Ok(())
    }

    /// Deposits: accepted into the player's deposit unless the player is
    /// unknown or already holds more than twice the maximum deposit.
    fn handle_deposit(&mut self, effect: &mut Effect, deposits: Vec<PlayerDeposit>) -> (r: Result<(), GameError>)
        ensures
            same_context(*old(effect), *final(effect)),
            ({
                let st = deposit_run(
                    DepositRun { players: old(self).player_map@, actions: old(effect).actions@, err: false },
                    old(self).max_deposit,
                    deposits@,
                );
                &&& st.err ==> r == Err::<(), GameError>(GameError::InternalAmountOverflow)
                &&& !st.err ==> r is Ok && final(self).player_map@ == st.players && final(effect).actions@
                    == st.actions && *final(self) == (Holdem { player_map: final(self).player_map, ..*old(self) })
            }),
            deposits_handled(*old(self), *old(effect), deposits@, r, *final(self), *final(effect)),
    {
        let ghost st0 = DepositRun { players: self.player_map@, actions: effect.actions@, err: false };
        let mut i: usize = 0;
        assert(deposits@.take(0) =~= Seq::<PlayerDeposit>::empty());
        while i < deposits.len()
            invariant
                i <= deposits@.len(),
                st0.players == old(self).player_map@ && st0.actions == old(effect).actions@ && !st0.err,
                same_context(*old(effect), *effect),
                ({
                    let st = deposit_run(st0, old(self).max_deposit, deposits@.take(i as int));
                    !st.err && self.player_map@ == st.players && effect.actions@ == st.actions
                }),
                *self == (Holdem { player_map: self.player_map, ..*old(self) }),
            decreases deposits@.len() - i,
        {
            let d = deposits[i];
            proof {
                assert(deposits@.take(i + 1).drop_last() =~= deposits@.take(i as int));
                assert(deposits@.take(i + 1).last() == d);
            }
            match self.player_map.get(&d.id) {
                Some(p) => {
                    let mut p = *p;
                    if (p.chips as u128) + (p.deposit as u128) > 2 * (self.max_deposit as u128) {
                        effect.push(EffectAction::RejectDeposit { player_id: d.id, amount: d.balance });
                    } else {
                        if d.balance > u64::MAX - p.deposit {
                            proof {
                                lemma_deposit_err(st0, old(self).max_deposit, deposits@, i + 1);
                            }
                            return Err(GameError::InternalAmountOverflow);
                        }
                        p.deposit = p.deposit + d.balance;
                        self.player_map.insert(d.id, p);
                        effect.push(EffectAction::AcceptDeposit { player_id: d.id, amount: d.balance });
                    }
                },
                None => {
                    effect.push(EffectAction::RejectDeposit { player_id: d.id, amount: d.balance });
                },
            }
            i = i + 1;
        }
        assert(deposits@.take(i as int) =~= deposits@);
        Ok(())
    }

    /// The deck is shuffled: deal two hole cards to each waiting player,
    /// those at twice their place among the players by id.
    fn handle_randomness_ready(&mut self, effect: &mut Effect) -> (r: Result<(), GameError>)
        ensures
            same_context(*old(effect), *final(effect)),
            r is Ok ==> {
                &&& forall|j: int|
                    0 <= j < old(self).ids().len() && dealt(*old(self), #[trigger] old(self).ids()[j])
                        ==> final(self).hand_index_map@.contains_key(old(self).ids()[j])
                        && final(self).hand_index_map@[old(self).ids()[j]]@ == hole_indexes(j)
                &&& forall|id: u64|
                    #[trigger] final(self).hand_index_map@.contains_key(id) ==> old(self).hand_index_map@.contains_key(id)
                        || dealt(*old(self), id)
                &&& *final(self) == (Holdem { hand_index_map: final(self).hand_index_map, ..*old(self) })
            },
            randomness_handled(*old(self), *old(effect), r, *final(self), *final(effect)),
    {
        let ids = crate::keys::sorted_keys(&self.player_map);
        let ghost h0 = *self;
        assert(effect.actions@.take(effect.actions@.len() as int) =~= effect.actions@);
        let mut i: usize = 0;
        while i < ids.len()
            invariant
                ids@ == h0.ids(),
                ids@.to_set() == h0.player_map@.dom(),
                crate::keys::strictly_increasing(ids@),
                i <= ids@.len(),
                same_context(*old(effect), *effect),
                h0 == *old(self),
                *self == (Holdem { hand_index_map: self.hand_index_map, ..h0 }),
                forall|j: int|
                    0 <= j < i && dealt(h0, #[trigger] ids@[j]) ==> self.hand_index_map@.contains_key(ids@[j])
                        && self.hand_index_map@[ids@[j]]@ == hole_indexes(j),
                forall|id: u64|
                    #[trigger] self.hand_index_map@.contains_key(id) ==> h0.hand_index_map@.contains_key(id) || dealt(
                        h0,
                        id,
                    ),
                forall|id: u64|
                    #[trigger] h0.hand_index_map@.contains_key(id) && !dealt(h0, id) ==> self.hand_index_map@.contains_key(id)
                        && self.hand_index_map@[id] == h0.hand_index_map@[id],
                assigns_pushed(h0, *old(effect), *effect, i as int),
                forall|j: int| 0 <= j < i && dealt(h0, #[trigger] h0.ids()[j]) ==> j <= (usize::MAX - 1) / 2,
            decreases ids@.len() - i,
        {
            let id = ids[i];
            assert(h0.player_map@.dom().contains(id)) by {
                assert(ids@.to_set().contains(id));
            }
            let p = match self.player_map.get(&id) {
                Some(p) => *p,
                None => Player::default(),
            };
            if p.status == PlayerStatus::Wait {
                if i > (usize::MAX - 1) / 2 {
                    assert(dealt(h0, h0.ids()[i as int]));
                    return Err(GameError::InternalAmountOverflow);
                }
                let ghost before = effect.actions@;
                let mut ix: Vec<usize> = Vec::new();
                ix.push(2 * i);
                ix.push(2 * i + 1);
                let ix2 = copy_indexes(&ix);
                effect.push(EffectAction::Assign { random_id: self.deck_random_id, player_id: id, indexes: ix });
                self.hand_index_map.insert(id, ix2);
                proof {
                    assert(ix2@ =~= hole_indexes(i as int));
                    assert(assign_list(h0, i + 1) == assign_list(h0, i as int).push((id, i as int)));
                    assert(effect.actions@.take(old(effect).actions@.len() as int) =~= before.take(old(effect).actions@.len() as int));
                    assert forall|j: int|
                        0 <= j < i + 1 && dealt(h0, #[trigger] ids@[j]) implies self.hand_index_map@.contains_key(ids@[j])
                            && self.hand_index_map@[ids@[j]]@ == hole_indexes(j) by {
                        if j < i {
                            assert(ids@[j] < ids@[i as int]);
                        }
                    }
                }
            } else {
                assert(assign_list(h0, i + 1) == assign_list(h0, i as int));
            }
            i = i + 1;
        }
        Ok(())
    }
}


/// Whether the `k` cards from `n` on are all revealed.
pub open spec fn revealed_from(rev: Map<usize, String>, n: int, k: int) -> bool {
    forall|j: int| 0 <= j < k ==> #[trigger] rev.contains_key((n + j) as usize)
}

/// Copy `k` revealed cards from `n` on, if all are there.
fn read_cards(revealed: &BTreeMap<usize, String>, n: usize, k: usize) -> (r: Option<Vec<String>>)
    requires
        n + k <= usize::MAX,
    ensures
        r is Some <==> revealed_from(revealed@, n as int, k as int),
        r matches Some(v) ==> v@.len() == k && forall|j: int| 0 <= j < k ==> #[trigger] v@[j] == revealed@[(n + j) as usize],
{
    let mut out: Vec<String> = Vec::new();
    let mut j: usize = 0;
    while j < k
        invariant
            n + k <= usize::MAX,
            j <= k,
            out@.len() == j,
            forall|i: int| #![trigger out@[i]] 0 <= i < j ==> revealed@.contains_key((n + i) as usize) && out@[i] == revealed@[(n + i) as usize],
            forall|i: int| #![trigger revealed@.contains_key((n + i) as usize)] 0 <= i < j ==> revealed@.contains_key((n + i) as usize),
        decreases k - j,
    {
        let key: usize = n + j;
        match revealed.get(&key) {
            Some(c) => {
                let ghost before = out@;
                out.push(c.clone());
                proof {
                    assert forall|i: int| 0 <= i < j + 1 implies revealed@.contains_key((n + i) as usize) && #[trigger] out@[i]
                        == revealed@[(n + i) as usize] by {
                        if i < j {
                            assert(out@[i] == before[i]);
                        } else {
                            assert((n + i) as usize == key);
                        }
                    }
                }
            },
            None => {
                proof {
                    assert(!revealed@.contains_key((n + j) as usize));
                }
                return None;
            },
        }
        j = j + 1;
    }
    Some(out)
}

/// What a player's own event does, as `handle_custom_event` states it.
pub open spec fn custom_handled(h0: Holdem, e0: Effect, event: GameEvent, sender: u64, r: Result<(), GameError>, h1: Holdem, e1: Effect) -> bool {
    &&& same_context(e0, e1)
    &&& match event {
        GameEvent::SitOut => (r is Ok <==> h0.player_map@.contains_key(sender)) && (r is Err ==> r
            == Err::<(), GameError>(GameError::InvalidPlayer)),
        GameEvent::UseTimeCard => {
            &&& time_card_error(h0, sender) matches Some(e) ==> r == Err::<(), GameError>(e)
            &&& r is Ok ==> (h1.acting_player matches Some(a) && h0.acting_player is Some
                && a.time_card_clock == Some((h0.acting_player->0.clock + TIME_CARD_EXTRA_SECS * 1000) as u64))
        },
        GameEvent::SitIn => {
            &&& !h0.player_map@.contains_key(sender) ==> r == Err::<(), GameError>(
                GameError::InvalidPlayer,
            )
            &&& h0.player_map@.contains_key(sender) ==> r is Ok && h1.player_map@ == h0.player_map@.insert(sender, Player { is_afk: false, ..h0.player_map@[sender] })
                && h1 == (Holdem { player_map: h1.player_map, ..h0 })
        },
        _ => action_event_ends(h0, e0, event, sender, r, h1, e1),
    }
}

/// How a player's action ends, as `handle_action_event` states it: a
/// refused action leaves the table and the commands as they were; an
/// accepted one is applied and the game moves on.
pub open spec fn action_event_ends(h0: Holdem, e0: Effect, event: GameEvent, sender: u64, r: Result<(), GameError>, h1: Holdem, e1: Effect) -> bool {
    &&& action_error(h0, event, sender) matches Some(e) ==> r == Err::<(), GameError>(e)
    &&& action_error(h0, event, sender) is Some ==> h1 == h0 && e1 == e0
    &&& action_error(h0, event, sender) is None ==> match action_more_error(h0, e0, event, sender) {
        Some(e) => r == Err::<(), GameError>(e),
        None => exists|ha: Holdem|
            #[trigger] action_applied(h0, event, sender, ha) && next_state_ends(ha, e0, r, h1, e1)
                && (next_step(ha) is Blinds ==> exists|hb: Holdem| #[trigger] arranged_state(ha, hb) && blinds_ends(hb, e0, r)),
    }
}

/// What a player's timing out does, as `handle_action_timeout` states it.
pub open spec fn timeout_handled(h0: Holdem, e0: Effect, player_id: u64, r: Result<(), GameError>, h1: Holdem, e1: Effect) -> bool {
    &&& same_context(e0, e1)
    &&& !acting_is(h0, player_id) ==> r == Err::<(), GameError>(GameError::NotTheActingPlayer)
    &&& r is Ok ==> same_config(h0, h1)
    &&& r is Ok ==> exists|hr: Holdem, hm: Holdem|
        #[trigger] time_cards_reduced(h0, e0, hr) && #[trigger] timeout_applied(hr, player_id, hm) && step_done(
            hm,
            h1,
            next_step(hm),
        )
    &&& acting_is(h0, player_id) ==> timeout_ends(h0, e0, player_id, r, h1, e1)
}

/// How the acting player's timeout ends: its time card is used up, one
/// more timeout is counted and the timeout applied, and the game moves
/// on; each step may fail.
pub open spec fn timeout_ends(h0: Holdem, e0: Effect, id: u64, r: Result<(), GameError>, h1: Holdem, e1: Effect) -> bool {
    match time_card_use_error(h0, e0) {
        Some(e) => r == Err::<(), GameError>(e),
        None => exists|hr: Holdem|
            #[trigger] time_cards_reduced(h0, e0, hr) && if !hr.player_map@.contains_key(id) {
                r == Err::<(), GameError>(GameError::InternalPlayerNotFound)
            } else if hr.player_map@[id].timeout == u8::MAX {
                r == Err::<(), GameError>(GameError::InternalAmountOverflow)
            } else if hr.street == Street::Init || hr.street == Street::Showdown {
                r == Err::<(), GameError>(GameError::InternalUnexpectedStreet)
            } else {
                exists|hm: Holdem|
                    #[trigger] timeout_applied(hr, id, hm) && next_state_ends(hm, e0, r, h1, e1) && (next_step(hm) is Blinds
                        ==> exists|hb: Holdem| #[trigger] arranged_state(hm, hb) && blinds_ends(hb, e0, r))
            },
    }
}

/// The acting player's time card is used up when its clock has run out,
/// as `reduce_time_cards` does when it succeeds.
pub open spec fn time_cards_reduced(h0: Holdem, e0: Effect, hr: Holdem) -> bool {
    h0.acting_player matches Some(a) && {
        let used = a.time_card_clock is Some && e0.timestamp > a.clock;
        &&& !used ==> hr == h0
        &&& used ==> {
            &&& h0.player_map@.contains_key(a.id)
            &&& h0.player_map@[a.id].time_cards > 0
            &&& hr.player_map@ == h0.player_map@.insert(
                a.id,
                Player { time_cards: (h0.player_map@[a.id].time_cards - 1) as u8, ..h0.player_map@[a.id] },
            )
            &&& hr == (Holdem { player_map: hr.player_map, ..h0 })
        }
    }
}

/// What a timeout does to player `id` before the game moves on: one more
/// timeout counted; in a cash game a player timed out too often leaves
/// with a fold; otherwise the player checks when the bet is matched and
/// folds when not, is marked away when timed out too often, and in a cash
/// game past the preflop has one more timeout counted.
pub open spec fn timeout_applied(hr: Holdem, id: u64, hm: Holdem) -> bool {
    let p = hr.player_map@[id];
    let t = p.timeout + 1;
    let cash = hr.mode == GameMode::Cash;
    &&& hr.player_map@.contains_key(id)
    &&& p.timeout < u8::MAX
    &&& if t >= MAX_ACTION_TIMEOUT_COUNT && cash {
        &&& hm.player_map@ == hr.player_map@.insert(id, Player { timeout: t as u8, status: PlayerStatus::Leave, ..p })
        &&& exists|a: PlayerAction|
            #[trigger] action_added(hr.hand_history, hm.hand_history, hr.street, a) && a.spec_id() == id
                && a.spec_event() == PlayerActionEvent::Fold
    } else {
        let t2 = if cash && hr.street != Street::Preflop { t + 1 } else { t };
        let checks = bet_of(hr.bet_map@, id) == hr.street_bet;
        &&& hm.player_map@ == hr.player_map@.insert(
            id,
            Player {
                timeout: t2 as u8,
                is_afk: if t >= MAX_ACTION_TIMEOUT_COUNT { true } else { p.is_afk },
                status: if checks { PlayerStatus::Acted } else { PlayerStatus::Fold },
                ..p
            },
        )
        &&& exists|a: PlayerAction|
            #[trigger] action_added(hr.hand_history, hm.hand_history, hr.street, a) && a.spec_id() == id
                && a.spec_event() == (if checks { PlayerActionEvent::Check } else { PlayerActionEvent::Fold })
    }
    &&& hm == (Holdem { player_map: hm.player_map, hand_history: hm.hand_history, ..hr })
}

/// What settling a hand does, as `settle` states it.
pub open spec fn settled(h0: Holdem, e0: Effect, r: Result<(), GameError>, h1: Holdem, e1: Effect) -> bool {
    &&& same_context(e0, e1)
    &&& payout_overflows(kicked(h0)) ==> r == Err::<(), GameError>(GameError::InternalAmountOverflow)
    &&& r is Ok ==> {
        &&& settled_actions(h0, e0, e1)
        &&& h0.mode != crate::essential::GameMode::Cash ==> h1.player_map@ == h0.player_map@
        &&& h0.mode == crate::essential::GameMode::Cash ==> h1.player_map@ == mapped(
            kept_players(h0),
            reset_fn(),
        )
    }
}

/// What starting a hand does, as `internal_start_game` states it.
pub open spec fn start_done(h0: Holdem, e0: Effect, r: Result<(), GameError>, h1: Holdem, e1: Effect) -> bool {
    &&& e1.timestamp == e0.timestamp
    &&& e1.nodes_count == e0.nodes_count
    &&& e1.revealed@ == e0.revealed@
    &&& timeout_overflows(h0.player_map@) ==> r == Err::<(), GameError>(GameError::InternalAmountOverflow)
    &&& !timeout_overflows(h0.player_map@) && h0.player_map@.dom().is_empty() ==> r == Err::<
        (),
        GameError,
    >(GameError::NextButtonPlayerNotFound)
    &&& !timeout_overflows(h0.player_map@) && !h0.player_map@.dom().is_empty() ==> (r is Ok <==> h0.hand_id < usize::MAX)
    &&& r is Err && !timeout_overflows(h0.player_map@) && !h0.player_map@.dom().is_empty() ==> r == Err::<
        (),
        GameError,
    >(GameError::InternalAmountOverflow)
    &&& r is Ok ==> {
        &&& h1.player_map@ == mapped(
            mapped(h0.player_map@, reset_fn()),
            refill_fn(h0.max_deposit),
        )
        &&& has_position(h1.player_map@, h1.btn as int)
        &&& h1.hand_id == h0.hand_id + 1
        &&& h1.stage == HoldemStage::Init && h1.street == Street::Init
        &&& h1.bet_map@.is_empty() && h1.pots@.len() == 0
        &&& h1.hand_history.empty()
        &&& (h1.ids().filter(active_pred(h1.player_map@)).len() >= 2 ==> h1.deck_random_id == e0.next_random_id && e1.actions@ == e0.actions@.push(
            EffectAction::InitDeck { random_id: e0.next_random_id },
        ))
        &&& (h1.ids().filter(active_pred(h1.player_map@)).len() < 2 ==> h1.deck_random_id == 0 && e1 == e0)
    }
}

/// The players once `player_id` is marked as leaving.
pub open spec fn marked_leaving(h0: Holdem, player_id: u64) -> Map<u64, Player> {
    h0.player_map@.insert(player_id, Player { status: PlayerStatus::Leave, ..h0.player_map@[player_id] })
}

/// What a player's leaving does between hands (`Init` or `Settle`): the
/// player is marked as leaving, the next game waits the default time, the
/// hand is cleared, and on a cash table every leaving player is paid out
/// and removed.
pub open spec fn leave_between_hands(h0: Holdem, e0: Effect, player_id: u64, r: Result<(), GameError>, h1: Holdem, e1: Effect) -> bool {
    let pm = marked_leaving(h0, player_id);
    &&& e0.timestamp + WAIT_TIMEOUT_DEFAULT > u64::MAX ==> r == Err::<(), GameError>(GameError::InternalAmountOverflow)
    &&& e0.timestamp + WAIT_TIMEOUT_DEFAULT <= u64::MAX && payout_overflows(kicked_from(h0.mode, pm)) ==> r == Err::<
        (),
        GameError,
    >(GameError::InternalAmountOverflow)
    &&& e0.timestamp + WAIT_TIMEOUT_DEFAULT <= u64::MAX && !payout_overflows(kicked_from(h0.mode, pm)) ==> {
        &&& r is Ok
        &&& h1.player_map@ == kept_from(h0.mode, pm)
        &&& h1 == (Holdem {
            player_map: h1.player_map,
            next_game_start: (e0.timestamp + WAIT_TIMEOUT_DEFAULT) as u64,
            street_bet: 0,
            min_raise: 0,
            acting_player: None,
            ..h0
        })
        &&& e1.actions@ == e0.actions@.push(EffectAction::Checkpoint).push(
            EffectAction::WaitTimeout { timeout: WAIT_TIMEOUT_DEFAULT },
        ).push(EffectAction::CancelDispatch) + kick_actions(kicked_from(h0.mode, pm))
    }
}

/// What a player's leaving does, as `handle_player_leave` states it.
pub open spec fn leave_handled(h0: Holdem, e0: Effect, player_id: u64, r: Result<(), GameError>, h1: Holdem, e1: Effect) -> bool {
    &&& same_context(e0, e1)
    &&& (h0.stage == HoldemStage::Init || h0.stage == HoldemStage::Settle) && h0.player_map@.contains_key(player_id)
        ==> leave_between_hands(h0, e0, player_id, r, h1, e1)
    &&& (h0.stage == HoldemStage::Init || h0.stage == HoldemStage::Settle || h0.stage
        == HoldemStage::Runner || h0.stage == HoldemStage::Showdown) && !h0.player_map@.contains_key(
        player_id,
    ) ==> r == Err::<(), GameError>(GameError::InvalidPlayer)
    &&& (h0.stage == HoldemStage::Runner || h0.stage == HoldemStage::Showdown)
        && h0.player_map@.contains_key(player_id) ==> {
        &&& r is Ok
        &&& h1.player_map@ == h0.player_map@.insert(
            player_id,
            Player { status: PlayerStatus::Leave, ..h0.player_map@[player_id] },
        )
        &&& h1 == (Holdem { player_map: h1.player_map, ..h0 })
        &&& e1.actions@ == e0.actions@.push(EffectAction::Checkpoint)
    }
}

/// What a shuffled deck does, as `handle_randomness_ready` states it.
pub open spec fn randomness_handled(h0: Holdem, e0: Effect, r: Result<(), GameError>, h1: Holdem, e1: Effect) -> bool {
    &&& same_context(e0, e1)
    &&& r is Ok ==> {
        &&& forall|j: int|
            0 <= j < h0.ids().len() && dealt(h0, #[trigger] h0.ids()[j])
                ==> h1.hand_index_map@.contains_key(h0.ids()[j])
                && h1.hand_index_map@[h0.ids()[j]]@ == hole_indexes(j)
        &&& forall|id: u64|
            #[trigger] h1.hand_index_map@.contains_key(id) ==> h0.hand_index_map@.contains_key(id)
                || dealt(h0, id)
        &&& h1 == (Holdem { hand_index_map: h1.hand_index_map, ..h0 })
        &&& forall|id: u64|
            #[trigger] h0.hand_index_map@.contains_key(id) && !dealt(h0, id) ==> h1.hand_index_map@.contains_key(id)
                && h1.hand_index_map@[id] == h0.hand_index_map@[id]
        &&& assigns_pushed(h0, e0, e1, h0.ids().len() as int)
    }
    &&& r is Err <==> exists|j: int| 0 <= j < h0.ids().len() && dealt(h0, #[trigger] h0.ids()[j]) && j > (usize::MAX - 1) / 2
    &&& r is Err ==> r == Err::<(), GameError>(GameError::InternalAmountOverflow)
}

/// The players among the first `n` of `h` (by id) who are dealt cards,
/// each with their place.
pub open spec fn assign_list(h: Holdem, n: int) -> Seq<(u64, int)>
    decreases n,
{
    if n <= 0 {
        Seq::empty()
    } else if dealt(h, h.ids()[n - 1]) {
        assign_list(h, n - 1).push((h.ids()[n - 1], n - 1))
    } else {
        assign_list(h, n - 1)
    }
}

/// `e1` is `e0` with one assignment of hole cards of the deck of `h` for
/// each player dealt cards among the first `n`, in order.
pub open spec fn assigns_pushed(h: Holdem, e0: Effect, e1: Effect, n: int) -> bool {
    let al = assign_list(h, n);
    let n0 = e0.actions@.len() as int;
    &&& e1.actions@.len() == n0 + al.len()
    &&& e1.actions@.take(n0) == e0.actions@
    &&& forall|k: int|
        0 <= k < al.len() ==> (#[trigger] e1.actions@[n0 + k] matches EffectAction::Assign { random_id, player_id, indexes }
            && random_id == h.deck_random_id && player_id == al[k].0 && indexes@ == hole_indexes(al[k].1))
}

/// What shared secrets do, as `handle_secrets_ready` states it.
pub open spec fn secrets_handled(h0: Holdem, e0: Effect, r: Result<(), GameError>, h1: Holdem, e1: Effect) -> bool {
    &&& same_context(e0, e1)
    &&& r is Ok ==> same_config(h0, h1)
    &&& h0.stage == HoldemStage::Showdown ==> showdown_settled(h0, e0, r, h1, e1)
    &&& h0.stage == HoldemStage::ShareKey ==> keys_shared(h0, e0, r, h1)
    &&& h0.stage == HoldemStage::Init ==> (h0.street == Street::Init ==> (r is Ok ==> step_done(
        Holdem { street: Street::Preflop, stage: HoldemStage::Play, ..h0 },
        h1,
        next_step(Holdem { street: Street::Preflop, stage: HoldemStage::Play, ..h0 }),
    ))) && (h0.street != Street::Init ==> r is Ok && h1 == h0)
    &&& h0.stage == HoldemStage::Runner && h0.street == Street::Showdown ==> {
        let n = 2 * ingame_count(h0);
        &&& n + 5 > usize::MAX ==> r == Err::<(), GameError>(GameError::InternalAmountOverflow)
        &&& n + 5 <= usize::MAX && board_from(e0.revealed@, n) is None ==> r == Err::<(), GameError>(
            GameError::InternalFailedToRevealBoard,
        )
        &&& n + 5 <= usize::MAX && board_from(e0.revealed@, n) is Some ==> exists|hd: Holdem|
            #[trigger] runner_dealt(h0, e0, hd) && showdown_settled(hd, e0, r, h1, e1)
    }
    &&& h0.stage == HoldemStage::Init && h0.street == Street::Init ==> dealt_hand_starts(
        Holdem { street: Street::Preflop, stage: HoldemStage::Play, ..h0 },
        e0,
        r,
        h1,
        e1,
    )
}

/// The table once the runner has dealt the rest of the board from the
/// revealed cards, shown as dealt unless the board was complete.
pub open spec fn runner_dealt(h0: Holdem, e0: Effect, hd: Holdem) -> bool {
    let n = 2 * ingame_count(h0);
    let prev = h0.board@.len();
    &&& board_from(e0.revealed@, n) matches Some(b)
    &&& hd.board@ == b
    &&& hd.hand_history.board@ == b
    &&& hd.hand_history.valid == h0.hand_history.valid
    &&& hd.hand_history.blinds@ == h0.hand_history.blinds@
    &&& hd.hand_history.preflop == h0.hand_history.preflop
    &&& hd.hand_history.flop == h0.hand_history.flop
    &&& hd.hand_history.turn == h0.hand_history.turn
    &&& hd.hand_history.river == h0.hand_history.river
    &&& hd.hand_history.showdowns@ == h0.hand_history.showdowns@
    &&& hd.hand_history.chips_change@ == h0.hand_history.chips_change@
    &&& prev == 5 ==> hd.display@ == h0.display@
    &&& prev != 5 ==> {
        &&& hd.display@.len() == h0.display@.len() + 1
        &&& hd.display@.drop_last() == h0.display@
        &&& hd.display@.last() matches Display::DealBoard { prev: p, board } && p == prev && board@ == hd.board@
    }
    &&& hd == (Holdem { board: hd.board, hand_history: hd.hand_history, display: hd.display, ..h0 })
}

/// How the first street of a dealt hand starts, as `next_state` states it.
pub open spec fn dealt_hand_starts(hp: Holdem, e0: Effect, r: Result<(), GameError>, h1: Holdem, e1: Effect) -> bool {
    &&& next_state_ends(hp, e0, r, h1, e1)
    &&& next_step(hp) is Blinds ==> exists|hb: Holdem| #[trigger] arranged_state(hp, hb) && blinds_ends(hb, e0, r)
}

/// `hm` is `h0` at play with `k` more board cards, the revealed cards from
/// `from` on, recorded in the hand history, and shown, but for the river
/// (`river`) of a board that was already complete.
pub open spec fn board_dealt(h0: Holdem, rv: Map<usize, String>, from: int, k: int, river: bool, hm: Holdem) -> bool {
    let shown = !river || h0.board@.len() != 5;
    &&& revealed_from(rv, from, k)
    &&& hm.board@ == h0.board@ + Seq::new(k as nat, |j: int| rv[(from + j) as usize])
    &&& hm.hand_history.board@ == hm.board@
    &&& hm.hand_history.valid == h0.hand_history.valid
    &&& hm.hand_history.blinds@ == h0.hand_history.blinds@
    &&& hm.hand_history.preflop == h0.hand_history.preflop
    &&& hm.hand_history.flop == h0.hand_history.flop
    &&& hm.hand_history.turn == h0.hand_history.turn
    &&& hm.hand_history.river == h0.hand_history.river
    &&& hm.hand_history.showdowns@ == h0.hand_history.showdowns@
    &&& hm.hand_history.chips_change@ == h0.hand_history.chips_change@
    &&& shown ==> hm.display@.len() == h0.display@.len() + 1 && hm.display@.drop_last() == h0.display@
        && (hm.display@.last() matches Display::DealBoard { prev, board } && prev == h0.board@.len() && board@ == hm.board@)
    &&& !shown ==> hm.display@ == h0.display@
    &&& hm == (Holdem {
        board: hm.board,
        display: hm.display,
        hand_history: hm.hand_history,
        stage: HoldemStage::Play,
        ..h0
    })
}

/// `hm` is `h0` at play.
pub open spec fn started_play(h0: Holdem, hm: Holdem) -> bool {
    hm == (Holdem { stage: HoldemStage::Play, ..h0 })
}

/// Sharing the keys of a street: the board cards of the street are dealt
/// from the revealed cards after the hole cards of the players in game,
/// and the game moves on.
pub open spec fn keys_shared(h0: Holdem, e0: Effect, r: Result<(), GameError>, h1: Holdem) -> bool {
    let n = 2 * ingame_count(h0);
    let rv = e0.revealed@;
    let hp = Holdem { stage: HoldemStage::Play, ..h0 };
    &&& ingame_count(h0) > (usize::MAX - 5) / 2 ==> r == Err::<(), GameError>(GameError::InternalAmountOverflow)
    &&& ingame_count(h0) <= (usize::MAX - 5) / 2 ==> match h0.street {
        Street::Preflop => r is Ok ==> exists|hm: Holdem| #[trigger] started_play(h0, hm) && step_done(hm, h1, next_step(hm)),
        Street::Flop => {
            &&& !revealed_from(rv, n, 3) ==> r == Err::<(), GameError>(GameError::FlopCardsError)
            &&& r is Ok ==> exists|hm: Holdem| #[trigger] board_dealt(h0, rv, n, 3, false, hm) && step_done(hm, h1, next_step(hm))
        },
        Street::Turn => {
            &&& !revealed_from(rv, n + 3, 1) ==> r == Err::<(), GameError>(GameError::TurnCardError)
            &&& r is Ok ==> exists|hm: Holdem| #[trigger] board_dealt(h0, rv, n + 3, 1, false, hm) && step_done(hm, h1, next_step(hm))
        },
        Street::River => {
            &&& !revealed_from(rv, n + 4, 1) ==> r == Err::<(), GameError>(GameError::RiverCardError)
            &&& r is Ok ==> exists|hm: Holdem| #[trigger] board_dealt(h0, rv, n + 4, 1, true, hm) && step_done(hm, h1, next_step(hm))
        },
        _ => r is Ok && h1 == hp,
    }
}

/// Settling a showdown: the hands are evaluated and ranked, the pots
/// settled and the showdowns recorded, as `update_game_result` states it,
/// and then the game waits.
pub open spec fn showdown_settled(h0: Holdem, e0: Effect, r: Result<(), GameError>, h1: Holdem, e1: Effect) -> bool {
    match holdem_showdown(h0, e0.revealed@) {
        Err(e) => r == Err::<(), GameError>(e),
        Ok(list) => {
            let ranked = rank_hands(showdown_values(list));
            let sv = showdown_sets(ranked);
            let ps = pot_views(h0.pots@);
            &&& ranked.len() == 0 ==> r == Err::<(), GameError>(GameError::StrongestHandNotFound)
            &&& ranked.len() > 0 ==> exists|rg: Result<(), GameError>, hr: Holdem|
                #[trigger] game_result_ends(h0, sv, list, rg, hr) && (rg is Err ==> r == rg) && (rg is Ok
                    ==> settle_waited(hr, e0, r, h1, e1) && (r is Ok ==> h1 == (Holdem { next_game_start: h1.next_game_start, ..hr })))
        },
    }
}

/// What joining players do, as `handle_join` states it.
pub open spec fn join_handled(h0: Holdem, e0: Effect, players: Seq<JoinedPlayer>, r: Result<(), GameError>, h1: Holdem, e1: Effect) -> bool {
    &&& r is Ok
    &&& same_context(e0, e1)
    &&& h1.player_map@ == joined(h0.player_map@, players)
    &&& h1 == (Holdem { player_map: h1.player_map, ..h0 })
    &&& ({
        let h1 = h1;
        let now = e0.timestamp;
        e1.actions@ == e0.actions@ + match h0.stage {
            HoldemStage::Init => if can_start(h1, e0) {
                seq![EffectAction::StartGame]
            } else {
                Seq::empty()
            },
            HoldemStage::Runner | HoldemStage::Settle | HoldemStage::Showdown => if h1.next_game_start
                > now {
                seq![EffectAction::WaitTimeout { timeout: (h1.next_game_start - now) as u64 }]
            } else if can_start(h1, e0) {
                seq![EffectAction::StartGame]
            } else {
                Seq::empty()
            },
            _ => Seq::empty(),
        }
    })
}

/// What deposits do, as `handle_deposit` states it.
pub open spec fn deposits_handled(h0: Holdem, e0: Effect, deposits: Seq<PlayerDeposit>, r: Result<(), GameError>, h1: Holdem, e1: Effect) -> bool {
    &&& same_context(e0, e1)
    &&& ({
        let st = deposit_run(
            DepositRun { players: h0.player_map@, actions: e0.actions@, err: false },
            h0.max_deposit,
            deposits,
        );
        &&& st.err ==> r == Err::<(), GameError>(GameError::InternalAmountOverflow)
        &&& !st.err ==> r is Ok && h1.player_map@ == st.players && e1.actions@
            == st.actions && h1 == (Holdem { player_map: h1.player_map, ..h0 })
    })
}

/// The table's state with its display emptied.
pub open spec fn cleared(h0: Holdem, h1: Holdem) -> bool {
    h1.display@.len() == 0 && h1 == (Holdem { display: h1.display, ..h0 })
}

/// Player `id`'s entry changed to `p`, nothing else.
pub open spec fn player_set(h0: Holdem, h1: Holdem, id: u64, p: Player) -> bool {
    h1.player_map@ == h0.player_map@.insert(id, p) && h1 == (Holdem { player_map: h1.player_map, ..h0 })
}

/// What handling an event does, step by step: the display is emptied
/// (`hc`); then a player's own event resets the player's timeouts (`hm`)
/// and is handled; a wait's end settles the hand (`hm`, `em`) and starts
/// the next one when two players and a server are there, outside
/// tournaments; a player who leaves is marked so (`hm`) and leaves (with
/// the result `rl`, which is not passed on); the other events are handled
/// by their own steps.
pub open spec fn event_handled(
    h0: Holdem,
    e0: Effect,
    event: Event,
    r: Result<(), GameError>,
    h1: Holdem,
    e1: Effect,
    hc: Holdem,
    hm: Holdem,
    em: Effect,
    rl: Result<(), GameError>,
) -> bool {
    &&& cleared(h0, hc)
    &&& match event {
        Event::Custom { sender, event: ge } => if !hc.player_map@.contains_key(sender) {
            r == Err::<(), GameError>(GameError::InvalidPlayer)
        } else {
            &&& player_set(hc, hm, sender, Player { timeout: 0, ..hc.player_map@[sender] })
            &&& custom_handled(hm, e0, ge, sender, r, h1, e1)
        },
        Event::ActionTimeout { player_id } => timeout_handled(hc, e0, player_id, r, h1, e1),
        Event::WaitingTimeout => {
            &&& settled(hc, e0, r, hm, em)
            &&& r is Ok ==> {
                &&& h1 == hm && same_context(em, e1) && e1.next_sub_game_id == em.next_sub_game_id
                &&& e1.actions@ == em.actions@ + if hm.player_map@.len() >= 2 && em.nodes_count >= 1 && hm.mode != GameMode::Mtt {
                    seq![EffectAction::StartGame]
                } else {
                    Seq::empty()
                }
            }
        },
        Event::Ready => {
            &&& r is Ok && h1 == hc && same_context(e0, e1) && e1.next_sub_game_id == e0.next_sub_game_id
            &&& e1.actions@ == e0.actions@ + if can_start(h0, e0) {
                seq![EffectAction::StartGame]
            } else {
                Seq::empty()
            }
        },
        Event::Join { players } => join_handled(hc, e0, players@, r, h1, e1),
        Event::Deposit { deposits } => deposits_handled(hc, e0, deposits@, r, h1, e1),
        Event::GameStart => start_done(hc, e0, r, h1, e1),
        Event::Leave { player_id } => if !hc.player_map@.contains_key(player_id) {
            r == Err::<(), GameError>(GameError::InvalidPlayer)
        } else {
            &&& r is Ok
            &&& player_set(hc, hm, player_id, Player { status: PlayerStatus::Leave, ..hc.player_map@[player_id] })
            &&& leave_handled(hm, e0, player_id, rl, h1, e1)
        },
        Event::RandomnessReady => randomness_handled(hc, e0, r, h1, e1),
        Event::SecretsReady => secrets_handled(hc, e0, r, h1, e1),
        _ => r is Ok && h1 == hc && e1 == e0,
    }
}

impl Holdem {
    /// The secrets are shared: deal the board cards of the street (or start
    /// the hand, or settle a runner or a showdown) and move the game on.
    /// The keys of a street are shared: deal its board cards from the
    /// revealed cards after the players' hole cards, and move the game on.
    #[verifier::spinoff_prover]
    fn share_keys(&mut self, effect: &mut Effect) -> (r: Result<(), GameError>)
        requires
            old(self).stage == HoldemStage::ShareKey,
        ensures
            same_context(*old(effect), *final(effect)),
            r is Ok ==> same_config(*old(self), *final(self)),
            keys_shared(*old(self), *old(effect), r, *final(self)),
    {
        let ghost h0 = *self;
        let ghost rv = effect.revealed@;
        let cnt = self.count_ingame_players();
        assert(cnt == ingame_count(h0));
        if cnt > (usize::MAX - 5) / 2 {
            return Err(GameError::InternalAmountOverflow);
        }
        let n = cnt * 2;
        let prev = self.board.len();
        self.stage = HoldemStage::Play;
        let ghost hp = *self;
        assert(hp == (Holdem { stage: HoldemStage::Play, ..h0 }));
        match self.street {
            Street::Preflop => {
                let res = self.next_state(effect);
                proof {
                    assert(started_play(h0, hp));
                    assert(res is Ok ==> step_done(hp, *self, next_step(hp)));
                }
                return res;
            },
            Street::Flop => {
                let cards = match effect.get_revealed(self.deck_random_id) {
                    Ok(m) => read_cards(m, n, 3),
                    Err(e) => {
                        return Err(e);
                    },
                };
                let cards = match cards {
                    Some(c) => c,
                    None => {
                        return Err(GameError::FlopCardsError);
                    },
                };
                let mut k: usize = 0;
                while k < cards.len()
                    invariant
                        k <= cards@.len(),
                        same_config(*old(self), *self),
                        self.board@ == hp.board@ + cards@.take(k as int),
                        *self == (Holdem { board: self.board, ..hp }),
                    decreases cards@.len() - k,
                {
                    self.board.push(cards[k].clone());
                    proof {
                        assert(cards@.take(k + 1) =~= cards@.take(k as int).push(cards@[k as int]));
                    }
                    k = k + 1;
                }
                self.display.push(Display::DealBoard { prev, board: copy_strings(&self.board) });
                let b = copy_strings(&self.board);
                self.hand_history.set_board(b);
                proof {
                    assert(cards@.take(3) =~= cards@);
                    assert(cards@ =~= Seq::new(3nat, |j: int| rv[(n + j) as usize]));
                    assert(self.display@.drop_last() =~= h0.display@);
                    assert(board_dealt(h0, rv, 2 * ingame_count(h0), 3, false, *self));
                }
                let res = self.next_state(effect);
                proof {
                    assert(res is Ok ==> exists|x: Holdem| #[trigger] board_dealt(h0, rv, 2 * ingame_count(h0), 3, false, x) && step_done(x, *self, next_step(x)));
                }
                return res;
            },
            Street::Turn => {
                let cards = match effect.get_revealed(self.deck_random_id) {
                    Ok(m) => read_cards(m, n + 3, 1),
                    Err(e) => {
                        return Err(e);
                    },
                };
                let cards = match cards {
                    Some(c) => c,
                    None => {
                        return Err(GameError::TurnCardError);
                    },
                };
                self.board.push(cards[0].clone());
                self.display.push(Display::DealBoard { prev, board: copy_strings(&self.board) });
                let b = copy_strings(&self.board);
                self.hand_history.set_board(b);
                proof {
                    assert(self.board@ =~= h0.board@ + Seq::new(1nat, |j: int| rv[(n + 3 + j) as usize]));
                    assert(self.display@.drop_last() =~= h0.display@);
                    assert(board_dealt(h0, rv, 2 * ingame_count(h0) + 3, 1, false, *self));
                }
                let res = self.next_state(effect);
                proof {
                    assert(res is Ok ==> exists|x: Holdem| #[trigger] board_dealt(h0, rv, 2 * ingame_count(h0) + 3, 1, false, x) && step_done(x, *self, next_step(x)));
                }
                return res;
            },
            Street::River => {
                let cards = match effect.get_revealed(self.deck_random_id) {
                    Ok(m) => read_cards(m, n + 4, 1),
                    Err(e) => {
                        return Err(e);
                    },
                };
                let cards = match cards {
                    Some(c) => c,
                    None => {
                        return Err(GameError::RiverCardError);
                    },
                };
                self.board.push(cards[0].clone());
                if prev != 5 {
                    self.display.push(Display::DealBoard { prev, board: copy_strings(&self.board) });
                    proof {
                        assert(self.display@.drop_last() =~= h0.display@);
                    }
                }
                let b = copy_strings(&self.board);
                self.hand_history.set_board(b);
                proof {
                    assert(self.board@ =~= h0.board@ + Seq::new(1nat, |j: int| rv[(n + 4 + j) as usize]));
                    assert(board_dealt(h0, rv, 2 * ingame_count(h0) + 4, 1, true, *self));
                }
                let res = self.next_state(effect);
                proof {
                    assert(res is Ok ==> exists|x: Holdem| #[trigger] board_dealt(h0, rv, 2 * ingame_count(h0) + 4, 1, true, x) && step_done(x, *self, next_step(x)));
                }
                return res;
            },
            _ => Ok(()),
        }
    }

    #[verifier::rlimit(60)]
    fn handle_secrets_ready(&mut self, effect: &mut Effect) -> (r: Result<(), GameError>)
        ensures
            same_context(*old(effect), *final(effect)),
            r is Ok ==> same_config(*old(self), *final(self)),
            secrets_handled(*old(self), *old(effect), r, *final(self), *final(effect)),
    {
        match self.stage {
            HoldemStage::ShareKey => self.share_keys(effect),
            HoldemStage::Init => {
                match self.street {
                    Street::Init => {
                        self.street = Street::Preflop;
                        self.stage = HoldemStage::Play;
                        self.next_state(effect)
                    },
                    _ => Ok(()),
                }
            },
            HoldemStage::Runner => {
                let prev = self.board.len();
                match self.update_board(effect) {
                    Ok(()) => {},
                    Err(e) => {
                        return Err(e);
                    },
                }
                if prev != 5 {
                    self.display.push(Display::DealBoard { prev, board: copy_strings(&self.board) });
                }
                let ghost hd = *self;
                proof {
                    if old(self).street == Street::Showdown {
                        let n = 2 * ingame_count(*old(self));
                        assert(board_from(old(effect).revealed@, n) is Some);
                        assert(hd.board@ == board_from(old(effect).revealed@, n)->0);
                        assert(prev == 5 ==> hd.display@ == old(self).display@);
                        assert(prev != 5 ==> hd.display@.drop_last() == old(self).display@);
                        assert(hd == (Holdem { board: hd.board, hand_history: hd.hand_history, display: hd.display, ..*old(self) }));
                        assert(runner_dealt(*old(self), *old(effect), hd));
                    }
                }
                let rg = self.update_game_result(effect);
                match rg {
                    Ok(()) => {},
                    Err(e) => {
                        return Err(e);
                    },
                }
                self.wait_after_settle(effect)
            },
            HoldemStage::Showdown => {
                match self.update_game_result(effect) {
                    Ok(()) => {},
                    Err(e) => {
                        return Err(e);
                    },
                }
                self.wait_after_settle(effect)
            },
            _ => Ok(()),
        }
    }

    /// Wait after a settlement as long as its stage needs.
    fn wait_after_settle(&mut self, effect: &mut Effect) -> (r: Result<(), GameError>)
        ensures
            same_context(*old(effect), *final(effect)),
            r is Ok ==> same_config(*old(self), *final(self)) && ends_with_wait(*old(effect), *final(effect)),
            r is Ok ==> *final(self) == (Holdem { next_game_start: final(self).next_game_start, ..*old(self) }),
            settle_waited(*old(self), *old(effect), r, *final(self), *final(effect)),
    {
        let timeout = match self.calc_pre_settle_timeout() {
            Ok(t) => t,
            Err(e) => {
                return Err(e);
            },
        };
        if timeout > u64::MAX - effect.timestamp() {
            return Err(GameError::InternalAmountOverflow);
        }
        self.wait_timeout(effect, timeout);
        Ok(())
    }

    /// Handle an event of the table.
    #[verifier::rlimit(40)]
    pub fn handle_event(&mut self, effect: &mut Effect, event: Event) -> (r: Result<(), GameError>)
        requires
            old(effect).next_random_id < usize::MAX,
        ensures
            final(effect).timestamp == old(effect).timestamp,
            final(effect).nodes_count == old(effect).nodes_count,
            final(effect).revealed@ == old(effect).revealed@,
            match event {
                Event::Custom { sender, event: _ } => !old(self).player_map@.contains_key(sender) ==> r == Err::<
                    (),
                    GameError,
                >(GameError::InvalidPlayer),
                Event::ActionTimeout { player_id } => !acting_is(*old(self), player_id) ==> r == Err::<
                    (),
                    GameError,
                >(GameError::NotTheActingPlayer),
                Event::Ready => {
                    &&& r is Ok
                    &&& final(self).display@.len() == 0
                    &&& *final(self) == (Holdem { display: final(self).display, ..*old(self) })
                    &&& final(effect).actions@ == old(effect).actions@ + if can_start(*old(self), *old(effect)) {
                        seq![EffectAction::StartGame]
                    } else {
                        Seq::empty()
                    }
                },
                Event::Join { players } => r is Ok && final(self).player_map@ == joined(
                    old(self).player_map@,
                    players@,
                ),
                Event::Deposit { deposits } => {
                    let st = deposit_run(
                        DepositRun { players: old(self).player_map@, actions: old(effect).actions@, err: false },
                        old(self).max_deposit,
                        deposits@,
                    );
                    &&& st.err ==> r == Err::<(), GameError>(GameError::InternalAmountOverflow)
                    &&& !st.err ==> r is Ok && final(self).player_map@ == st.players && final(effect).actions@
                        == st.actions
                },
                Event::GameStart => r is Ok ==> final(self).hand_id == old(self).hand_id + 1 && final(self).player_map@ == mapped(mapped(old(self).player_map@, reset_fn()), refill_fn(old(self).max_deposit)),
                Event::Leave { player_id } => (r is Ok <==> old(self).player_map@.contains_key(player_id)) && (r is Err
                    ==> r == Err::<(), GameError>(GameError::InvalidPlayer)),
                Event::WaitingTimeout => payout_overflows(kicked(*old(self))) ==> r is Err,
                Event::Other | Event::Bridge { .. } | Event::SubGameReady { .. } | Event::Client { .. } => r is Ok && final(self).display@.len() == 0 && *final(self) == (Holdem {
                    display: final(self).display,
                    ..*old(self)
                }) && *final(effect) == *old(effect),
                _ => true,
            },
            exists|hc: Holdem, hm: Holdem, em: Effect, rl: Result<(), GameError>| #[trigger] event_handled(*old(self), *old(effect), event, r, *final(self), *final(effect), hc, hm, em, rl),
    {
        let ghost h0 = *self;
        let ghost e0 = *effect;
        self.display.clear();
        let ghost hc = *self;
        proof {
            assert(cleared(h0, hc));
        }
        match event {
            Event::Custom { sender, event } => {
                match self.reset_player_timeout(sender) {
                    Ok(()) => {},
                    Err(e) => {
                        assert(event_handled(h0, e0, Event::Custom { sender, event }, Err::<(), GameError>(e), *self, *effect, hc, hc, e0, Err::<(), GameError>(e)));
                        return Err(e);
                    },
                }
                let ghost hm = *self;
                let r = self.handle_custom_event(effect, event, sender);
                assert(event_handled(h0, e0, Event::Custom { sender, event }, r, *self, *effect, hc, hm, e0, r));
                r
            },
            Event::ActionTimeout { player_id } => {
                let r = self.handle_action_timeout(effect, player_id);
                assert(event_handled(h0, e0, Event::ActionTimeout { player_id }, r, *self, *effect, hc, hc, e0, r));
                r
            },
            Event::WaitingTimeout => {
                let rs = self.settle(effect);
                let ghost hm = *self;
                let ghost em = *effect;
                match rs {
                    Ok(()) => {},
                    Err(e) => {
                        assert(event_handled(h0, e0, Event::WaitingTimeout, rs, *self, *effect, hc, hm, em, rs));
                        return Err(e);
                    },
                }
                if self.player_map.len() >= 2 && effect.count_nodes() >= 1 && self.mode != GameMode::Mtt {
                    effect.push(EffectAction::StartGame);
                }
                proof {
                    assert(effect.actions@ =~= em.actions@ + if hm.player_map@.len() >= 2 && em.nodes_count >= 1 && hm.mode != GameMode::Mtt {
                        seq![EffectAction::StartGame]
                    } else {
                        Seq::<EffectAction>::empty()
                    });
                }
                assert(event_handled(h0, e0, Event::WaitingTimeout, Ok::<(), GameError>(()), *self, *effect, hc, hm, em, rs));
                Ok(())
            },
            Event::Ready => {
                let ghost a0 = effect.actions@;
                if self.player_map.len() >= 2 && effect.count_nodes() >= 1 {
                    effect.push(EffectAction::StartGame);
                }
                proof {
                    assert(effect.actions@ =~= a0 + if can_start(*old(self), *old(effect)) {
                        seq![EffectAction::StartGame]
                    } else {
                        Seq::<EffectAction>::empty()
                    });
                }
                assert(event_handled(h0, e0, Event::Ready, Ok::<(), GameError>(()), *self, *effect, hc, hc, e0, Ok::<(), GameError>(())));
                Ok(())
            },
            Event::Join { players } => {
                let r = self.handle_join(effect, players);
                assert(event_handled(h0, e0, Event::Join { players }, r, *self, *effect, hc, hc, e0, r));
                r
            },
            Event::Deposit { deposits } => {
                let r = self.handle_deposit(effect, deposits);
                assert(event_handled(h0, e0, Event::Deposit { deposits }, r, *self, *effect, hc, hc, e0, r));
                r
            },
            Event::GameStart => {
                let r = self.internal_start_game(effect);
                assert(event_handled(h0, e0, Event::GameStart, r, *self, *effect, hc, hc, e0, r));
                r
            },
            Event::Leave { player_id } => {
                match self.set_player_status(player_id, PlayerStatus::Leave) {
                    Ok(()) => {},
                    Err(e) => {
                        assert(event_handled(h0, e0, Event::Leave { player_id }, Err::<(), GameError>(e), *self, *effect, hc, hc, e0, Err::<(), GameError>(e)));
                        return Err(e);
                    },
                }
                let ghost hm = *self;
                let rl = self.handle_player_leave(effect, player_id);
                assert(event_handled(h0, e0, Event::Leave { player_id }, Ok::<(), GameError>(()), *self, *effect, hc, hm, e0, rl));
                Ok(())
            },
            Event::RandomnessReady => {
                let r = self.handle_randomness_ready(effect);
                assert(event_handled(h0, e0, Event::RandomnessReady, r, *self, *effect, hc, hc, e0, r));
                r
            },
            Event::SecretsReady => {
                let r = self.handle_secrets_ready(effect);
                assert(event_handled(h0, e0, Event::SecretsReady, r, *self, *effect, hc, hc, e0, r));
                r
            },
            Event::Bridge { dest_game_id, event } => {
                assert(event_handled(h0, e0, Event::Bridge { dest_game_id, event }, Ok::<(), GameError>(()), *self, *effect, hc, hc, e0, Ok::<(), GameError>(())));
                Ok(())
            },
            Event::SubGameReady { game_id, table } => {
                assert(event_handled(h0, e0, Event::SubGameReady { game_id, table }, Ok::<(), GameError>(()), *self, *effect, hc, hc, e0, Ok::<(), GameError>(())));
                Ok(())
            },
            Event::Client { sender, event } => {
                assert(event_handled(h0, e0, Event::Client { sender, event }, Ok::<(), GameError>(()), *self, *effect, hc, hc, e0, Ok::<(), GameError>(())));
                Ok(())
            },
            Event::Other => {
                assert(event_handled(h0, e0, Event::Other, Ok::<(), GameError>(()), *self, *effect, hc, hc, e0, Ok::<(), GameError>(())));
                Ok(())
            },
        }
    }

    /// The table a game account describes: its blinds, ante, rake and
    /// maximum deposit, a cash game, its seats.
    pub fn init_state(account: &HoldemAccount, max_players: usize) -> (r: Result<Holdem, GameError>)
        ensures
            r matches Ok(h) && {
                &&& h.sb == account.sb && h.bb == account.bb && h.ante == account.ante
                &&& h.max_deposit == account.max_deposit && h.rake == account.rake && h.rake_cap
                    == account.rake_cap
                &&& h.min_raise == account.bb
                &&& h.btn == 0 && h.deck_random_id == 0 && h.next_game_start == 0 && h.hand_id == 0
                &&& h.stage == HoldemStage::Init && h.street == Street::Init && h.street_bet == 0
                &&& h.mode == GameMode::Cash
                &&& h.table_size == max_players as u8
                &&& h.player_map@ == Map::<u64, Player>::empty()
                &&& h.bet_map@.is_empty() && h.total_bet_map@.is_empty() && h.prize_map@.is_empty()
                &&& h.pots@.len() == 0 && h.player_order@.len() == 0 && h.acting_player is None
                &&& h.hand_history.empty()
                &&& h.rake_collected == 0
            },
    {
        let mut h = Holdem::default();
        h.max_deposit = account.max_deposit;
        h.sb = account.sb;
        h.bb = account.bb;
        h.ante = account.ante;
        h.min_raise = account.bb;
        h.rake = account.rake;
        h.rake_cap = account.rake_cap;
        h.mode = GameMode::Cash;
        h.table_size = max_players as u8;
        Ok(h)
    }

    /// Each player's balance: chips and deposit, by id.
    pub fn balances(&self) -> (r: Vec<(u64, u64)>)
        requires
            forall|k: u64| #[trigger] self.player_map@.contains_key(k) ==> self.player_map@[k].chips
                + self.player_map@[k].deposit <= u64::MAX,
        ensures
            r@.len() == self.ids().len(),
            forall|j: int| 0 <= j < r@.len() ==> {
                let p = self.player_map@[self.ids()[j]];
                #[trigger] r@[j] == (p.id, (p.chips + p.deposit) as u64)
            },
    {
        let ids = crate::keys::sorted_keys(&self.player_map);
        let mut out: Vec<(u64, u64)> = Vec::new();
        let mut i: usize = 0;
        while i < ids.len()
            invariant
                ids@ == self.ids(),
                ids@.to_set() == self.player_map@.dom(),
                forall|k: u64| #[trigger] self.player_map@.contains_key(k) ==> self.player_map@[k].chips
                    + self.player_map@[k].deposit <= u64::MAX,
                i <= ids@.len(),
                out@.len() == i,
                forall|j: int| 0 <= j < i ==> {
                    let p = self.player_map@[ids@[j]];
                    #[trigger] out@[j] == (p.id, (p.chips + p.deposit) as u64)
                },
            decreases ids@.len() - i,
        {
            let id = ids[i];
            assert(ids@.to_set().contains(id));
            let p = match self.player_map.get(&id) {
                Some(p) => *p,
                None => Player::default(),
            };
            out.push((p.id, p.chips + p.deposit));
            i = i + 1;
        }
        out
    }
}

} // verus!
