//! Holdem essentials such as bet, player, pot, street and so on.

use std::collections::BTreeMap;
use vstd::prelude::*;
use crate::errors::GameError;

verus! {

pub const ACTION_TIMEOUT_PREFLOP: u64 = 10_000;
pub const ACTION_TIMEOUT_POSTFLOP: u64 = 15_000;
pub const ACTION_TIMEOUT_TURN: u64 = 20_000;
pub const ACTION_TIMEOUT_RIVER: u64 = 30_000;
pub const ACTION_TIMEOUT_AFK: u64 = 1_000;
pub const MAX_ACTION_TIMEOUT_COUNT: u8 = 2;

pub const WAIT_TIMEOUT_DEFAULT: u64 = 5_000;
pub const WAIT_TIMEOUT_LAST_PLAYER: u64 = 5_000;
pub const WAIT_TIMEOUT_SHOWDOWN: u64 = 10_000;
pub const WAIT_TIMEOUT_RUNNER: u64 = 13_000;

pub const TIME_CARD_EXTRA_SECS: u64 = 30;
pub const DEFAULT_TIME_CARDS: u8 = 5;

/// Holdem modes in which a specific table type is defined
#[derive(Debug, Clone, Copy, PartialEq, Eq, Structural)]
pub enum GameMode {
    Cash,
    Sng,
    Mtt,
}

impl Default for GameMode {
    fn default() -> (r: Self)
        ensures
            r == GameMode::Cash,
    {
        GameMode::Cash
    }
}

/// Players' status during the entire game life
#[derive(Debug, Clone, Copy, PartialEq, Eq, Structural)]
pub enum PlayerStatus {
    /// waiting for others' action
    Wait,
    /// newly joined, waiting to become the big blind
    Waitbb,
    /// has acted on the current street
    Acted,
    /// is acting
    Acting,
    /// went all in
    Allin,
    /// has folded
    Fold,
    /// just joined, waiting for the next hand
    Init,
    /// has sent the Leave event
    Leave,
    /// is sitting out
    Out,
    /// has no chips left
    Eliminated,
}

impl Default for PlayerStatus {
    fn default() -> (r: Self)
        ensures
            r == PlayerStatus::Wait,
    {
        PlayerStatus::Wait
    }
}

#[derive(Debug, Clone, Copy, PartialEq, Eq, Structural)]
pub struct InternalPlayerJoin {
    pub id: u64,
    pub chips: u64,
}

/// Representation of a specific player in the game
#[derive(Debug, Clone, Copy, PartialEq, Eq, Structural)]
pub struct Player {
    pub id: u64,
    pub chips: u64,
    /// zero indexed seat
    pub position: u8,
    pub status: PlayerStatus,
    /// how many times the player's action timed out
    pub timeout: u8,
    /// the deposited amount
    pub deposit: u64,
    /// each time card gives TIME_CARD_EXTRA_SECS extra seconds for an action
    pub time_cards: u8,
    /// is the player away from keyboard
    pub is_afk: bool,
}

impl Default for Player {
    fn default() -> (r: Self)
        ensures
            r.id == 0 && r.chips == 0 && r.position == 0 && r.status == PlayerStatus::Wait,
            r.timeout == 0 && r.deposit == 0 && r.time_cards == 0 && !r.is_afk,
    {
        Player {
            id: 0,
            chips: 0,
            position: 0,
            status: PlayerStatus::Wait,
            timeout: 0,
            deposit: 0,
            time_cards: 0,
            is_afk: false,
        }
    }
}

/// The statuses with which a player may still be asked to act.
pub open spec fn spec_next_to_act(status: PlayerStatus) -> bool {
    !(status == PlayerStatus::Allin || status == PlayerStatus::Fold || status == PlayerStatus::Init
        || status == PlayerStatus::Waitbb || status == PlayerStatus::Leave || status
        == PlayerStatus::Out)
}

impl Player {
    pub fn new(
        id: u64,
        chips: u64,
        position: u8,
        status: PlayerStatus,
        timeout: u8,
        deposit: u64,
        time_cards: u8,
    ) -> (r: Player)
        ensures
            r == (Player { id, chips, position, status, timeout, deposit, time_cards, is_afk: false }),
    {
        Player { id, chips, position, status, timeout, deposit, time_cards, is_afk: false }
    }

    pub fn new_with_timeout(id: u64, chips: u64, position: u8, timeout: u8) -> (r: Player)
        ensures
            r == (Player {
                id,
                chips,
                position,
                status: PlayerStatus::Wait,
                timeout,
                deposit: 0,
                time_cards: DEFAULT_TIME_CARDS,
                is_afk: false,
            }),
    {
        Player {
            id,
            chips,
            position,
            status: PlayerStatus::default(),
            timeout,
            deposit: 0,
            time_cards: DEFAULT_TIME_CARDS,
            is_afk: false,
        }
    }

    /// A player with zero timeout and deposit and the default number of time cards.
    pub fn new_with_defaults(id: u64, chips: u64, position: u8, status: PlayerStatus) -> (r: Player)
        ensures
            r == (Player {
                id,
                chips,
                position,
                status,
                timeout: 0,
                deposit: 0,
                time_cards: DEFAULT_TIME_CARDS,
                is_afk: false,
            }),
    {
        Player {
            id,
            chips,
            position,
            status,
            timeout: 0,
            deposit: 0,
            time_cards: DEFAULT_TIME_CARDS,
            is_afk: false,
        }
    }

    /// A newly joined player.
    pub fn init(id: u64, chips: u64, position: u8, status: PlayerStatus) -> (r: Player)
        ensures
            r == (Player {
                id,
                chips,
                position,
                status,
                timeout: 0,
                deposit: 0,
                time_cards: DEFAULT_TIME_CARDS,
                is_afk: false,
            }),
    {
        Player {
            id,
            chips,
            position,
            status,
            timeout: 0,
            deposit: 0,
            time_cards: DEFAULT_TIME_CARDS,
            is_afk: false,
        }
    }

    /// Whether the player may be asked to act.
    pub fn next_to_act(&self) -> (r: bool)
        ensures
            r == spec_next_to_act(self.status),
    {
        match self.status {
            PlayerStatus::Allin
            | PlayerStatus::Fold
            | PlayerStatus::Init
            | PlayerStatus::Waitbb
            | PlayerStatus::Leave
            | PlayerStatus::Out => false,
            _ => true,
        }
    }

    /// Take a bet from the player's chips.  Returns whether the player
    /// went all in and the amount actually taken.
    pub fn take_bet(&mut self, bet: u64) -> (r: (bool, u64))
        ensures
            bet < old(self).chips ==> r == (false, bet) && final(self).chips == old(self).chips - bet,
            bet >= old(self).chips ==> r == (true, old(self).chips) && final(self).chips == 0,
            final(self).chips + r.1 == old(self).chips,
            final(self).id == old(self).id,
            final(self).position == old(self).position,
            final(self).status == old(self).status,
            final(self).timeout == old(self).timeout,
            final(self).deposit == old(self).deposit,
            final(self).time_cards == old(self).time_cards,
            final(self).is_afk == old(self).is_afk,
    {
        if bet < self.chips {
            self.chips = self.chips - bet;
            (false, bet)
        } else {
            let real_bet = self.chips;
            self.chips = 0;
            (true, real_bet)
        }
    }
}

/// Representation of the player who should be acting at the moment
#[derive(Debug, Clone, Copy, PartialEq, Eq, Structural)]
pub struct ActingPlayer {
    pub id: u64,
    pub position: u8,
    pub action_start: u64,
    /// the action clock
    pub clock: u64,
    /// set when a time card is in use
    pub time_card_clock: Option<u64>,
}

impl ActingPlayer {
    pub fn new(id: u64, position: u8, action_start: u64, clock: u64) -> (r: ActingPlayer)
        ensures
            r == (ActingPlayer { id, position, action_start, clock, time_card_clock: None }),
    {
        ActingPlayer { id, position, action_start, clock, time_card_clock: None }
    }

    pub fn new_with_time_card(id: u64, position: u8, action_start: u64, clock: u64) -> (r:
        ActingPlayer)
        requires
            clock + TIME_CARD_EXTRA_SECS * 1000 <= u64::MAX,
        ensures
            r == (ActingPlayer {
                id,
                position,
                action_start,
                clock,
                time_card_clock: Some((clock + TIME_CARD_EXTRA_SECS * 1000) as u64),
            }),
    {
        ActingPlayer {
            id,
            position,
            action_start,
            clock,
            time_card_clock: Some(clock + TIME_CARD_EXTRA_SECS * 1000),
        }
    }
}

/// Representation of a Holdem pot
#[derive(Debug, Clone, PartialEq, Eq)]
pub struct Pot {
    pub owners: Vec<u64>,
    pub winners: Vec<u64>,
    pub amount: u64,
}

/// A pot by its owners, winners and amount.
pub struct PotView {
    pub owners: Seq<u64>,
    pub winners: Seq<u64>,
    pub amount: u64,
}

impl View for Pot {
    type V = PotView;

    open spec fn view(&self) -> PotView {
        PotView { owners: self.owners@, winners: self.winners@, amount: self.amount }
    }
}

/// The views of pots.
pub open spec fn pot_views(pots: Seq<Pot>) -> Seq<PotView> {
    pots.map_values(|p: Pot| p@)
}

/// The sum of the pots' amounts.
pub open spec fn pots_total(pots: Seq<PotView>) -> int
    decreases pots.len(),
{
    if pots.len() == 0 {
        0
    } else {
        pots_total(pots.drop_last()) + pots.last().amount
    }
}

impl Pot {
    pub fn new(owners: Vec<u64>, amount: u64) -> (r: Self)
        ensures
            r.owners@ == owners@,
            r.winners@ == Seq::<u64>::empty(),
            r.amount == amount,
    {
        Pot { owners, winners: Vec::new(), amount }
    }

    /// Add the amount of another pot to this one.
    pub fn merge(&mut self, other: &Pot) -> (r: Result<(), GameError>)
        requires
            old(self).amount + other.amount <= u64::MAX,
        ensures
            r is Ok,
            final(self).amount == old(self).amount + other.amount,
            final(self).owners@ == old(self).owners@,
            final(self).winners@ == old(self).winners@,
    {
        self.amount = self.amount + other.amount;
        Ok(())
    }
}

/// Holdem streets
#[derive(Debug, Clone, Copy, PartialEq, Eq, Structural)]
pub enum Street {
    Init,
    Preflop,
    Flop,
    Turn,
    River,
    Showdown,
}

impl Default for Street {
    fn default() -> (r: Self)
        ensures
            r == Street::Init,
    {
        Street::Init
    }
}

/// Holdem stages for micro-management of the game
#[derive(Debug, Clone, Copy, PartialEq, Eq, Structural)]
pub enum HoldemStage {
    Init,
    ShareKey,
    Play,
    Runner,
    Settle,
    Showdown,
}

impl Default for HoldemStage {
    fn default() -> (r: Self)
        ensures
            r == HoldemStage::Init,
    {
        HoldemStage::Init
    }
}

/// Holdem specific custom events sent by players.
#[derive(Debug, Clone, Copy, PartialEq, Eq, Structural)]
pub enum GameEvent {
    Bet(u64),
    Check,
    Call,
    Fold,
    Raise(u64),
    /// one condition is coming back from AFK status
    SitIn,
    SitOut,
    /// activate a time card; it is consumed only when the extra time is used
    UseTimeCard,
}

/// A pot used for awarding winners, for display.
#[derive(Debug, Clone, PartialEq, Eq)]
pub struct AwardPot {
    pub winners: Vec<u64>,
    pub amount: u64,
}

#[derive(Debug, Clone, Copy, PartialEq, Eq, Structural)]
pub struct PlayerResult {
    pub id: u64,
    pub chips: u64,
    pub status: PlayerStatus,
    pub position: u8,
}

/// What the front-end displays as animations.
#[derive(Debug, Clone, PartialEq, Eq)]
pub enum Display {
    DealCards,
    DealBoard { prev: usize, board: Vec<String> },
    CollectBets { old_pots: Vec<Pot>, bet_map: BTreeMap<u64, u64> },
    GameResult { award_pots: Vec<AwardPot>, player_map: BTreeMap<u64, PlayerResult> },
}

} // verus!
