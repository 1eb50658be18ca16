//! The events a table handles.

use vstd::prelude::*;
use crate::essential::GameEvent;
use crate::ltmtt::ClientEvent;
use crate::mtt_base::{HoldemBridgeEvent, MttTableState};

verus! {

/// A player who joined the table at a seat.
#[derive(Debug, Clone, Copy, PartialEq, Eq, Structural)]
pub struct JoinedPlayer {
    pub id: u64,
    pub position: u8,
}

/// A deposit a player made.
#[derive(Debug, Clone, Copy, PartialEq, Eq, Structural)]
pub struct PlayerDeposit {
    pub id: u64,
    pub balance: u64,
}

/// The events of a table.
#[derive(Debug, Clone, PartialEq, Eq)]
pub enum Event {
    /// a player's own event
    Custom { sender: u64, event: GameEvent },
    /// a player's own event in a long-term tournament
    Client { sender: u64, event: ClientEvent },
    /// the acting player did not act in time
    ActionTimeout { player_id: u64 },
    /// the wait after a settlement is over
    WaitingTimeout,
    /// the servers are ready
    Ready,
    /// players joined
    Join { players: Vec<JoinedPlayer> },
    /// players deposited
    Deposit { deposits: Vec<PlayerDeposit> },
    /// a hand starts
    GameStart,
    /// a player leaves
    Leave { player_id: u64 },
    /// the deck is shuffled
    RandomnessReady,
    /// the secrets for revealing cards are shared
    SecretsReady,
    /// an event from another game of the tournament
    Bridge { dest_game_id: usize, event: HoldemBridgeEvent },
    /// a table of a tournament is launched and ready
    SubGameReady { game_id: usize, table: MttTableState },
    /// any other event
    Other,
}

} // verus!
