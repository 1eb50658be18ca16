//! The players of a long-term tournament as its tables see them: seated in
//! or out, and their ranking.

use vstd::prelude::*;

verus! {

/// Whether a player is seated at a table.
#[derive(Debug, Clone, Copy, PartialEq, Eq, Structural)]
pub enum PlayerStatus {
    SatIn,
    SatOut,
}

impl Default for PlayerStatus {
    fn default() -> (r: Self)
        ensures
            r == PlayerStatus::SatIn,
    {
        PlayerStatus::SatIn
    }
}

/// A player and its seat.
#[derive(Debug, Clone, Copy, PartialEq, Eq, Structural)]
pub struct Player {
    pub player_id: u64,
    pub position: u16,
    pub status: PlayerStatus,
}

impl Default for Player {
    fn default() -> (r: Self)
        ensures
            r == (Player { player_id: 0, position: 0, status: PlayerStatus::SatIn }),
    {
        Player { player_id: 0, position: 0, status: PlayerStatus::default() }
    }
}

/// A player's chips and deposits.
#[derive(Debug, Clone)]
pub struct Ranking {
    pub player_id: u64,
    pub chips: u64,
    pub deposit_history: Vec<u64>,
}

impl Default for Ranking {
    fn default() -> (r: Self)
        ensures
            r.player_id == 0 && r.chips == 0 && r.deposit_history@.len() == 0,
    {
        Ranking { player_id: 0, chips: 0, deposit_history: Vec::new() }
    }
}

} // verus!
