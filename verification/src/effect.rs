//! The effect of handling one event: what the game reads from its
//! surroundings (time, revealed cards, servers) and the commands it gives
//! back for the runner to carry out.

use std::collections::BTreeMap;
use vstd::prelude::*;
use crate::errors::GameError;
use crate::mtt_base::{HoldemBridgeEvent, MttTableState};

verus! {

broadcast use vstd::std_specs::btree::group_btree_axioms;

/// A command that handling an event gives.
#[derive(Debug, Clone, PartialEq, Eq)]
pub enum EffectAction {
    Withdraw { player_id: u64, amount: u64 },
    Eject { player_id: u64 },
    Transfer { amount: u64 },
    Checkpoint,
    CancelDispatch,
    ActionTimeout { player_id: u64, timeout: u64 },
    WaitTimeout { timeout: u64 },
    Reveal { random_id: usize, indexes: Vec<usize> },
    Assign { random_id: usize, player_id: u64, indexes: Vec<usize> },
    /// Shuffle a deck of cards into the random state `random_id`.
    InitDeck { random_id: usize },
    StartGame,
    AcceptDeposit { player_id: u64, amount: u64 },
    RejectDeposit { player_id: u64, amount: u64 },
    /// Send an event to the game `dest`: 0 is the tournament, others its tables.
    Bridge { dest: usize, event: HoldemBridgeEvent },
    /// Stop the game for good.
    StopGame,
    /// Launch a table of a tournament.
    LaunchSubGame { table: MttTableState },
    /// Open the entry: players may join.
    OpenEntry,
    /// Close the entry: no more players may join.
    CloseEntry,
    /// Give the player the bonus of the `rank`-th place (from 1).
    Award { player_id: u64, rank: usize },
}

/// The context and the commands of handling one event.
#[derive(Debug)]
pub struct Effect {
    /// the current time in milliseconds
    pub timestamp: u64,
    /// how many servers serve the game
    pub nodes_count: usize,
    /// the cards of the deck revealed so far, by index
    pub revealed: BTreeMap<usize, String>,
    /// the id that the next random state gets
    pub next_random_id: usize,
    /// the id that the next table launched gets
    pub next_sub_game_id: usize,
    /// the commands given so far
    pub actions: Vec<EffectAction>,
}

impl Effect {
    pub fn new(timestamp: u64, nodes_count: usize) -> (r: Effect)
        ensures
            r.timestamp == timestamp,
            r.nodes_count == nodes_count,
            r.revealed@ == Map::<usize, String>::empty(),
            r.next_random_id == 1,
            r.next_sub_game_id == 1,
            r.actions@ == Seq::<EffectAction>::empty(),
    {
        Effect {
            timestamp,
            nodes_count,
            revealed: BTreeMap::new(),
            next_random_id: 1,
            next_sub_game_id: 1,
            actions: Vec::new(),
        }
    }

    pub fn timestamp(&self) -> (r: u64)
        ensures
            r == self.timestamp,
    {
        self.timestamp
    }

    pub fn count_nodes(&self) -> (r: usize)
        ensures
            r == self.nodes_count,
    {
        self.nodes_count
    }

    /// Add a command.
    pub fn push(&mut self, action: EffectAction)
        ensures
            final(self).actions@ == old(self).actions@.push(action),
            final(self).timestamp == old(self).timestamp,
            final(self).nodes_count == old(self).nodes_count,
            final(self).revealed@ == old(self).revealed@,
            final(self).next_random_id == old(self).next_random_id,
            final(self).next_sub_game_id == old(self).next_sub_game_id,
    {
        self.actions.push(action);
    }

    /// The id of a new table; each call gives the next one.
    pub fn next_sub_game_id(&mut self) -> (r: usize)
        requires
            old(self).next_sub_game_id < usize::MAX,
        ensures
            r == old(self).next_sub_game_id,
            *final(self) == (Effect { next_sub_game_id: (r + 1) as usize, ..*old(self) }),
    {
        let id = self.next_sub_game_id;
        self.next_sub_game_id = id + 1;
        id
    }

    /// The revealed cards of the deck.
    pub fn get_revealed(&self, _random_id: usize) -> (r: Result<&BTreeMap<usize, String>, GameError>)
        ensures
            r matches Ok(m) && m@ == self.revealed@,
    {
        Ok(&self.revealed)
    }

    /// Whether a checkpoint was asked for.
    pub fn is_checkpoint(&self) -> (r: bool)
        ensures
            r <==> self.actions@.contains(EffectAction::Checkpoint),
    {
        let mut i: usize = 0;
        while i < self.actions.len()
            invariant
                i <= self.actions@.len(),
                forall|j: int| 0 <= j < i ==> self.actions@[j] != EffectAction::Checkpoint,
            decreases self.actions@.len() - i,
        {
            match &self.actions[i] {
                EffectAction::Checkpoint => {
                    return true;
                },
                _ => {},
            }
            i = i + 1;
        }
        false
    }

    /// Ask for a shuffled deck of cards; returns the id of its random state.
    pub fn init_deck(&mut self) -> (r: usize)
        requires
            old(self).next_random_id < usize::MAX,
        ensures
            r == old(self).next_random_id,
            final(self).next_random_id == old(self).next_random_id + 1,
            final(self).actions@ == old(self).actions@.push(EffectAction::InitDeck { random_id: r }),
            final(self).timestamp == old(self).timestamp,
            final(self).nodes_count == old(self).nodes_count,
            final(self).revealed@ == old(self).revealed@,
            final(self).next_sub_game_id == old(self).next_sub_game_id,
    {
        let id = self.next_random_id;
        self.next_random_id = id + 1;
        self.actions.push(EffectAction::InitDeck { random_id: id });
        id
    }
}


/// The context of an effect (time, servers, revealed cards, next random
/// id) stays as it was.
pub open spec fn same_context(e0: Effect, e1: Effect) -> bool {
    &&& e1.timestamp == e0.timestamp
    &&& e1.nodes_count == e0.nodes_count
    &&& e1.revealed@ == e0.revealed@
    &&& e1.next_random_id == e0.next_random_id
}

/// Only the commands of an effect changed.
pub open spec fn only_actions_changed(e0: Effect, e1: Effect) -> bool {
    same_context(e0, e1) && e1.next_sub_game_id == e0.next_sub_game_id
}

} // verus!
