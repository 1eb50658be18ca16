//! The history of a hand: blinds, actions per street, showdowns and chips changes.

use std::collections::BTreeMap;
use vstd::prelude::*;
use crate::errors::GameError;
use crate::essential::Street;
use crate::holdem_evaluator::Category;
use crate::keys::{key_seq, sorted_keys};

verus! {

broadcast use vstd::std_specs::btree::group_btree_axioms;

#[derive(Debug, Clone, Copy, PartialEq, Eq, Structural)]
pub enum ChipsChange {
    NoUpdate,
    Add(u64),
    Sub(u64),
}

#[derive(Debug, Clone, Copy, PartialEq, Eq, Structural)]
pub enum BlindType {
    Sb,
    Bb,
    Ante,
    Stradle,
}

#[derive(Debug, Clone, Copy, PartialEq, Eq, Structural)]
pub struct BlindBet {
    pub id: u64,
    pub blind_type: BlindType,
    pub amount: u64,
    pub is_allin: bool,
}

impl BlindBet {
    pub fn new(id: u64, blind_type: BlindType, amount: u64, is_allin: bool) -> (r: Self)
        ensures
            r == (BlindBet { id, blind_type, amount, is_allin }),
    {
        BlindBet { id, blind_type, amount, is_allin }
    }
}

#[derive(Debug, Clone, Copy, PartialEq, Eq, Structural)]
pub enum PlayerActionEvent {
    Bet { amount: u64, is_allin: bool },
    Check,
    Call { amount: u64, is_allin: bool },
    Fold,
    Raise { amount: u64, is_allin: bool },
}

#[derive(Debug, Clone, Copy, PartialEq, Eq, Structural)]
pub struct PlayerAction {
    id: u64,
    event: PlayerActionEvent,
}

impl PlayerAction {
    pub closed spec fn spec_id(self) -> u64 {
        self.id
    }

    pub closed spec fn spec_event(self) -> PlayerActionEvent {
        self.event
    }

    pub fn new_bet(id: u64, real_bet_amount: u64, is_allin: bool) -> (r: Self)
        ensures
            r.spec_id() == id,
            r.spec_event() == (PlayerActionEvent::Bet { amount: real_bet_amount, is_allin }),
    {
        PlayerAction { id, event: PlayerActionEvent::Bet { amount: real_bet_amount, is_allin } }
    }

    pub fn new_raise(id: u64, real_raise_to_amount: u64, is_allin: bool) -> (r: Self)
        ensures
            r.spec_id() == id,
            r.spec_event() == (PlayerActionEvent::Raise { amount: real_raise_to_amount, is_allin }),
    {
        PlayerAction { id, event: PlayerActionEvent::Raise { amount: real_raise_to_amount, is_allin } }
    }

    pub fn new_call(id: u64, real_call_amount: u64, is_allin: bool) -> (r: Self)
        ensures
            r.spec_id() == id,
            r.spec_event() == (PlayerActionEvent::Call { amount: real_call_amount, is_allin }),
    {
        PlayerAction { id, event: PlayerActionEvent::Call { amount: real_call_amount, is_allin } }
    }

    pub fn new_check(id: u64) -> (r: Self)
        ensures
            r.spec_id() == id,
            r.spec_event() == PlayerActionEvent::Check,
    {
        PlayerAction { id, event: PlayerActionEvent::Check }
    }

    pub fn new_fold(id: u64) -> (r: Self)
        ensures
            r.spec_id() == id,
            r.spec_event() == PlayerActionEvent::Fold,
    {
        PlayerAction { id, event: PlayerActionEvent::Fold }
    }
}

#[derive(Debug, Clone, PartialEq, Eq)]
pub struct StreetActions {
    pub pot: u64,
    pub actions: Vec<PlayerAction>,
}

impl Default for StreetActions {
    fn default() -> (r: Self)
        ensures
            r.pot == 0,
            r.actions@ == Seq::<PlayerAction>::empty(),
    {
        StreetActions { pot: 0, actions: Vec::new() }
    }
}

#[derive(Debug, Clone, PartialEq, Eq)]
pub struct Showdown {
    pub hole_cards: Vec<String>,
    pub category: Category,
    pub picks: Vec<String>,
}

#[derive(Debug, Clone, PartialEq, Eq)]
pub struct HandHistory {
    pub valid: bool,
    pub board: Vec<String>,
    pub blinds: Vec<BlindBet>,
    /// actions for each street
    pub preflop: StreetActions,
    pub flop: StreetActions,
    pub turn: StreetActions,
    pub river: StreetActions,
    /// player id -> showdown info
    pub showdowns: BTreeMap<u64, Showdown>,
    /// player id -> chips change
    pub chips_change: BTreeMap<u64, ChipsChange>,
}

/// The chips change that an amount won (positive) or lost (negative) records.
pub open spec fn change_of(c: i64) -> ChipsChange {
    if c > 0 {
        ChipsChange::Add(c as u64)
    } else {
        ChipsChange::Sub((-c) as u64)
    }
}

/// The recorded changes updated with the nonzero changes of `m`.
pub open spec fn with_changes(old: Map<u64, ChipsChange>, m: Map<u64, i64>) -> Map<u64, ChipsChange> {
    old.union_prefer_right(
        Map::new(|id: u64| m.contains_key(id) && m[id] != 0, |id: u64| change_of(m[id])),
    )
}

/// The recorded changes updated with the nonzero changes of the first `n` ids of `ids`.
pub open spec fn with_changes_of(old: Map<u64, ChipsChange>, m: Map<u64, i64>, ids: Seq<u64>) -> Map<u64, ChipsChange>
    decreases ids.len(),
{
    if ids.len() == 0 {
        old
    } else {
        let prev = with_changes_of(old, m, ids.drop_last());
        let id = ids.last();
        if m.contains_key(id) && m[id] != 0 {
            prev.insert(id, change_of(m[id]))
        } else {
            prev
        }
    }
}

impl Default for HandHistory {
    fn default() -> (r: Self)
        ensures
            r.empty(),
    {
        HandHistory {
            valid: false,
            board: Vec::new(),
            blinds: Vec::new(),
            preflop: StreetActions::default(),
            flop: StreetActions::default(),
            turn: StreetActions::default(),
            river: StreetActions::default(),
            showdowns: BTreeMap::new(),
            chips_change: BTreeMap::new(),
        }
    }
}


/// `h1` is `h0` with `action` recorded among the actions of `street`, and
/// nothing else changed.
pub open spec fn action_added(h0: HandHistory, h1: HandHistory, street: Street, action: PlayerAction) -> bool {
    &&& h1.preflop.actions@ == (if street == Street::Preflop {
        h0.preflop.actions@.push(action)
    } else {
        h0.preflop.actions@
    })
    &&& h1.flop.actions@ == (if street == Street::Flop {
        h0.flop.actions@.push(action)
    } else {
        h0.flop.actions@
    })
    &&& h1.turn.actions@ == (if street == Street::Turn {
        h0.turn.actions@.push(action)
    } else {
        h0.turn.actions@
    })
    &&& h1.river.actions@ == (if street == Street::River {
        h0.river.actions@.push(action)
    } else {
        h0.river.actions@
    })
    &&& h1.preflop.pot == h0.preflop.pot
    &&& h1.flop.pot == h0.flop.pot
    &&& h1.turn.pot == h0.turn.pot
    &&& h1.river.pot == h0.river.pot
    &&& h1.valid == h0.valid
    &&& h1.board@ == h0.board@
    &&& h1.blinds@ == h0.blinds@
    &&& h1.showdowns@ == h0.showdowns@
    &&& h1.chips_change@ == h0.chips_change@
}

impl HandHistory {
    /// A history with nothing recorded.
    pub open spec fn empty(self) -> bool {
        &&& !self.valid
        &&& self.board@.len() == 0
        &&& self.blinds@.len() == 0
        &&& self.preflop.pot == 0 && self.preflop.actions@.len() == 0
        &&& self.flop.pot == 0 && self.flop.actions@.len() == 0
        &&& self.turn.pot == 0 && self.turn.actions@.len() == 0
        &&& self.river.pot == 0 && self.river.actions@.len() == 0
        &&& self.showdowns@ == Map::<u64, Showdown>::empty()
        &&& self.chips_change@ == Map::<u64, ChipsChange>::empty()
    }

    pub fn set_board(&mut self, board: Vec<String>)
        ensures
            final(self).board@ == board@,
            final(self).valid == old(self).valid,
            final(self).blinds@ == old(self).blinds@,
            final(self).preflop == old(self).preflop,
            final(self).flop == old(self).flop,
            final(self).turn == old(self).turn,
            final(self).river == old(self).river,
            final(self).showdowns@ == old(self).showdowns@,
            final(self).chips_change@ == old(self).chips_change@,
    {
        self.board = board;
    }

    /// Record each nonzero change of chips: a gain as `Add`, a loss as `Sub`.
    pub fn set_chips_change(&mut self, chips_change_map: &BTreeMap<u64, i64>)
        requires
            forall|id: u64| #[trigger] chips_change_map@.contains_key(id) ==> chips_change_map@[id] != i64::MIN,
        ensures
            final(self).chips_change@ == with_changes(old(self).chips_change@, chips_change_map@),
            final(self).valid == old(self).valid,
            final(self).board@ == old(self).board@,
            final(self).blinds@ == old(self).blinds@,
            final(self).preflop == old(self).preflop,
            final(self).flop == old(self).flop,
            final(self).turn == old(self).turn,
            final(self).river == old(self).river,
            final(self).showdowns@ == old(self).showdowns@,
    {
        let ids = sorted_keys(chips_change_map);
        let ghost m = chips_change_map@;
        let mut i: usize = 0;
        while i < ids.len()
            invariant
                ids@.to_set() == m.dom(),
                m == chips_change_map@,
                i <= ids@.len(),
                forall|id: u64| #[trigger] m.contains_key(id) ==> m[id] != i64::MIN,
                self.chips_change@ == with_changes_of(old(self).chips_change@, m, ids@.take(i as int)),
                self.valid == old(self).valid,
                self.board@ == old(self).board@,
                self.blinds@ == old(self).blinds@,
                self.preflop == old(self).preflop,
                self.flop == old(self).flop,
                self.turn == old(self).turn,
                self.river == old(self).river,
                self.showdowns@ == old(self).showdowns@,
            decreases ids@.len() - i,
        {
            let id = ids[i];
            assert(ids@.take(i + 1).drop_last() =~= ids@.take(i as int));
            assert(m.dom().contains(id)) by {
                assert(ids@.to_set().contains(ids@[i as int]));
            }
            match chips_change_map.get(&id) {
                Some(change) => {
                    let change: i64 = *change;
                    if change > 0 {
                        let amount: u64 = change as u64;
                        self.chips_change.insert(id, ChipsChange::Add(amount));
                    } else if change < 0 {
                        let amount: u64 = (-change) as u64;
                        self.chips_change.insert(id, ChipsChange::Sub(amount));
                    }
                },
                None => {},
            }
            i = i + 1;
        }
        proof {
            assert(ids@.take(i as int) =~= ids@);
            lemma_with_changes_of(old(self).chips_change@, m, ids@);
        }
    }

    pub fn set_blinds_infos(&mut self, blinds: Vec<BlindBet>)
        ensures
            final(self).blinds@ == blinds@,
            final(self).valid == old(self).valid,
            final(self).board@ == old(self).board@,
            final(self).preflop == old(self).preflop,
            final(self).flop == old(self).flop,
            final(self).turn == old(self).turn,
            final(self).river == old(self).river,
            final(self).showdowns@ == old(self).showdowns@,
            final(self).chips_change@ == old(self).chips_change@,
    {
        self.blinds = blinds;
    }

    pub fn add_blinds_info(&mut self, blind: BlindBet)
        ensures
            final(self).blinds@ == old(self).blinds@.push(blind),
            final(self).valid == old(self).valid,
            final(self).board@ == old(self).board@,
            final(self).preflop == old(self).preflop,
            final(self).flop == old(self).flop,
            final(self).turn == old(self).turn,
            final(self).river == old(self).river,
            final(self).showdowns@ == old(self).showdowns@,
            final(self).chips_change@ == old(self).chips_change@,
    {
        self.blinds.push(blind);
    }

    /// Record the pot at the start of a street; nothing for Init and Showdown.
    pub fn set_pot(&mut self, street: Street, pot: u64)
        ensures
            final(self).preflop.pot == (if street == Street::Preflop { pot } else { old(self).preflop.pot }),
            final(self).flop.pot == (if street == Street::Flop { pot } else { old(self).flop.pot }),
            final(self).turn.pot == (if street == Street::Turn { pot } else { old(self).turn.pot }),
            final(self).river.pot == (if street == Street::River { pot } else { old(self).river.pot }),
            final(self).preflop.actions@ == old(self).preflop.actions@,
            final(self).flop.actions@ == old(self).flop.actions@,
            final(self).turn.actions@ == old(self).turn.actions@,
            final(self).river.actions@ == old(self).river.actions@,
            final(self).valid == old(self).valid,
            final(self).board@ == old(self).board@,
            final(self).blinds@ == old(self).blinds@,
            final(self).showdowns@ == old(self).showdowns@,
            final(self).chips_change@ == old(self).chips_change@,
    {
        match street {
            Street::Init | Street::Showdown => {},
            Street::Preflop => {
                self.preflop.pot = pot;
            },
            Street::Flop => {
                self.flop.pot = pot;
            },
            Street::Turn => {
                self.turn.pot = pot;
            },
            Street::River => {
                self.river.pot = pot;
            },
        }
    }

    /// Record an action on a street; there are none on Init and Showdown.
    pub fn add_action(&mut self, street: Street, action: PlayerAction) -> (r: Result<(), GameError>)
        ensures
            action_added(*old(self), *final(self), street, action),
            r is Err <==> (street == Street::Init || street == Street::Showdown),
            r is Err ==> r->Err_0 == GameError::InternalUnexpectedStreet,
            final(self).preflop.actions@ == (if street == Street::Preflop {
                old(self).preflop.actions@.push(action)
            } else {
                old(self).preflop.actions@
            }),
            final(self).flop.actions@ == (if street == Street::Flop {
                old(self).flop.actions@.push(action)
            } else {
                old(self).flop.actions@
            }),
            final(self).turn.actions@ == (if street == Street::Turn {
                old(self).turn.actions@.push(action)
            } else {
                old(self).turn.actions@
            }),
            final(self).river.actions@ == (if street == Street::River {
                old(self).river.actions@.push(action)
            } else {
                old(self).river.actions@
            }),
            final(self).preflop.pot == old(self).preflop.pot,
            final(self).flop.pot == old(self).flop.pot,
            final(self).turn.pot == old(self).turn.pot,
            final(self).river.pot == old(self).river.pot,
            final(self).valid == old(self).valid,
            final(self).board@ == old(self).board@,
            final(self).blinds@ == old(self).blinds@,
            final(self).showdowns@ == old(self).showdowns@,
            final(self).chips_change@ == old(self).chips_change@,
    {
        match street {
            Street::Init | Street::Showdown => {
                return Err(GameError::InternalUnexpectedStreet);
            },
            Street::Preflop => {
                self.preflop.actions.push(action);
            },
            Street::Flop => {
                self.flop.actions.push(action);
            },
            Street::Turn => {
                self.turn.actions.push(action);
            },
            Street::River => {
                self.river.actions.push(action);
            },
        }
        Ok(())
    }

    pub fn add_showdown(&mut self, id: u64, showdown: Showdown)
        ensures
            final(self).showdowns@ == old(self).showdowns@.insert(id, showdown),
            final(self).valid == old(self).valid,
            final(self).board@ == old(self).board@,
            final(self).blinds@ == old(self).blinds@,
            final(self).preflop == old(self).preflop,
            final(self).flop == old(self).flop,
            final(self).turn == old(self).turn,
            final(self).river == old(self).river,
            final(self).chips_change@ == old(self).chips_change@,
    {
        self.showdowns.insert(id, showdown);
    }
}

/// Recording the changes of all the ids of a map, one by one, records the map's changes.
proof fn lemma_with_changes_of(old: Map<u64, ChipsChange>, m: Map<u64, i64>, ids: Seq<u64>)
    requires
        ids.to_set() == m.dom(),
        ids.no_duplicates(),
    ensures
        with_changes_of(old, m, ids) == with_changes(old, m),
{
    lemma_with_changes_prefix(old, m, ids);
    assert(with_changes_of(old, m, ids) =~= with_changes(old, m)) by {
        broadcast use vstd::seq_lib::group_seq_properties;
        assert forall|id: u64| m.contains_key(id) implies ids.contains(id) by {
            assert(ids.to_set().contains(id));
        }
    }
}

/// What recording a prefix of ids does, key by key.
proof fn lemma_with_changes_prefix(old: Map<u64, ChipsChange>, m: Map<u64, i64>, ids: Seq<u64>)
    ensures
        forall|id: u64|
            #[trigger] with_changes_of(old, m, ids).contains_key(id) <==> (old.contains_key(id) || (
            ids.contains(id) && m.contains_key(id) && m[id] != 0)),
        forall|id: u64|
            #[trigger] with_changes_of(old, m, ids).contains_key(id) ==> with_changes_of(old, m, ids)[id]
                == if ids.contains(id) && m.contains_key(id) && m[id] != 0 {
                change_of(m[id])
            } else {
                old[id]
            },
    decreases ids.len(),
{
    broadcast use vstd::seq_lib::group_seq_properties;
    if ids.len() > 0 {
        lemma_with_changes_prefix(old, m, ids.drop_last());
        assert forall|id: u64| ids.contains(id) <==> (ids.drop_last().contains(id) || id == ids.last()) by {
            if ids.contains(id) {
                let k = choose|k: int| 0 <= k < ids.len() && ids[k] == id;
                if k < ids.len() - 1 {
                    assert(ids.drop_last()[k] == id);
                }
            }
            if ids.drop_last().contains(id) {
                let k = choose|k: int| 0 <= k < ids.drop_last().len() && ids.drop_last()[k] == id;
                assert(ids[k] == id);
            }
        }
    }
}

} // verus!
