//! A table of a tournament: a Holdem game in tournament mode that reports
//! each hand's result to the tournament and takes its orders (blinds,
//! players sitting in or moving away, closing).

use vstd::prelude::*;
use crate::effect::{same_context, Effect, EffectAction};
use crate::errors::GameError;
use crate::essential::{GameMode, HoldemStage, Player, PlayerStatus, Street, DEFAULT_TIME_CARDS};
use crate::event::Event;
use crate::game::{has_position, is_removable, mapped, reset_fn, timeout_overflows, Holdem};
use crate::hand_history;
use crate::handler::event_handled;
use crate::keys::{key_seq, sorted_keys, strictly_increasing};
use crate::mtt_base::{
    ChipsChange, HoldemBridgeEvent, MttTableInit, MttTablePlayer, MttTablePlayerInit, MttTableSitin,
    MttTableState, PlayerResult, PlayerResultStatus,
};

verus! {

broadcast use vstd::std_specs::btree::group_btree_axioms;

/// A table of a tournament.
#[derive(Debug)]
pub struct MttTable {
    pub table_id: usize,
    pub holdem: Holdem,
}

/// The players a table starts with, filed by id: at seats 0, 1, ... in
/// their order, with full time cards, counted as away until they act; a
/// later entry with the same id replaces an earlier one.
pub open spec fn init_players(ps: Seq<MttTablePlayerInit>) -> Map<u64, Player>
    decreases ps.len(),
{
    if ps.len() == 0 {
        Map::empty()
    } else {
        let p = ps.last();
        init_players(ps.drop_last()).insert(
            p.id,
            Player {
                id: p.id,
                chips: p.chips,
                position: (ps.len() - 1) as u8,
                status: PlayerStatus::Wait,
                timeout: 0,
                deposit: 0,
                time_cards: DEFAULT_TIME_CARDS,
                is_afk: true,
            },
        )
    }
}

/// A player as the tournament sees it.
pub open spec fn table_player(p: Player) -> MttTablePlayer {
    MttTablePlayer { id: p.id, chips: p.chips, position: p.position, time_cards: p.time_cards }
}

/// The players of a game as the tournament sees them, by increasing id.
pub open spec fn table_players(h: Holdem) -> Seq<MttTablePlayer> {
    h.ids().map_values(|id: u64| table_player(h.player_map@[id]))
}

/// `s` is the state of table `t` as the tournament sees it.
pub open spec fn describes(s: MttTableState, t: MttTable) -> bool {
    &&& s.table_id == t.table_id
    &&& s.hand_id == t.holdem.hand_id
    &&& s.btn == t.holdem.btn as u8
    &&& s.sb == t.holdem.sb && s.bb == t.holdem.bb && s.ante == t.holdem.ante
    &&& s.next_game_start == t.holdem.next_game_start
    &&& s.players@ == table_players(t.holdem)
}

/// What a player's status at the end of a hand tells the tournament.
pub open spec fn result_status(s: PlayerStatus) -> PlayerResultStatus {
    if s == PlayerStatus::Leave {
        PlayerResultStatus::Sitout
    } else if s == PlayerStatus::Eliminated {
        PlayerResultStatus::Eliminated
    } else {
        PlayerResultStatus::Normal
    }
}

/// A player's chips change of the hand, as the tournament sees it: none
/// when the hand recorded none or no update.
pub open spec fn result_change(h: Holdem, id: u64) -> Option<ChipsChange> {
    if h.hand_history.chips_change@.contains_key(id) {
        match h.hand_history.chips_change@[id] {
            hand_history::ChipsChange::NoUpdate => None,
            hand_history::ChipsChange::Add(a) => Some(ChipsChange::Add(a)),
            hand_history::ChipsChange::Sub(a) => Some(ChipsChange::Sub(a)),
        }
    } else {
        None
    }
}

/// A player's result of the hand.
pub open spec fn player_result(h: Holdem, p: Player) -> PlayerResult {
    PlayerResult {
        player_id: p.id,
        chips: p.chips,
        chips_change: result_change(h, p.id),
        position: p.position,
        status: result_status(p.status),
    }
}

/// The results of the hand, by increasing id.
pub open spec fn player_results(h: Holdem) -> Seq<PlayerResult> {
    h.ids().map_values(|id: u64| player_result(h, h.player_map@[id]))
}

/// The players who stay at the table after a hand.
pub open spec fn kept_after_hand(pm: Map<u64, Player>) -> Map<u64, Player> {
    pm.restrict(pm.dom().filter(|id: u64| !is_removable(pm[id].status)))
}

/// The first free seat of a table of `table_size` seats, if any.
pub open spec fn first_free(pm: Map<u64, Player>, table_size: u8) -> Option<u8> {
    if exists|p: u8| p < table_size && !has_position(pm, p as int) {
        Some(
            choose|p: u8|
                p < table_size && !has_position(pm, p as int) && forall|q: int|
                    0 <= q < p ==> has_position(pm, q),
        )
    } else {
        None
    }
}

/// One player sits in at the first free seat, waiting for the big blind
/// when it is the first time, or for the next hand when moved from
/// another table; without a free seat nothing changes; a player already
/// at the table is refused (None).
pub open spec fn sit_one(pm: Map<u64, Player>, table_size: u8, s: MttTableSitin) -> Option<Map<u64, Player>> {
    match first_free(pm, table_size) {
        None => Some(pm),
        Some(pos) => if pm.contains_key(s.id) {
            None
        } else {
            Some(
                pm.insert(
                    s.id,
                    Player {
                        id: s.id,
                        chips: s.chips,
                        position: pos,
                        status: if s.first_time_sit {
                            PlayerStatus::Waitbb
                        } else {
                            PlayerStatus::Init
                        },
                        timeout: 0,
                        deposit: 0,
                        time_cards: s.time_cards,
                        is_afk: false,
                    },
                ),
            )
        },
    }
}

/// The players sit in one by one; None when one is refused.
pub open spec fn sit_all(pm: Map<u64, Player>, table_size: u8, ss: Seq<MttTableSitin>) -> Option<Map<u64, Player>>
    decreases ss.len(),
{
    if ss.len() == 0 {
        Some(pm)
    } else {
        match sit_all(pm, table_size, ss.drop_last()) {
            None => None,
            Some(m) => sit_one(m, table_size, ss.last()),
        }
    }
}

/// The players leave the table one by one; None when one is not there.
pub open spec fn without_players(pm: Map<u64, Player>, ids: Seq<u64>) -> Option<Map<u64, Player>>
    decreases ids.len(),
{
    if ids.len() == 0 {
        Some(pm)
    } else {
        match without_players(pm, ids.drop_last()) {
            None => None,
            Some(m) => if m.contains_key(ids.last()) {
                Some(m.remove(ids.last()))
            } else {
                None
            },
        }
    }
}

/// The last command of `actions` reports the hand of table `t` to the
/// tournament, with the given player results.
pub open spec fn reports(actions: Seq<EffectAction>, t: MttTable, results: Seq<PlayerResult>) -> bool {
    actions.len() > 0 && match actions.last() {
        EffectAction::Bridge { dest, event } => dest == 0 && match event {
            HoldemBridgeEvent::GameResult { hand_id, table_id, btn, player_results, table } => {
                &&& hand_id == t.holdem.hand_id && table_id == t.table_id && btn == t.holdem.btn as u8
                &&& player_results@ == results
                &&& describes(table, t)
            },
            _ => false,
        },
        _ => false,
    }
}

/// How a table handles an order of the tournament: from table `t0` and
/// effect `e0`, the order `ev` gives `r`, table `t1` and effect `e1`.
pub open spec fn bridge_handled(
    t0: MttTable,
    e0: Effect,
    ev: HoldemBridgeEvent,
    r: Result<(), GameError>,
    t1: MttTable,
    e1: Effect,
) -> bool {
    &&& e1.timestamp == e0.timestamp
    &&& e1.nodes_count == e0.nodes_count
    &&& e1.revealed@ == e0.revealed@
    &&& e1.next_random_id == e0.next_random_id
    &&& t1.table_id == t0.table_id
    &&& t1.holdem.display == t0.holdem.display
    &&& match ev {
        HoldemBridgeEvent::StartGame { sb, bb, ante, sitout_players } => match without_players(
            t0.holdem.player_map@,
            sitout_players@,
        ) {
            None => r == Err::<(), GameError>(GameError::InvalidPlayerInStartGame),
            Some(m) => {
                &&& r is Ok
                &&& t1.holdem == (Holdem { sb, bb, ante, player_map: t1.holdem.player_map, ..t0.holdem })
                &&& t1.holdem.player_map@ == m
                &&& e1.actions@ == e0.actions@ + if m.len() > 1 {
                    seq![EffectAction::StartGame]
                } else {
                    Seq::empty()
                }
            },
        },
        HoldemBridgeEvent::SitinPlayers { sitins } => match sit_all(
            t0.holdem.player_map@,
            t0.holdem.table_size,
            sitins@,
        ) {
            None => r == Err::<(), GameError>(GameError::DuplicatedPlayerInRelocate),
            Some(m) => {
                &&& r is Ok
                &&& t1.holdem == (Holdem { player_map: t1.holdem.player_map, ..t0.holdem })
                &&& t1.holdem.player_map@ == m
                &&& t0.holdem.player_map@.len() >= 2 ==> e1.actions@ == e0.actions@
                &&& t0.holdem.player_map@.len() < 2 ==> {
                    &&& e1.actions@.len() == e0.actions@.len() + 2
                    &&& e1.actions@.take(e0.actions@.len() as int) == e0.actions@
                    &&& e1.actions@[e0.actions@.len() as int] == EffectAction::Checkpoint
                    &&& reports(e1.actions@, t1, Seq::empty())
                }
            },
        },
        HoldemBridgeEvent::CloseTable => {
            &&& r is Ok
            &&& t1.holdem == (Holdem { player_map: t1.holdem.player_map, ..t0.holdem })
            &&& t1.holdem.player_map@ == Map::<u64, Player>::empty()
            &&& e1.actions@ == e0.actions@ + seq![EffectAction::Checkpoint, EffectAction::StopGame]
        },
        HoldemBridgeEvent::GameResult { .. } | HoldemBridgeEvent::SitResult { .. } => r == Err::<(), GameError>(GameError::InternalInvalidBridgeEvent),
        }
}

/// What reporting a hand's result does, as `report_hand_result` states it.
pub open spec fn hand_reported(t0: MttTable, e0: Effect, r: Result<(), GameError>, t1: MttTable, e1: Effect) -> bool {
    &&& same_context(e0, e1)
    &&& t1.table_id == t0.table_id
    &&& timeout_overflows(kept_after_hand(t0.holdem.player_map@)) ==> r == Err::<(), GameError>(
        GameError::InternalAmountOverflow,
    )
    &&& !timeout_overflows(kept_after_hand(t0.holdem.player_map@)) ==> {
        &&& r is Ok
        &&& t1.holdem.player_map@ == mapped(kept_after_hand(t0.holdem.player_map@), reset_fn())
        &&& t1.holdem.hand_id == t0.holdem.hand_id
        &&& t1.holdem.btn == t0.holdem.btn
        &&& t1.holdem.stage == HoldemStage::Init && t1.holdem.street == Street::Init
        &&& e1.actions@.len() == e0.actions@.len() + 1
        &&& e1.actions@.take(e0.actions@.len() as int) == e0.actions@
        &&& reports(e1.actions@, t1, player_results(t0.holdem))
    }
}

/// What a tournament table does with an event not from the tournament:
/// its game handles it (giving `rh`, `h1`, `e1`, in the steps `hc`,
/// `hm`, `em`, `rl` of `event_handled`); a refusal is passed on; when a
/// checkpoint was asked for, the hand's result is reported to the
/// tournament.
pub open spec fn table_event_handled(
    t0: MttTable,
    e0: Effect,
    event: Event,
    r: Result<(), GameError>,
    t1: MttTable,
    ef: Effect,
    rh: Result<(), GameError>,
    h1: Holdem,
    e1: Effect,
    hc: Holdem,
    hm: Holdem,
    em: Effect,
    rl: Result<(), GameError>,
) -> bool {
    &&& event_handled(t0.holdem, e0, event, rh, h1, e1, hc, hm, em, rl)
    &&& if rh is Err {
        r == rh
    } else if e1.actions@.contains(EffectAction::Checkpoint) {
        hand_reported(MttTable { holdem: h1, ..t0 }, e1, r, t1, ef)
    } else {
        r is Ok && t1 == (MttTable { holdem: h1, ..t0 }) && ef == e1
    }
}

impl MttTable {
    /// A table of a tournament: its blinds, its seats, its players seated
    /// in their order.
    pub fn init_state(init: &MttTableInit, max_players: usize) -> (r: Result<MttTable, GameError>)
        ensures
            r matches Ok(t) && {
                &&& t.table_id == init.table_id
                &&& t.holdem.sb == init.sb && t.holdem.bb == init.bb && t.holdem.ante == init.ante
                &&& t.holdem.btn == 0
                &&& t.holdem.table_size == max_players as u8
                &&& t.holdem.mode == GameMode::Mtt
                &&& t.holdem.player_map@ == init_players(init.players@)
                &&& t.holdem.hand_id == 0 && t.holdem.stage == HoldemStage::Init
                &&& t.holdem.street == Street::Init
                &&& t.holdem.hand_history.empty()
            },
    {
        let mut h = Holdem::default();
        let ghost h0 = h;
        let mut i: usize = 0;
        assert(init.players@.take(0) =~= Seq::<MttTablePlayerInit>::empty());
        while i < init.players.len()
            invariant
                i <= init.players@.len(),
                h.player_map@ == init_players(init.players@.take(i as int)),
                h == (Holdem { player_map: h.player_map, ..h0 }),
            decreases init.players@.len() - i,
        {
            let p = init.players[i];
            let mut player = Player::new_with_timeout(p.id, p.chips, i as u8, 0);
            player.is_afk = true;
            h.player_map.insert(p.id, player);
            assert(init.players@.take(i + 1).drop_last() =~= init.players@.take(i as int));
            i = i + 1;
        }
        assert(init.players@.take(i as int) =~= init.players@);
        h.btn = 0;
        h.sb = init.sb;
        h.bb = init.bb;
        h.ante = init.ante;
        h.table_size = max_players as u8;
        h.mode = GameMode::Mtt;
        Ok(MttTable { table_id: init.table_id, holdem: h })
    }

    /// The state of the table as the tournament sees it.
    pub fn make_mtt_table_state(&self) -> (r: MttTableState)
        ensures
            describes(r, *self),
    {
        let ids = sorted_keys(&self.holdem.player_map);
        let mut players: Vec<MttTablePlayer> = Vec::new();
        let mut i: usize = 0;
        while i < ids.len()
            invariant
                ids@ == self.holdem.ids(),
                ids@.to_set() == self.holdem.player_map@.dom(),
                i <= ids@.len(),
                players@ == ids@.take(i as int).map_values(|id: u64| table_player(self.holdem.player_map@[id])),
            decreases ids@.len() - i,
        {
            let id = ids[i];
            assert(ids@.to_set().contains(id));
            let p = match self.holdem.player_map.get(&id) {
                Some(p) => *p,
                None => Player::default(),
            };
            players.push(MttTablePlayer::new(p.id, p.chips, p.position, p.time_cards));
            assert(players@ =~= ids@.take(i + 1).map_values(|id: u64| table_player(self.holdem.player_map@[id])));
            i = i + 1;
        }
        assert(ids@.take(i as int) =~= ids@);
        MttTableState {
            table_id: self.table_id,
            hand_id: self.holdem.hand_id,
            btn: self.holdem.btn as u8,
            sb: self.holdem.sb,
            bb: self.holdem.bb,
            ante: self.holdem.ante,
            players,
            next_game_start: self.holdem.next_game_start,
        }
    }

    /// Sit players in at the first free seats; a player already at the
    /// table is refused.
    #[verifier::rlimit(40)]
    fn sit_players(&mut self, sitins: &Vec<MttTableSitin>) -> (r: Result<(), GameError>)
        ensures
            final(self).table_id == old(self).table_id,
            final(self).holdem.display == old(self).holdem.display,
            sit_all(old(self).holdem.player_map@, old(self).holdem.table_size, sitins@) is None ==> r
                == Err::<(), GameError>(GameError::DuplicatedPlayerInRelocate),
            sit_all(old(self).holdem.player_map@, old(self).holdem.table_size, sitins@) matches Some(m) ==> {
                &&& r is Ok
                &&& final(self).holdem.player_map@ == m
                &&& *final(self) == (MttTable {
                    holdem: Holdem { player_map: final(self).holdem.player_map, ..old(self).holdem },
                    ..*old(self)
                })
            },
    {
        let mut i: usize = 0;
        assert(sitins@.take(0) =~= Seq::<MttTableSitin>::empty());
        while i < sitins.len()
            invariant
                i <= sitins@.len(),
                sit_all(old(self).holdem.player_map@, old(self).holdem.table_size, sitins@.take(i as int))
                    == Some(self.holdem.player_map@),
                *self == (MttTable {
                    holdem: Holdem { player_map: self.holdem.player_map, ..old(self).holdem },
                    ..*old(self)
                }),
            decreases sitins@.len() - i,
        {
            let s = sitins[i];
            let ghost pm = self.holdem.player_map@;
            proof {
                assert(sitins@.take(i + 1).drop_last() =~= sitins@.take(i as int));
                assert(sitins@.take(i + 1).last() == s);
            }
            match self.holdem.find_position() {
                Some(position) => {
                    proof {
                        lemma_first_free_some(pm, self.holdem.table_size, position);
                    }
                    let status = if s.first_time_sit {
                        PlayerStatus::Waitbb
                    } else {
                        PlayerStatus::Init
                    };
                    if self.holdem.player_map.contains_key(&s.id) {
                        proof {
                            lemma_sit_all_none(old(self).holdem.player_map@, old(self).holdem.table_size, sitins@, i + 1);
                        }
                        return Err(GameError::DuplicatedPlayerInRelocate);
                    }
                    let np = Player::new(s.id, s.chips, position, status, 0, 0, s.time_cards);
                    self.holdem.player_map.insert(s.id, np);
                    proof {
                        assert(sit_one(pm, self.holdem.table_size, s) == Some(pm.insert(s.id, np)));
                        assert(self.holdem.player_map@ == pm.insert(s.id, np));
                    }
                },
                None => {
                    proof {
                        lemma_first_free_none(pm, self.holdem.table_size);
                    }
                },
            }
            i = i + 1;
        }
        assert(sitins@.take(i as int) =~= sitins@);
        Ok(())
    }

    /// Handle an order of the tournament.
    pub fn handle_bridge_event(&mut self, effect: &mut Effect, event: HoldemBridgeEvent) -> (r: Result<(), GameError>)
        ensures
            bridge_handled(*old(self), *old(effect), event, r, *final(self), *final(effect)),
    {
        match event {
            HoldemBridgeEvent::StartGame { sb, bb, ante, sitout_players } => {
                self.holdem.sb = sb;
                self.holdem.bb = bb;
                self.holdem.ante = ante;
                let ghost h1 = self.holdem;
                let mut i: usize = 0;
                assert(sitout_players@.take(0) =~= Seq::<u64>::empty());
                while i < sitout_players.len()
                    invariant
                        i <= sitout_players@.len(),
                        without_players(old(self).holdem.player_map@, sitout_players@.take(i as int)) == Some(
                            self.holdem.player_map@,
                        ),
                        self.holdem == (Holdem { player_map: self.holdem.player_map, ..h1 }),
                        h1 == (Holdem { sb, bb, ante, ..old(self).holdem }),
                        self.table_id == old(self).table_id,
                        event == (HoldemBridgeEvent::StartGame { sb, bb, ante, sitout_players }),
                    decreases sitout_players@.len() - i,
                {
                    let id = sitout_players[i];
                    proof {
                        assert(sitout_players@.take(i + 1).drop_last() =~= sitout_players@.take(i as int));
                        assert(sitout_players@.take(i + 1).last() == id);
                    }
                    if !self.holdem.player_map.contains_key(&id) {
                        proof {
                            assert(without_players(old(self).holdem.player_map@, sitout_players@.take(i + 1)) is None);
                            lemma_without_none(old(self).holdem.player_map@, sitout_players@, i + 1);
                        }
                        return Err(GameError::InvalidPlayerInStartGame);
                    }
                    self.holdem.player_map.remove(&id);
                    i = i + 1;
                }
                assert(sitout_players@.take(i as int) =~= sitout_players@);
                let ghost a0 = effect.actions@;
                if self.holdem.player_map.len() > 1 {
                    effect.push(EffectAction::StartGame);
                }
                assert(effect.actions@ =~= a0 + if self.holdem.player_map@.len() > 1 {
                    seq![EffectAction::StartGame]
                } else {
                    Seq::empty()
                });
                Ok(())
            },
            HoldemBridgeEvent::SitinPlayers { sitins } => {
                let origin = self.holdem.player_map.len();
                match self.sit_players(&sitins) {
                    Ok(()) => {},
                    Err(e) => {
                        return Err(e);
                    },
                }
                if origin < 2 {
                    effect.push(EffectAction::Checkpoint);
                    let table = self.make_mtt_table_state();
                    let results: Vec<PlayerResult> = Vec::new();
                    effect.push(
                        EffectAction::Bridge {
                            dest: 0,
                            event: HoldemBridgeEvent::GameResult {
                                hand_id: self.holdem.hand_id,
                                table_id: self.table_id,
                                btn: self.holdem.btn as u8,
                                player_results: results,
                                table,
                            },
                        },
                    );
                    assert(effect.actions@.take(old(effect).actions@.len() as int) =~= old(effect).actions@);
                }
                Ok(())
            },
            HoldemBridgeEvent::CloseTable => {
                self.holdem.player_map.clear();
                effect.push(EffectAction::Checkpoint);
                effect.push(EffectAction::StopGame);
                assert(effect.actions@ =~= old(effect).actions@ + seq![EffectAction::Checkpoint, EffectAction::StopGame]);
                Ok(())
            },
            HoldemBridgeEvent::GameResult { .. } | HoldemBridgeEvent::SitResult { .. } => Err(GameError::InternalInvalidBridgeEvent),
        }
    }

    /// Each player's result of the hand, by increasing id.
    fn collect_player_results(&self) -> (r: Vec<PlayerResult>)
        ensures
            r@ == player_results(self.holdem),
    {
        let ids = sorted_keys(&self.holdem.player_map);
        let mut out: Vec<PlayerResult> = Vec::new();
        let mut i: usize = 0;
        while i < ids.len()
            invariant
                ids@ == self.holdem.ids(),
                ids@.to_set() == self.holdem.player_map@.dom(),
                i <= ids@.len(),
                out@ == ids@.take(i as int).map_values(|id: u64| player_result(self.holdem, self.holdem.player_map@[id])),
            decreases ids@.len() - i,
        {
            let id = ids[i];
            assert(ids@.to_set().contains(id));
            let p = match self.holdem.player_map.get(&id) {
                Some(p) => *p,
                None => Player::default(),
            };
            let status = if p.status == PlayerStatus::Leave {
                PlayerResultStatus::Sitout
            } else if p.status == PlayerStatus::Eliminated {
                PlayerResultStatus::Eliminated
            } else {
                PlayerResultStatus::Normal
            };
            let chips_change = match self.holdem.hand_history.chips_change.get(&p.id) {
                Some(hand_history::ChipsChange::NoUpdate) => None,
                Some(hand_history::ChipsChange::Add(a)) => Some(ChipsChange::Add(*a)),
                Some(hand_history::ChipsChange::Sub(a)) => Some(ChipsChange::Sub(*a)),
                None => None,
            };
            out.push(PlayerResult::new(p.id, p.chips, chips_change, p.position, status));
            assert(out@ =~= ids@.take(i + 1).map_values(|id: u64| player_result(self.holdem, self.holdem.player_map@[id])));
            i = i + 1;
        }
        assert(ids@.take(i as int) =~= ids@);
        out
    }

    /// Report the hand just played to the tournament: each player's result,
    /// and, once the players who left or were eliminated are removed and
    /// the table is reset for the next hand, the table's state.
    pub fn report_hand_result(&mut self, effect: &mut Effect) -> (r: Result<(), GameError>)
        ensures
            same_context(*old(effect), *final(effect)),
            final(self).table_id == old(self).table_id,
            timeout_overflows(kept_after_hand(old(self).holdem.player_map@)) ==> r == Err::<(), GameError>(
                GameError::InternalAmountOverflow,
            ),
            !timeout_overflows(kept_after_hand(old(self).holdem.player_map@)) ==> {
                &&& r is Ok
                &&& final(self).holdem.player_map@ == mapped(kept_after_hand(old(self).holdem.player_map@), reset_fn())
                &&& final(self).holdem.hand_id == old(self).holdem.hand_id
                &&& final(self).holdem.btn == old(self).holdem.btn
                &&& final(self).holdem.stage == HoldemStage::Init && final(self).holdem.street == Street::Init
                &&& final(effect).actions@.len() == old(effect).actions@.len() + 1
                &&& final(effect).actions@.take(old(effect).actions@.len() as int) == old(effect).actions@
                &&& reports(final(effect).actions@, *final(self), player_results(old(self).holdem))
            },
            hand_reported(*old(self), *old(effect), r, *final(self), *final(effect)),
    {
        let results = self.collect_player_results();
        let _ = self.holdem.kick_players();
        proof {
            assert(self.holdem.player_map@ =~= kept_after_hand(old(self).holdem.player_map@));
        }
        match self.holdem.reset_state() {
            Ok(()) => {},
            Err(e) => {
                return Err(e);
            },
        }
        let table = self.make_mtt_table_state();
        effect.push(
            EffectAction::Bridge {
                dest: 0,
                event: HoldemBridgeEvent::GameResult {
                    hand_id: self.holdem.hand_id,
                    table_id: self.table_id,
                    btn: self.holdem.btn as u8,
                    player_results: results,
                    table,
                },
            },
        );
        assert(effect.actions@.take(old(effect).actions@.len() as int) =~= old(effect).actions@);
        Ok(())
    }

    /// Handle an event of the table: an order of the tournament, meant for
    /// this table, or an event of its Holdem game, after which a hand that
    /// reached a checkpoint is reported to the tournament.
    pub fn handle_event(&mut self, effect: &mut Effect, event: Event) -> (r: Result<(), GameError>)
        requires
            old(effect).next_random_id < usize::MAX,
        ensures
            final(self).table_id == old(self).table_id,
            match event {
                Event::Bridge { dest_game_id, event: be } => {
                    &&& dest_game_id != old(self).table_id ==> r == Err::<(), GameError>(GameError::InvalidBridgeEvent)
                    &&& dest_game_id == old(self).table_id ==> bridge_handled(
                        MttTable { holdem: Holdem { display: final(self).holdem.display, ..old(self).holdem }, ..*old(self) },
                        *old(effect),
                        be,
                        r,
                        *final(self),
                        *final(effect),
                    )
                    &&& final(self).holdem.display@.len() == 0
                },
                _ => {
                    &&& r is Ok && final(effect).actions@.contains(EffectAction::Checkpoint) ==> exists|h: Holdem|
                        {
                            &&& final(self).holdem.player_map@ == mapped(kept_after_hand(h.player_map@), reset_fn())
                            &&& reports(final(effect).actions@, *final(self), player_results(h))
                        }
                    &&& exists|rh: Result<(), GameError>, h1: Holdem, e1: Effect, hc: Holdem, hm: Holdem, em: Effect, rl: Result<(), GameError>|
                        #[trigger] table_event_handled(*old(self), *old(effect), event, r, *final(self), *final(effect), rh, h1, e1, hc, hm, em, rl)
                },
            },
    {
        match event {
            Event::Bridge { dest_game_id, event } => {
                self.holdem.display.clear();
                if dest_game_id == self.table_id {
                    self.handle_bridge_event(effect, event)
                } else {
                    Err(GameError::InvalidBridgeEvent)
                }
            },
            _ => {
                let ghost t0 = *self;
                let ghost e0 = *effect;
                let rh = self.holdem.handle_event(effect, event);
                let ghost hd = self.holdem;
                let ghost ed = *effect;
                let ghost (hc, hm, em, rl) = choose|hc: Holdem, hm: Holdem, em: Effect, rl: Result<(), GameError>|
                    #[trigger] event_handled(t0.holdem, e0, event, rh, hd, ed, hc, hm, em, rl);
                match rh {
                    Ok(()) => {},
                    Err(e) => {
                        assert(table_event_handled(t0, e0, event, rh, *self, *effect, rh, hd, ed, hc, hm, em, rl));
                        return Err(e);
                    },
                }
                if effect.is_checkpoint() {
                    let ghost h = self.holdem;
                    let ghost tm = *self;
                    let res = self.report_hand_result(effect);
                    proof {
                        if res is Ok {
                            assert(final(self).holdem.player_map@ == mapped(kept_after_hand(h.player_map@), reset_fn()));
                        }
                    }
                    assert(table_event_handled(t0, e0, event, res, *self, *effect, rh, hd, ed, hc, hm, em, rl));
                    res
                } else {
                    assert(table_event_handled(t0, e0, event, Ok::<(), GameError>(()), *self, *effect, rh, hd, ed, hc, hm, em, rl));
                    Ok(())
                }
            },
        }
    }
}

proof fn lemma_first_free_some(pm: Map<u64, Player>, table_size: u8, p: u8)
    requires
        p < table_size,
        !has_position(pm, p as int),
        forall|q: int| 0 <= q < p ==> has_position(pm, q),
    ensures
        first_free(pm, table_size) == Some(p),
{
    assert(exists|x: u8| x < table_size && !has_position(pm, x as int));
    let c = choose|x: u8|
        x < table_size && !has_position(pm, x as int) && forall|q: int| 0 <= q < x ==> has_position(pm, q);
    assert(p < table_size && !has_position(pm, p as int) && forall|q: int| 0 <= q < p ==> has_position(pm, q));
    if c < p {
        assert(has_position(pm, c as int));
    }
    if p < c {
        assert(has_position(pm, p as int));
    }
}

proof fn lemma_first_free_none(pm: Map<u64, Player>, table_size: u8)
    requires
        forall|q: int| 0 <= q < table_size ==> has_position(pm, q),
    ensures
        first_free(pm, table_size) is None,
{
    assert forall|x: u8| x < table_size implies has_position(pm, x as int) by {}
}

proof fn lemma_sit_all_none(pm: Map<u64, Player>, table_size: u8, ss: Seq<MttTableSitin>, n: int)
    requires
        0 < n <= ss.len(),
        sit_all(pm, table_size, ss.take(n)) is None,
    ensures
        sit_all(pm, table_size, ss) is None,
    decreases ss.len() - n,
{
    if n < ss.len() {
        assert(ss.take(n + 1).drop_last() =~= ss.take(n));
        lemma_sit_all_none(pm, table_size, ss, n + 1);
    } else {
        assert(ss.take(n) =~= ss);
    }
}

proof fn lemma_without_none(pm: Map<u64, Player>, ids: Seq<u64>, n: int)
    requires
        0 < n <= ids.len(),
        without_players(pm, ids.take(n)) is None,
    ensures
        without_players(pm, ids) is None,
    decreases ids.len() - n,
{
    if n < ids.len() {
        assert(ids.take(n + 1).drop_last() =~= ids.take(n));
        lemma_without_none(pm, ids, n + 1);
    } else {
        assert(ids.take(n) =~= ids);
    }
}

} // verus!
