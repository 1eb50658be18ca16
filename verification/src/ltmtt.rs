//! A long-term tournament: players buy tickets for chips while the entry is
//! open, sit at tables of the blind level that their chips call for, move
//! up to higher levels as they win, and share the prize pool by their
//! ranking when the tournament settles.

use std::collections::BTreeMap;
use vstd::prelude::*;
use crate::effect::{only_actions_changed, Effect, EffectAction};
use crate::errors::GameError;
use crate::event::{Event, JoinedPlayer, PlayerDeposit};
use crate::keys::{index_key_seq, key_seq, sorted_index_keys, sorted_keys, strictly_increasing_ix};
use crate::mtt::{lemma_shares_grow, lemma_shares_past_end, rejections, shares_sum};
use crate::mtt_base::{ChipsChange, HoldemBridgeEvent, MttTablePlayer, MttTableSitin, MttTableState, PlayerResult};

verus! {

broadcast use vstd::std_specs::btree::group_btree_axioms;

/// What a deposit buys: `chips` for `deposit_amount`, at the given
/// deposit of the player (0 is the first), or at any when none is given.
#[derive(Debug, Clone, Copy, PartialEq, Eq, Structural)]
pub struct TicketRule {
    pub deposit_times: Option<usize>,
    pub deposit_amount: u64,
    pub chips: u64,
}

/// Whether rule `r` applies to the `times`-th deposit, of `amount`.
pub open spec fn ticket_matches(r: TicketRule, times: usize, amount: u64) -> bool {
    (match r.deposit_times {
        Some(t) => t == times,
        None => true,
    }) && r.deposit_amount == amount
}

impl TicketRule {
    /// Whether the rule applies to the `times`-th deposit, of `amount`.
    pub fn is_match(&self, times: usize, amount: u64) -> (r: bool)
        ensures
            r == ticket_matches(*self, times, amount),
    {
        let times_ok = match self.deposit_times {
            Some(t) => t == times,
            None => true,
        };
        times_ok && self.deposit_amount == amount
    }
}

/// The default tickets: a free first entry, two paid first entries, and
/// three rebuys.
pub open spec fn default_tickets() -> Seq<TicketRule> {
    seq![
        TicketRule { deposit_times: Some(0usize), deposit_amount: 0, chips: 15_000 },
        TicketRule { deposit_times: Some(0usize), deposit_amount: 3_500_000, chips: 1_850_000 },
        TicketRule { deposit_times: Some(0usize), deposit_amount: 50_000_000, chips: 7_500_000 },
        TicketRule { deposit_times: None, deposit_amount: 500_000, chips: 150_000 },
        TicketRule { deposit_times: None, deposit_amount: 3_500_000, chips: 1_850_000 },
        TicketRule { deposit_times: None, deposit_amount: 50_000_000, chips: 7_500_000 },
    ]
}

/// The default tickets.
pub fn default_ticket_rules() -> (r: Vec<TicketRule>)
    ensures
        r@ == default_tickets(),
{
    let r = vec![
        TicketRule { deposit_times: Some(0), deposit_amount: 0, chips: 15_000 },
        TicketRule { deposit_times: Some(0), deposit_amount: 3_500_000, chips: 1_850_000 },
        TicketRule { deposit_times: Some(0), deposit_amount: 50_000_000, chips: 7_500_000 },
        TicketRule { deposit_times: None, deposit_amount: 500_000, chips: 150_000 },
        TicketRule { deposit_times: None, deposit_amount: 3_500_000, chips: 1_850_000 },
        TicketRule { deposit_times: None, deposit_amount: 50_000_000, chips: 7_500_000 },
    ];
    assert(r@ =~= default_tickets());
    r
}

/// A blind level: the blinds of tables for players holding at most
/// `max_chips` chips (no limit when none is given).
#[derive(Debug, Clone, Copy, PartialEq, Eq, Structural)]
pub struct BlindRule {
    pub max_chips: Option<u64>,
    pub sb: u64,
    pub bb: u64,
    pub ante: u64,
}

/// Whether `chips` fit under the level's limit.
pub open spec fn fits_level(r: BlindRule, chips: u64) -> bool {
    match r.max_chips {
        Some(m) => chips <= m,
        None => true,
    }
}

/// The index of the first level from the `j`-th on that `chips` fit
/// under; the number of levels when none.
pub open spec fn first_fit(rules: Seq<BlindRule>, chips: u64, j: int) -> int
    decreases rules.len() - j,
{
    if j < 0 || j >= rules.len() {
        rules.len() as int
    } else if fits_level(rules[j], chips) {
        j
    } else {
        first_fit(rules, chips, j + 1)
    }
}

/// The first level that `chips` fit under, if any (the rules are meant
/// to be sorted by limit, and to end with one without limit).
pub fn match_blind_rule_by_chips(rules: &Vec<BlindRule>, chips: u64) -> (r: Option<BlindRule>)
    ensures
        first_fit(rules@, chips, 0) < rules@.len() ==> r == Some(rules@[first_fit(rules@, chips, 0)]),
        first_fit(rules@, chips, 0) >= rules@.len() ==> r is None,
{
    let mut i: usize = 0;
    while i < rules.len()
        invariant
            i <= rules@.len(),
            first_fit(rules@, chips, 0) == first_fit(rules@, chips, i as int),
        decreases rules@.len() - i,
    {
        let r = rules[i];
        let fits = match r.max_chips {
            Some(m) => chips <= m,
            None => true,
        };
        if fits {
            return Some(r);
        }
        i = i + 1;
    }
    None
}

/// The default blind levels.
pub open spec fn default_levels() -> Seq<BlindRule> {
    seq![
        BlindRule { max_chips: Some(150_000u64), sb: 50, bb: 100, ante: 0 },
        BlindRule { max_chips: Some(300_000u64), sb: 100, bb: 200, ante: 0 },
        BlindRule { max_chips: Some(400_000u64), sb: 200, bb: 400, ante: 0 },
        BlindRule { max_chips: Some(1_000_000u64), sb: 500, bb: 1000, ante: 0 },
        BlindRule { max_chips: Some(2_000_000u64), sb: 1000, bb: 2000, ante: 0 },
        BlindRule { max_chips: Some(4_000_000u64), sb: 2000, bb: 4000, ante: 0 },
        BlindRule { max_chips: Some(8_000_000u64), sb: 4000, bb: 8000, ante: 0 },
        BlindRule { max_chips: Some(10_000_000u64), sb: 5000, bb: 10_000, ante: 0 },
        BlindRule { max_chips: Some(20_000_000u64), sb: 10_000, bb: 20_000, ante: 0 },
        BlindRule { max_chips: None, sb: 20_000, bb: 40_000, ante: 0 },
    ]
}

/// The default blind levels, by increasing limit, the last without one.
pub fn default_blind_rules() -> (r: Vec<BlindRule>)
    ensures
        r@ == default_levels(),
{
    let r = vec![
        BlindRule { max_chips: Some(150_000), sb: 50, bb: 100, ante: 0 },
        BlindRule { max_chips: Some(300_000), sb: 100, bb: 200, ante: 0 },
        BlindRule { max_chips: Some(400_000), sb: 200, bb: 400, ante: 0 },
        BlindRule { max_chips: Some(1_000_000), sb: 500, bb: 1000, ante: 0 },
        BlindRule { max_chips: Some(2_000_000), sb: 1000, bb: 2000, ante: 0 },
        BlindRule { max_chips: Some(4_000_000), sb: 2000, bb: 4000, ante: 0 },
        BlindRule { max_chips: Some(8_000_000), sb: 4000, bb: 8000, ante: 0 },
        BlindRule { max_chips: Some(10_000_000), sb: 5000, bb: 10_000, ante: 0 },
        BlindRule { max_chips: Some(20_000_000), sb: 10_000, bb: 20_000, ante: 0 },
        BlindRule { max_chips: None, sb: 20_000, bb: 40_000, ante: 0 },
    ];
    assert(r@ =~= default_levels());
    r
}

/// Where a player of the tournament is.
#[derive(Debug, Clone, Copy, PartialEq, Eq, Structural)]
pub enum LtMttPlayerStatus {
    /// not at a table
    Out,
    /// asked to sit at a table
    Pending,
    /// playing at a table
    Playing,
}

/// A player in the ranking of the tournament.
#[derive(Debug, Clone)]
pub struct LtMttPlayer {
    pub player_id: u64,
    pub position: u16,
    pub status: LtMttPlayerStatus,
    pub chips: u64,
    /// the amounts of the player's deposits, in order
    pub deposit_history: Vec<u64>,
}

/// The stages of a long-term tournament.
#[derive(Debug, Clone, Copy, PartialEq, Eq, Structural)]
pub enum LtMttStage {
    Init,
    EntryOpened,
    EntryClosed,
    Settled,
}

/// A player's own events.
#[derive(Debug, Clone, Copy, PartialEq, Eq, Structural)]
pub enum ClientEvent {
    SitIn,
    SitOut,
}

/// The data of a long-term tournament's account.
#[derive(Debug, Clone)]
pub struct LtMttAccountData {
    /// times are in milliseconds
    pub entry_open_time: u64,
    pub entry_close_time: u64,
    pub settle_time: u64,
    pub table_size: u8,
    pub ticket_rules: Vec<TicketRule>,
    pub rake: u16,
    /// the shares of the prize pool by place
    pub prize_rules: Vec<u8>,
    pub subgame_bundle: String,
}

/// A long-term tournament.
#[derive(Debug)]
pub struct LtMtt {
    pub entry_open_time: u64,
    pub entry_close_time: u64,
    pub settle_time: u64,
    pub table_size: u8,
    pub ticket_rules: Vec<TicketRule>,
    pub total_prize: u64,
    pub prize_rules: Vec<u8>,
    pub rake: u16,
    pub blind_rules: Vec<BlindRule>,
    pub subgame_bundle: String,
    pub stage: LtMttStage,
    /// the players, by decreasing chips
    pub rankings: Vec<LtMttPlayer>,
    pub tables: BTreeMap<usize, MttTableState>,
    /// the table of each seated player
    pub table_assigns: BTreeMap<u64, usize>,
    /// the table each player asked to sit at, until the table confirms
    pub table_assigns_pending: BTreeMap<u64, usize>,
    /// the balances of the game; 0 stands for what is not distributed yet
    pub player_balances: BTreeMap<u64, u64>,
}

/// The index of the first player `id` in the ranking from the `j`-th on;
/// the number of players when none.
pub open spec fn first_player(rs: Seq<LtMttPlayer>, id: u64, j: int) -> int
    decreases rs.len() - j,
{
    if j < 0 || j >= rs.len() {
        rs.len() as int
    } else if rs[j].player_id == id {
        j
    } else {
        first_player(rs, id, j + 1)
    }
}

/// Where a player with `chips` goes among players sorted by decreasing
/// chips, looking from the `j`-th on: before the first with fewer chips.
pub open spec fn chips_pos(s: Seq<LtMttPlayer>, chips: u64, j: int) -> int
    decreases s.len() - j,
{
    if j < 0 || j >= s.len() {
        s.len() as int
    } else if s[j].chips < chips {
        j
    } else {
        chips_pos(s, chips, j + 1)
    }
}

/// The players by decreasing chips; players with equal chips keep their
/// order.
pub open spec fn sort_by_chips(rs: Seq<LtMttPlayer>) -> Seq<LtMttPlayer>
    decreases rs.len(),
{
    if rs.len() == 0 {
        Seq::empty()
    } else {
        let s = sort_by_chips(rs.drop_last());
        s.insert(chips_pos(s, rs.last().chips, 0), rs.last())
    }
}

/// The sum of the balances of `ids`.
pub open spec fn balance_sum(b: Map<u64, u64>, ids: Seq<u64>) -> nat
    decreases ids.len(),
{
    if ids.len() == 0 {
        0
    } else {
        (balance_sum(b, ids.drop_last()) + b[ids.last()]) as nat
    }
}

/// What is left of `a - b`, at least 0.
pub open spec fn sat_sub(a: u64, b: u64) -> u64 {
    if a > b {
        (a - b) as u64
    } else {
        0
    }
}

/// How long to wait at time `ts` for the next stage.
pub open spec fn stage_timeout(m: LtMtt, ts: u64) -> Option<u64> {
    match m.stage {
        LtMttStage::Init => Some(sat_sub(m.entry_open_time, ts)),
        LtMttStage::EntryOpened => Some(sat_sub(m.entry_close_time, ts)),
        LtMttStage::EntryClosed => Some(sat_sub(m.settle_time, ts)),
        LtMttStage::Settled => None,
    }
}

/// While the entry is open, every joining player ends up in the ranking:
/// those not there yet are added after the others, out of the tables,
/// without chips; otherwise nothing changes.
pub open spec fn join_done(m0: LtMtt, m1: LtMtt, players: Seq<JoinedPlayer>) -> bool {
    &&& m0.stage != LtMttStage::EntryOpened ==> m1 == m0
    &&& m0.stage == LtMttStage::EntryOpened ==> {
        &&& m1.rankings@.len() >= m0.rankings@.len()
        &&& m1.rankings@.take(m0.rankings@.len() as int) == m0.rankings@
        &&& forall|j: int| 0 <= j < players.len() ==> first_player(m1.rankings@, #[trigger] players[j].id, 0) < m1.rankings@.len()
        &&& forall|k: int| m0.rankings@.len() <= k < m1.rankings@.len() ==> {
            let p = #[trigger] m1.rankings@[k];
            &&& p.status == LtMttPlayerStatus::Out && p.chips == 0 && p.deposit_history@.len() == 0
            &&& first_player(m0.rankings@, p.player_id, 0) >= m0.rankings@.len()
            &&& exists|j: int| 0 <= j < players.len() && players[j].id == p.player_id && players[j].position == p.position
        }
        &&& m1 == (LtMtt { rankings: m1.rankings, ..m0 })
    }
}

impl LtMtt {
    /// A tournament from its account data, with the default tickets when
    /// none are given and the default blind levels; refused when the
    /// entry opens after it closes or closes after the settlement.
    pub fn init_state(data: LtMttAccountData) -> (r: Result<LtMtt, GameError>)
        ensures
            data.entry_open_time > data.entry_close_time || data.entry_close_time > data.settle_time ==> r
                == Err::<LtMtt, GameError>(GameError::MalformedGameAccountData),
            data.entry_open_time <= data.entry_close_time <= data.settle_time ==> (r matches Ok(m) && {
                &&& m.entry_open_time == data.entry_open_time && m.entry_close_time == data.entry_close_time
                &&& m.settle_time == data.settle_time && m.table_size == data.table_size
                &&& m.ticket_rules@ == if data.ticket_rules@.len() == 0 {
                    default_tickets()
                } else {
                    data.ticket_rules@
                }
                &&& m.rake == data.rake && m.prize_rules@ == data.prize_rules@
                &&& m.subgame_bundle@ == data.subgame_bundle@
                &&& m.blind_rules@ == default_levels()
                &&& m.player_balances@ == Map::<u64, u64>::empty().insert(0, 0)
                &&& m.total_prize == 0 && m.stage == LtMttStage::Init && m.rankings@.len() == 0
                &&& m.tables@.is_empty() && m.table_assigns@.is_empty() && m.table_assigns_pending@.is_empty()
            }),
    {
        let ticket_rules = if data.ticket_rules.len() == 0 {
            default_ticket_rules()
        } else {
            data.ticket_rules
        };
        if data.entry_open_time > data.entry_close_time || data.entry_close_time > data.settle_time {
            return Err(GameError::MalformedGameAccountData);
        }
        let mut player_balances: BTreeMap<u64, u64> = BTreeMap::new();
        player_balances.insert(0, 0);
        Ok(LtMtt {
            entry_open_time: data.entry_open_time,
            entry_close_time: data.entry_close_time,
            settle_time: data.settle_time,
            table_size: data.table_size,
            ticket_rules,
            total_prize: 0,
            prize_rules: data.prize_rules,
            rake: data.rake,
            blind_rules: default_blind_rules(),
            subgame_bundle: data.subgame_bundle,
            stage: LtMttStage::Init,
            rankings: Vec::new(),
            tables: BTreeMap::new(),
            table_assigns: BTreeMap::new(),
            table_assigns_pending: BTreeMap::new(),
            player_balances,
        })
    }

    /// The balance of the game: the sum of all balances, held by 0.
    pub fn balances(&self) -> (r: Vec<(u64, u64)>)
        requires
            balance_sum(self.player_balances@, key_seq(self.player_balances@)) <= u64::MAX,
        ensures
            r@ == seq![(0u64, balance_sum(self.player_balances@, key_seq(self.player_balances@)) as u64)],
    {
        let ids = sorted_keys(&self.player_balances);
        let ghost b = self.player_balances@;
        let mut sum: u64 = 0;
        let mut i: usize = 0;
        while i < ids.len()
            invariant
                ids@ == key_seq(b),
                ids@.to_set() == b.dom(),
                b == self.player_balances@,
                balance_sum(b, ids@) <= u64::MAX,
                i <= ids@.len(),
                sum == balance_sum(b, ids@.take(i as int)),
            decreases ids@.len() - i,
        {
            let id = ids[i];
            assert(ids@.to_set().contains(id));
            assert(ids@.take(i + 1).drop_last() =~= ids@.take(i as int));
            proof {
                lemma_balance_sum_grows(b, ids@, i + 1, ids@.len() as int);
                assert(ids@.take(ids@.len() as int) =~= ids@);
            }
            let v = match self.player_balances.get(&id) {
                Some(v) => *v,
                None => 0,
            };
            sum = sum + v;
            i = i + 1;
        }
        assert(ids@.take(i as int) =~= ids@);
        let mut out: Vec<(u64, u64)> = Vec::new();
        out.push((0, sum));
        out
    }

    /// How long to wait for the next stage, if there is one.
    pub fn calc_timeout_should_send(&self, effect: &Effect) -> (r: Option<u64>)
        ensures
            r == stage_timeout(*self, effect.timestamp),
    {
        let ts = effect.timestamp();
        match self.stage {
            LtMttStage::Init => Some(if self.entry_open_time > ts { self.entry_open_time - ts } else { 0 }),
            LtMttStage::EntryOpened => Some(if self.entry_close_time > ts { self.entry_close_time - ts } else { 0 }),
            LtMttStage::EntryClosed => Some(if self.settle_time > ts { self.settle_time - ts } else { 0 }),
            LtMttStage::Settled => None,
        }
    }

    /// The index of a player in the ranking: the first with the id.
    fn player_index(&self, id: u64) -> (r: Option<usize>)
        ensures
            r matches Some(i) ==> i < self.rankings@.len() && i == first_player(self.rankings@, id, 0),
            r is None ==> first_player(self.rankings@, id, 0) >= self.rankings@.len(),
    {
        let mut i: usize = 0;
        while i < self.rankings.len()
            invariant
                i <= self.rankings@.len(),
                first_player(self.rankings@, id, 0) == first_player(self.rankings@, id, i as int),
            decreases self.rankings@.len() - i,
        {
            if self.rankings[i].player_id == id {
                return Some(i);
            }
            i = i + 1;
        }
        None
    }

    /// A player's id and chips, refused for a player not in the ranking.
    pub fn find_player_by_id(&self, player_id: u64) -> (r: Result<(u64, u64), GameError>)
        ensures
            ({
                let k = first_player(self.rankings@, player_id, 0);
                &&& k >= self.rankings@.len() ==> r == Err::<(u64, u64), GameError>(GameError::PlayerNotFound)
                &&& k < self.rankings@.len() ==> r == Ok::<(u64, u64), GameError>((self.rankings@[k].player_id, self.rankings@[k].chips))
            }),
    {
        match self.player_index(player_id) {
            Some(i) => Ok((self.rankings[i].player_id, self.rankings[i].chips)),
            None => Err(GameError::PlayerNotFound),
        }
    }

    /// Sort the ranking by decreasing chips; players with equal chips keep
    /// their order.
    pub fn sort_rankings(&mut self)
        ensures
            final(self).rankings@ == sort_by_chips(old(self).rankings@),
            *final(self) == (LtMtt { rankings: final(self).rankings, ..*old(self) }),
    {
        let mut rest: Vec<LtMttPlayer> = Vec::new();
        std::mem::swap(&mut rest, &mut self.rankings);
        let ghost all = rest@;
        let n = rest.len();
        let mut out: Vec<LtMttPlayer> = Vec::new();
        let mut i: usize = 0;
        while rest.len() > 0
            invariant
                all.len() == n,
                i + rest@.len() == all.len(),
                rest@ == all.skip(i as int),
                out@ == sort_by_chips(all.take(i as int)),
                *self == (LtMtt { rankings: self.rankings, ..*old(self) }),
                all == old(self).rankings@,
            decreases rest@.len(),
        {
            let p = rest.remove(0);
            assert(p == all[i as int]);
            let ghost s = out@;
            let mut j: usize = 0;
            while j < out.len() && out[j].chips >= p.chips
                invariant
                    out@ == s,
                    j <= s.len(),
                    chips_pos(s, p.chips, 0) == chips_pos(s, p.chips, j as int),
                decreases s.len() - j,
            {
                j = j + 1;
            }
            out.insert(j, p);
            assert(all.take(i + 1).drop_last() =~= all.take(i as int));
            assert(rest@ =~= all.skip(i + 1));
            i = i + 1;
        }
        assert(all.take(i as int) =~= all);
        self.rankings = out;
    }

    /// Add the joining players to the ranking while the entry is open;
    /// a player already there is not added again.
    pub fn on_join(&mut self, new_players: &Vec<JoinedPlayer>)
        ensures
            join_done(*old(self), *final(self), new_players@),
    {
        if self.stage != LtMttStage::EntryOpened {
            return;
        }
        let mut i: usize = 0;
        while i < new_players.len()
            invariant
                old(self).stage == LtMttStage::EntryOpened,
                i <= new_players@.len(),
                self.rankings@.len() >= old(self).rankings@.len(),
                self.rankings@.take(old(self).rankings@.len() as int) == old(self).rankings@,
                forall|j: int| 0 <= j < i ==> first_player(self.rankings@, #[trigger] new_players@[j].id, 0) < self.rankings@.len(),
                forall|k: int| old(self).rankings@.len() <= k < self.rankings@.len() ==> {
                    let p = #[trigger] self.rankings@[k];
                    &&& p.status == LtMttPlayerStatus::Out && p.chips == 0 && p.deposit_history@.len() == 0
                    &&& first_player(old(self).rankings@, p.player_id, 0) >= old(self).rankings@.len()
                    &&& exists|j: int| 0 <= j < new_players@.len() && new_players@[j].id == p.player_id && new_players@[j].position == p.position
                },
                *self == (LtMtt { rankings: self.rankings, ..*old(self) }),
            decreases new_players@.len() - i,
        {
            let p = new_players[i];
            let ghost before = self.rankings@;
            match self.player_index(p.id) {
                Some(_) => {},
                None => {
                    let np = LtMttPlayer {
                        player_id: p.id,
                        position: p.position as u16,
                        status: LtMttPlayerStatus::Out,
                        chips: 0,
                        deposit_history: Vec::new(),
                    };
                    self.rankings.push(np);
                    proof {
                        lemma_first_player_push(before, np, p.id);
                        assert forall|j: int| 0 <= j < i + 1 implies first_player(self.rankings@, #[trigger] new_players@[j].id, 0) < self.rankings@.len() by {
                            if j < i {
                                lemma_first_player_push(before, np, new_players@[j].id);
                            }
                        }
                        lemma_first_player_prefix(before, old(self).rankings@.len() as int, p.id);
                        assert(self.rankings@.take(old(self).rankings@.len() as int) =~= old(self).rankings@);
                    }
                },
            }
            i = i + 1;
        }
    }
}

/// One result of a hand applied to the ranking: the chips of the first
/// player with its id change; refused for an unknown player or chips
/// that would overflow or go negative.
pub open spec fn lt_chips_step(rs: Seq<LtMttPlayer>, res: PlayerResult) -> Result<Seq<LtMttPlayer>, GameError> {
    match res.chips_change {
        None => Ok(rs),
        Some(ch) => {
            let k = first_player(rs, res.player_id, 0);
            if k >= rs.len() {
                Err(GameError::PlayerNotFound)
            } else {
                match ch {
                    ChipsChange::Add(a) => if rs[k].chips + a > u64::MAX {
                        Err(GameError::InternalAmountOverflow)
                    } else {
                        Ok(rs.update(k, LtMttPlayer { chips: (rs[k].chips + a) as u64, ..rs[k] }))
                    },
                    ChipsChange::Sub(a) => if a > rs[k].chips {
                        Err(GameError::InternalAmountOverflow)
                    } else {
                        Ok(rs.update(k, LtMttPlayer { chips: (rs[k].chips - a) as u64, ..rs[k] }))
                    },
                }
            }
        },
    }
}

/// The results of a hand applied to the ranking, one after the other;
/// the first refusal stops them.
pub open spec fn lt_chips_run(rs: Seq<LtMttPlayer>, results: Seq<PlayerResult>) -> Result<Seq<LtMttPlayer>, GameError>
    decreases results.len(),
{
    if results.len() == 0 {
        Ok(rs)
    } else {
        match lt_chips_run(rs, results.drop_last()) {
            Err(e) => Err(e),
            Ok(s) => lt_chips_step(s, results.last()),
        }
    }
}

/// The index of the first ticket rule from the `j`-th on that applies to
/// the `times`-th deposit of `amount`; the number of rules when none.
pub open spec fn first_ticket(rules: Seq<TicketRule>, times: usize, amount: u64, j: int) -> int
    decreases rules.len() - j,
{
    if j < 0 || j >= rules.len() {
        rules.len() as int
    } else if ticket_matches(rules[j], times, amount) {
        j
    } else {
        first_ticket(rules, times, amount, j + 1)
    }
}

/// The ranking with the `k`-th player's fields changed as given.
pub open spec fn changed_at(
    old_rs: Seq<LtMttPlayer>,
    new_rs: Seq<LtMttPlayer>,
    k: int,
    chips: u64,
    status: LtMttPlayerStatus,
    history: Seq<u64>,
) -> bool {
    &&& new_rs.len() == old_rs.len()
    &&& forall|j: int| 0 <= j < old_rs.len() && j != k ==> new_rs[j] == old_rs[j]
    &&& new_rs[k].player_id == old_rs[k].player_id && new_rs[k].position == old_rs[k].position
    &&& new_rs[k].chips == chips && new_rs[k].status == status && new_rs[k].deposit_history@ == history
}

/// A table fit for players holding `chips`, needing `seats` seats: of the
/// level those chips call for or a higher one, with the seats free.
pub open spec fn fit_table(t: MttTableState, rule: BlindRule, seats: usize, table_size: u8) -> bool {
    rule.sb <= t.sb && t.players@.len() + seats <= table_size
}

/// Table `a` comes before table `b`: lower blinds, or equal blinds and
/// more players.
pub open spec fn table_before(a: MttTableState, b: MttTableState) -> bool {
    a.sb < b.sb || (a.sb == b.sb && a.players@.len() > b.players@.len())
}

/// The level that `chips` call for: the first whose limit they fit under.
pub open spec fn level_for(m: LtMtt, chips: u64) -> BlindRule {
    m.blind_rules@[first_fit(m.blind_rules@, chips, 0)]
}

/// No table fits players holding `chips` who need `seats` seats.
pub open spec fn no_table_fits(m: LtMtt, seats: usize, chips: u64) -> bool {
    forall|u: usize| #[trigger] m.tables@.contains_key(u) ==> !fit_table(m.tables@[u], level_for(m, chips), seats, m.table_size)
}

/// Table `t` is where players holding `chips` who need `seats` seats go:
/// among the fitting tables, none comes before it, and it comes before
/// every fitting table of a smaller id.
pub open spec fn table_to_sit(m: LtMtt, seats: usize, chips: u64, t: usize) -> bool {
    let rule = level_for(m, chips);
    &&& m.tables@.contains_key(t) && fit_table(m.tables@[t], rule, seats, m.table_size)
    &&& forall|u: usize| #[trigger] m.tables@.contains_key(u) && fit_table(m.tables@[u], rule, seats, m.table_size)
        ==> !table_before(m.tables@[u], m.tables@[t])
    &&& forall|u: usize| #[trigger] m.tables@.contains_key(u) && u < t && fit_table(m.tables@[u], rule, seats, m.table_size)
        ==> table_before(m.tables@[t], m.tables@[u])
}

/// What looking for a table gives: refused without a level for the chips
/// or without a fitting table, else the table to sit.
pub open spec fn table_found(m: LtMtt, seats: usize, chips: u64, r: Result<usize, GameError>) -> bool {
    if first_fit(m.blind_rules@, chips, 0) >= m.blind_rules@.len() {
        r == Err::<usize, GameError>(GameError::EmptyBlindRules)
    } else if no_table_fits(m, seats, chips) {
        r == Err::<usize, GameError>(GameError::TableNotFound)
    } else {
        r matches Ok(t) && table_to_sit(m, seats, chips, t)
    }
}

/// The number of places paid: as many as there are players and shares.
pub open spec fn paid_count(m: LtMtt) -> int {
    if m.rankings@.len() < m.prize_rules@.len() {
        m.rankings@.len() as int
    } else {
        m.prize_rules@.len() as int
    }
}

/// Paying the prizes: without players nothing happens; else the shares of
/// the places paid must be between 1 and 255, and each place is paid its
/// share of the prize pool, in ranking order, the undistributed balance
/// becoming 0.
pub open spec fn settle_done(m0: LtMtt, e0: Effect, r: Result<(), GameError>, m1: LtMtt, e1: Effect) -> bool {
    let shares = shares_sum(m0.prize_rules@, m0.rankings@.len() as int);
    if m0.rankings@.len() == 0 {
        r is Ok && m1 == m0 && e1 == e0
    } else if shares > 255 {
        r == Err::<(), GameError>(GameError::InternalAmountOverflow)
    } else if shares == 0 {
        r == Err::<(), GameError>(GameError::PrizeSharesMissing)
    } else {
        let each = m0.total_prize / (shares as u64);
        &&& r is Ok
        &&& m1.player_balances@ == m0.player_balances@.insert(0, 0)
        &&& m1 == (LtMtt { player_balances: m1.player_balances, ..m0 })
        &&& only_actions_changed(e0, e1)
        &&& e1.actions@ == e0.actions@ + Seq::new(
            paid_count(m0) as nat,
            |i: int| EffectAction::Withdraw { player_id: m0.rankings@[i].player_id, amount: (each * m0.prize_rules@[i]) as u64 },
        )
    }
}

/// What one deposit does while the entry may be open, as `on_deposit`
/// states it: accepted (true) or rejected (false), or an overflow.
pub open spec fn deposit_done(m0: LtMtt, a0: Seq<EffectAction>, d: PlayerDeposit, r: Result<bool, GameError>, m1: LtMtt, a1: Seq<EffectAction>) -> bool {
    let k = first_player(m0.rankings@, d.id, 0);
    let reject = a0.push(EffectAction::RejectDeposit { player_id: d.id, amount: d.balance });
    if m0.stage != LtMttStage::EntryOpened || k >= m0.rankings@.len() {
        r == Ok::<bool, GameError>(false) && m1 == m0 && a1 == reject
    } else {
        let p = m0.rankings@[k];
        let t = first_ticket(m0.ticket_rules@, p.deposit_history@.len() as usize, d.balance, 0);
        if t >= m0.ticket_rules@.len() {
            r == Ok::<bool, GameError>(false) && m1 == m0 && a1 == reject
        } else {
            let rake = d.balance * 10 / 1000;
            let prize = d.balance - rake;
            if d.balance * 10 > u64::MAX || m0.total_prize + prize > u64::MAX {
                r == Err::<bool, GameError>(GameError::InternalAmountOverflow)
            } else {
                &&& r == Ok::<bool, GameError>(true)
                &&& changed_at(m0.rankings@, m1.rankings@, k, m0.ticket_rules@[t].chips, p.status, p.deposit_history@.push(d.balance))
                &&& m1.total_prize == m0.total_prize + prize
                &&& m1.player_balances@ == m0.player_balances@.insert(d.id, prize as u64)
                &&& m1 == (LtMtt {
                    rankings: m1.rankings,
                    total_prize: m1.total_prize,
                    player_balances: m1.player_balances,
                    ..m0
                })
                &&& a1 == a0.push(EffectAction::Transfer { amount: rake as u64 }).push(
                    EffectAction::AcceptDeposit { player_id: d.id, amount: d.balance },
                )
            }
        }
    }
}

/// One deposit of a batch: as `deposit_done`, the ranking sorted again by
/// chips after an accepted one; the batch stops at an error.
pub open spec fn deposit_step(m0: LtMtt, a0: Seq<EffectAction>, d: PlayerDeposit, r: Result<(), GameError>, m1: LtMtt, a1: Seq<EffectAction>) -> bool {
    exists|rb: Result<bool, GameError>, mx: LtMtt| {
        &&& #[trigger] deposit_done(m0, a0, d, rb, mx, a1)
        &&& match rb {
            Err(e) => r == Err::<(), GameError>(e),
            Ok(accepted) => {
                &&& r is Ok
                &&& accepted ==> m1.rankings@ == sort_by_chips(mx.rankings@) && m1 == (LtMtt { rankings: m1.rankings, ..mx })
                &&& !accepted ==> m1 == mx
            },
        }
    }
}

/// A batch of deposits taken one after another, stopping at the first
/// error.
pub open spec fn deposits_taken(m0: LtMtt, a0: Seq<EffectAction>, ds: Seq<PlayerDeposit>, r: Result<(), GameError>, m1: LtMtt, a1: Seq<EffectAction>) -> bool
    decreases ds.len(),
{
    if ds.len() == 0 {
        r is Ok && m1 == m0 && a1 == a0
    } else {
        ||| r is Err && deposits_taken(m0, a0, ds.drop_last(), r, m1, a1)
        ||| exists|mm: LtMtt, am: Seq<EffectAction>|
            #[trigger] deposit_step(mm, am, ds.last(), r, m1, a1) && deposits_taken(m0, a0, ds.drop_last(), Ok::<(), GameError>(()), mm, am)
    }
}

/// Taking one more deposit of a batch.
pub proof fn lemma_deposits_taken_push(
    m0: LtMtt,
    a0: Seq<EffectAction>,
    ds: Seq<PlayerDeposit>,
    i: int,
    mm: LtMtt,
    am: Seq<EffectAction>,
    r: Result<(), GameError>,
    m1: LtMtt,
    a1: Seq<EffectAction>,
)
    requires
        0 <= i < ds.len(),
        deposits_taken(m0, a0, ds.take(i), Ok::<(), GameError>(()), mm, am),
        deposit_step(mm, am, ds[i], r, m1, a1),
    ensures
        deposits_taken(m0, a0, ds.take(i + 1), r, m1, a1),
{
    let t = ds.take(i + 1);
    assert(t.drop_last() =~= ds.take(i));
    assert(t.last() == ds[i]);
    assert(deposit_step(mm, am, t.last(), r, m1, a1));
}

/// A batch that failed on a prefix fails the same way on the whole.
pub proof fn lemma_deposits_error_extends(
    m0: LtMtt,
    a0: Seq<EffectAction>,
    ds: Seq<PlayerDeposit>,
    j: int,
    r: Result<(), GameError>,
    m1: LtMtt,
    a1: Seq<EffectAction>,
)
    requires
        r is Err,
        0 <= j <= ds.len(),
        deposits_taken(m0, a0, ds.take(j), r, m1, a1),
    ensures
        deposits_taken(m0, a0, ds, r, m1, a1),
    decreases ds.len() - j,
{
    if j == ds.len() {
        assert(ds.take(j) =~= ds);
    } else {
        assert(ds.take(j + 1).drop_last() =~= ds.take(j));
        lemma_deposits_error_extends(m0, a0, ds, j + 1, r, m1, a1);
    }
}

impl LtMtt {
    /// A deposit while the entry is open buys the chips of the first
    /// ticket rule that applies to it (by the player's number of deposits
    /// and the amount); one percent is taken as rake and the rest goes to
    /// the prize pool.  Refused, and rejected, for an unknown player, a
    /// deposit no rule applies to, or outside the entry.  True when
    /// accepted.
    pub fn on_deposit(&mut self, effect: &mut Effect, deposit: &PlayerDeposit) -> (r: Result<bool, GameError>)
        ensures
            only_actions_changed(*old(effect), *final(effect)),
            deposit_done(*old(self), old(effect).actions@, *deposit, r, *final(self), final(effect).actions@),
    {
        if self.stage != LtMttStage::EntryOpened {
            effect.push(EffectAction::RejectDeposit { player_id: deposit.id, amount: deposit.balance });
            return Ok(false);
        }
        let k = match self.player_index(deposit.id) {
            Some(k) => k,
            None => {
                effect.push(EffectAction::RejectDeposit { player_id: deposit.id, amount: deposit.balance });
                return Ok(false);
            },
        };
        let times = self.rankings[k].deposit_history.len();
        let t = match self.ticket_index(times, deposit.balance) {
            Some(t) => t,
            None => {
                effect.push(EffectAction::RejectDeposit { player_id: deposit.id, amount: deposit.balance });
                return Ok(false);
            },
        };
        let chips = self.ticket_rules[t].chips;
        if deposit.balance > u64::MAX / 10 {
            return Err(GameError::InternalAmountOverflow);
        }
        let rake = deposit.balance * 10 / 1000;
        let prize = deposit.balance - rake;
        if prize > u64::MAX - self.total_prize {
            return Err(GameError::InternalAmountOverflow);
        }
        let ghost before = self.rankings@;
        let mut player = self.rankings.remove(k);
        player.chips = chips;
        player.deposit_history.push(deposit.balance);
        self.rankings.insert(k, player);
        proof {
            assert(self.rankings@ =~= before.update(k as int, self.rankings@[k as int]));
        }
        self.total_prize = self.total_prize + prize;
        self.player_balances.insert(deposit.id, prize);
        effect.push(EffectAction::Transfer { amount: rake });
        effect.push(EffectAction::AcceptDeposit { player_id: deposit.id, amount: deposit.balance });
        Ok(true)
    }

    /// The index of the first ticket rule that applies to the `times`-th
    /// deposit of `amount`, if any.
    fn ticket_index(&self, times: usize, amount: u64) -> (r: Option<usize>)
        ensures
            r matches Some(t) ==> t == first_ticket(self.ticket_rules@, times, amount, 0) && t < self.ticket_rules@.len(),
            r is None ==> first_ticket(self.ticket_rules@, times, amount, 0) >= self.ticket_rules@.len(),
    {
        let mut t: usize = 0;
        while t < self.ticket_rules.len()
            invariant
                t <= self.ticket_rules@.len(),
                first_ticket(self.ticket_rules@, times, amount, 0) == first_ticket(self.ticket_rules@, times, amount, t as int),
            decreases self.ticket_rules@.len() - t,
        {
            if self.ticket_rules[t].is_match(times, amount) {
                return Some(t);
            }
            t = t + 1;
        }
        None
    }

    /// Apply the chips changes of a hand to the ranking, one result after
    /// the other, then sort it; refused for an unknown player or chips that
    /// would overflow or go negative.
    pub fn apply_chips_change(&mut self, player_results: &Vec<PlayerResult>) -> (r: Result<(), GameError>)
        ensures
            match lt_chips_run(old(self).rankings@, player_results@) {
                Err(e) => r == Err::<(), GameError>(e),
                Ok(s) => {
                    &&& r is Ok
                    &&& final(self).rankings@ == sort_by_chips(s)
                    &&& *final(self) == (LtMtt { rankings: final(self).rankings, ..*old(self) })
                },
            },
    {
        let ghost r0 = self.rankings@;
        let mut i: usize = 0;
        while i < player_results.len()
            invariant
                r0 == old(self).rankings@,
                i <= player_results@.len(),
                lt_chips_run(r0, player_results@.take(i as int)) == Ok::<Seq<LtMttPlayer>, GameError>(self.rankings@),
                *self == (LtMtt { rankings: self.rankings, ..*old(self) }),
            decreases player_results@.len() - i,
        {
            let rst = player_results[i];
            let ghost cur = self.rankings@;
            proof {
                assert(player_results@.take(i + 1).drop_last() =~= player_results@.take(i as int));
                assert(player_results@.take(i + 1).last() == rst);
                lemma_lt_chips_run_err(r0, player_results@, i + 1);
            }
            match rst.chips_change {
                None => {},
                Some(change) => {
                    let k = match self.player_index(rst.player_id) {
                        Some(k) => k,
                        None => {
                            return Err(GameError::PlayerNotFound);
                        },
                    };
                    let mut player = self.rankings.remove(k);
                    match change {
                        ChipsChange::Add(a) => {
                            if player.chips > u64::MAX - a {
                                return Err(GameError::InternalAmountOverflow);
                            }
                            player.chips = player.chips + a;
                        },
                        ChipsChange::Sub(a) => {
                            if a > player.chips {
                                return Err(GameError::InternalAmountOverflow);
                            }
                            player.chips = player.chips - a;
                        },
                    }
                    self.rankings.insert(k, player);
                    proof {
                        assert(self.rankings@ =~= cur.update(k as int, self.rankings@[k as int]));
                    }
                },
            }
            i = i + 1;
        }
        proof {
            assert(player_results@.take(i as int) =~= player_results@);
        }
        self.sort_rankings();
        Ok(())
    }

    /// Pay the prizes: each place its share of the prize pool, by the
    /// prize rules; nothing without players.
    pub fn do_settle(&mut self, effect: &mut Effect) -> (r: Result<(), GameError>)
        ensures
            settle_done(*old(self), *old(effect), r, *final(self), *final(effect)),
    {
        if self.rankings.len() == 0 {
            return Ok(());
        }
        let n = if self.rankings.len() < self.prize_rules.len() {
            self.rankings.len()
        } else {
            self.prize_rules.len()
        };
        proof {
            if self.rankings@.len() >= self.prize_rules@.len() {
                lemma_shares_past_end(self.prize_rules@, self.rankings@.len() as int);
            }
        }
        let mut sum: u64 = 0;
        let mut i: usize = 0;
        while i < n
            invariant
                n <= self.prize_rules@.len(),
                shares_sum(self.prize_rules@, n as int) == shares_sum(self.prize_rules@, self.rankings@.len() as int),
                i <= n,
                sum == shares_sum(self.prize_rules@, i as int),
                sum <= 255,
            decreases n - i,
        {
            sum = sum + self.prize_rules[i] as u64;
            if sum > 255 {
                proof {
                    lemma_shares_grow(self.prize_rules@, i + 1, n as int);
                }
                return Err(GameError::InternalAmountOverflow);
            }
            i = i + 1;
        }
        if sum == 0 {
            return Err(GameError::PrizeSharesMissing);
        }
        let each = self.total_prize / sum;
        self.player_balances.insert(0, 0);
        let ghost a0 = effect.actions@;
        let mut j: usize = 0;
        while j < n
            invariant
                n <= self.prize_rules@.len() && n <= self.rankings@.len(),
                j <= n,
                *self == (LtMtt { player_balances: self.player_balances, ..*old(self) }),
                only_actions_changed(*old(effect), *effect),
                a0 == old(effect).actions@,
                effect.actions@ == a0 + Seq::new(
                    j as nat,
                    |i: int| EffectAction::Withdraw {
                        player_id: old(self).rankings@[i].player_id,
                        amount: (each * old(self).prize_rules@[i]) as u64,
                    },
                ),
                each == old(self).total_prize / sum,
                0 < sum <= 255,
                sum == shares_sum(old(self).prize_rules@, old(self).rankings@.len() as int),
                n == paid_count(*old(self)),
            decreases n - j,
        {
            let rule = self.prize_rules[j];
            proof {
                lemma_share_within_sum(old(self).prize_rules@, j as int, old(self).rankings@.len() as int);
                let total = old(self).total_prize;
                assert(each * rule <= total) by (nonlinear_arith)
                    requires
                        each == total / sum,
                        0 < sum,
                        rule <= sum,
                {
                    assert(each * rule <= each * sum);
                    assert(each * sum <= total);
                }
            }
            let prize = each * (rule as u64);
            effect.push(EffectAction::Withdraw { player_id: self.rankings[j].player_id, amount: prize });
            let ghost jj = j;
            assert(effect.actions@ =~= a0 + Seq::new(
                (jj + 1) as nat,
                |i: int| EffectAction::Withdraw {
                    player_id: old(self).rankings@[i].player_id,
                    amount: (each * old(self).prize_rules@[i]) as u64,
                },
            ));
            j = j + 1;
        }
        Ok(())
    }

    /// The table for players holding `chips` who need `seats` seats: among
    /// the tables of the level those chips call for or a higher one, with
    /// the seats free, the one with the lowest blinds and, among those,
    /// the most players; the first by id among equals.
    pub fn find_table_to_sit(&self, seats: usize, player_chips: u64) -> (r: Result<usize, GameError>)
        ensures
            table_found(*self, seats, player_chips, r),
    {
        let rule = match match_blind_rule_by_chips(&self.blind_rules, player_chips) {
            Some(r) => r,
            None => {
                return Err(GameError::EmptyBlindRules);
            },
        };
        let ids = sorted_index_keys(&self.tables);
        let ts = self.table_size as usize;
        let mut best: Option<usize> = None;
        let mut best_sb: u64 = 0;
        let mut best_len: usize = 0;
        let mut i: usize = 0;
        while i < ids.len()
            invariant
                ids@ == index_key_seq(self.tables@),
                ids@.to_set() == self.tables@.dom(),
                strictly_increasing_ix(ids@),
                ts == self.table_size,
                i <= ids@.len(),
                rule == self.blind_rules@[first_fit(self.blind_rules@, player_chips, 0)],
                best is None ==> forall|j: int| 0 <= j < i ==> !fit_table(self.tables@[#[trigger] ids@[j]], rule, seats, self.table_size),
                best matches Some(t) ==> {
                    &&& exists|k: int| 0 <= k < i && ids@[k] == t
                    &&& self.tables@.contains_key(t) && fit_table(self.tables@[t], rule, seats, self.table_size)
                    &&& best_sb == self.tables@[t].sb && best_len == self.tables@[t].players@.len()
                    &&& forall|j: int| 0 <= j < i && fit_table(self.tables@[#[trigger] ids@[j]], rule, seats, self.table_size)
                        ==> !table_before(self.tables@[ids@[j]], self.tables@[t])
                    &&& forall|j: int| 0 <= j < i && ids@[j] < t && fit_table(self.tables@[#[trigger] ids@[j]], rule, seats, self.table_size)
                        ==> table_before(self.tables@[t], self.tables@[ids@[j]])
                },
            decreases ids@.len() - i,
        {
            let id = ids[i];
            assert(ids@.to_set().contains(id));
            let (sb, len) = match self.tables.get(&id) {
                Some(t) => (t.sb, t.players.len()),
                None => (0, 0),
            };
            let fits = rule.sb <= sb && len <= ts && seats <= ts - len;
            if fits {
                let better = match best {
                    None => true,
                    Some(_) => sb < best_sb || (sb == best_sb && len > best_len),
                };
                if better {
                    proof {
                        assert forall|j: int| 0 <= j < i + 1 && ids@[j] < id && fit_table(self.tables@[#[trigger] ids@[j]], rule, seats, self.table_size)
                            implies table_before(self.tables@[id], self.tables@[ids@[j]]) by {
                            if j == i {
                            } else if let Some(t) = best {
                                assert(!table_before(self.tables@[ids@[j]], self.tables@[t]));
                            }
                        }
                    }
                    best = Some(id);
                    best_sb = sb;
                    best_len = len;
                } else {
                    proof {
                        if let Some(t) = best {
                            let k = choose|k: int| 0 <= k < i && ids@[k] == t;
                            assert(ids@[k] < ids@[i as int]);
                        }
                    }
                }
            } else {
                proof {
                    if let Some(t) = best {
                        let k = choose|k: int| 0 <= k < i && ids@[k] == t;
                        assert(ids@[k] < ids@[i as int]);
                    }
                }
            }
            i = i + 1;
        }
        proof {
            assert forall|u: usize| #[trigger] self.tables@.contains_key(u) implies exists|j: int| 0 <= j < ids@.len() && ids@[j] == u by {
                assert(ids@.to_set().contains(u));
            }
        }
        match best {
            Some(t) => {
                proof {
                    assert forall|u: usize| #[trigger] self.tables@.contains_key(u) && fit_table(self.tables@[u], rule, seats, self.table_size)
                        implies !table_before(self.tables@[u], self.tables@[t]) by {
                        let j = choose|j: int| 0 <= j < ids@.len() && ids@[j] == u;
                    }
                    assert forall|u: usize| #[trigger] self.tables@.contains_key(u) && u < t && fit_table(self.tables@[u], rule, seats, self.table_size)
                        implies table_before(self.tables@[t], self.tables@[u]) by {
                        let j = choose|j: int| 0 <= j < ids@.len() && ids@[j] == u;
                    }
                }
                Ok(t)
            },
            None => {
                proof {
                    assert forall|u: usize| #[trigger] self.tables@.contains_key(u) implies !fit_table(self.tables@[u], rule, seats, self.table_size) by {
                        let j = choose|j: int| 0 <= j < ids@.len() && ids@[j] == u;
                    }
                }
                Err(GameError::TableNotFound)
            },
        }
    }
}

/// The id a new table gets: one more than the largest, or 1.
pub open spec fn next_table_id(tables: Map<usize, MttTableState>) -> int {
    let ids = index_key_seq(tables);
    if ids.len() == 0 {
        1
    } else {
        ids.last() + 1
    }
}

/// Table `t` is a new empty table `id` with the blinds of `rule`.
pub open spec fn new_table(t: MttTableState, id: int, rule: BlindRule) -> bool {
    &&& t.table_id == id && t.sb == rule.sb && t.bb == rule.bb && t.ante == 0
    &&& t.btn == 0 && t.hand_id == 0 && t.next_game_start == 0 && t.players@.len() == 0
}

/// The players of the ranking whose chips exceed `max`, by id, in order.
pub open spec fn level_ups(rs: Seq<LtMttPlayer>, max: u64) -> Seq<u64> {
    rs.filter(|p: LtMttPlayer| p.chips > max).map_values(|p: LtMttPlayer| p.player_id)
}

/// The index of the first level with small blind `sb`, or the number of
/// levels.
pub open spec fn level_of_sb(rules: Seq<BlindRule>, sb: u64, j: int) -> int
    decreases rules.len() - j,
{
    if j < 0 || j >= rules.len() {
        rules.len() as int
    } else if rules[j].sb == sb {
        j
    } else {
        level_of_sb(rules, sb, j + 1)
    }
}

/// The ranking with the status of every player `id` set to `st`.
pub open spec fn statuses_set(a: Seq<LtMttPlayer>, b: Seq<LtMttPlayer>, id: u64, st: LtMttPlayerStatus) -> bool {
    &&& b.len() == a.len()
    &&& forall|k: int| 0 <= k < a.len() ==> {
        &&& (#[trigger] b[k]).player_id == a[k].player_id && b[k].chips == a[k].chips
        &&& b[k].position == a[k].position && b[k].deposit_history == a[k].deposit_history
        &&& b[k].status == if a[k].player_id == id { st } else { a[k].status }
    }
}

impl LtMtt {
    /// Launch a new empty table with the blinds of `blind_rule`; its id is
    /// one more than the largest table id.
    pub fn create_table(&mut self, effect: &mut Effect, blind_rule: BlindRule) -> (r: Result<usize, GameError>)
        ensures
            next_table_id(old(self).tables@) > usize::MAX ==> r == Err::<usize, GameError>(GameError::InternalAmountOverflow)
                && *final(self) == *old(self) && *final(effect) == *old(effect),
            next_table_id(old(self).tables@) <= usize::MAX ==> {
                let id = next_table_id(old(self).tables@);
                &&& r == Ok::<usize, GameError>(id as usize)
                &&& !old(self).tables@.contains_key(id as usize)
                &&& final(self).tables@.dom() == old(self).tables@.dom().insert(id as usize)
                &&& forall|u: usize| #[trigger] old(self).tables@.contains_key(u) ==> final(self).tables@[u] == old(self).tables@[u]
                &&& new_table(final(self).tables@[id as usize], id, blind_rule)
                &&& *final(self) == (LtMtt { tables: final(self).tables, ..*old(self) })
                &&& only_actions_changed(*old(effect), *final(effect))
                &&& final(effect).actions@.len() == old(effect).actions@.len() + 1
                &&& final(effect).actions@.take(old(effect).actions@.len() as int) == old(effect).actions@
                &&& final(effect).actions@.last() matches EffectAction::LaunchSubGame { table } && new_table(table, id, blind_rule)
            },
    {
        let ids = sorted_index_keys(&self.tables);
        let table_id: usize = if ids.len() == 0 {
            1
        } else {
            let last = ids[ids.len() - 1];
            if last == usize::MAX {
                return Err(GameError::InternalAmountOverflow);
            }
            last + 1
        };
        proof {
            if ids@.len() > 0 && self.tables@.contains_key(table_id) {
                assert(ids@.to_set().contains(table_id));
                let j = choose|j: int| 0 <= j < ids@.len() && ids@[j] == table_id;
                if j < ids@.len() - 1 {
                    assert(ids@[j] < ids@[ids@.len() - 1]);
                }
            }
            if ids@.len() == 0 && self.tables@.contains_key(table_id) {
                assert(ids@.to_set().contains(table_id));
            }
        }
        let table = MttTableState::new(table_id, blind_rule.sb, blind_rule.bb, 0, Vec::new());
        let launched = MttTableState::new(table_id, blind_rule.sb, blind_rule.bb, 0, Vec::new());
        effect.push(EffectAction::LaunchSubGame { table: launched });
        self.tables.insert(table_id, table);
        assert(self.tables@.dom() =~= old(self).tables@.dom().insert(table_id));
        assert(effect.actions@.take(old(effect).actions@.len() as int) =~= old(effect).actions@);
        Ok(table_id)
    }

    /// Keep an empty table at each level: when no table with the blinds of
    /// table `table_id` is empty, launch one (a failure to launch it is
    /// ignored).
    pub fn create_table_if_target_table_not_enough(&mut self, effect: &mut Effect, table_id: usize) -> (r: Result<(), GameError>)
        ensures
            !old(self).tables@.contains_key(table_id) ==> r == Err::<(), GameError>(GameError::TableNotFound),
            old(self).tables@.contains_key(table_id) ==> {
                let t = old(self).tables@[table_id];
                &&& r is Ok
                &&& *final(self) == (LtMtt { tables: final(self).tables, ..*old(self) })
                &&& (exists|u: usize| #[trigger] old(self).tables@.contains_key(u) && old(self).tables@[u].sb == t.sb
                    && old(self).tables@[u].players@.len() == 0) ==> final(self).tables@ == old(self).tables@
                        && *final(effect) == *old(effect)
                &&& forall|u: usize| #[trigger] old(self).tables@.contains_key(u) ==> final(self).tables@.contains_key(u)
                    && final(self).tables@[u] == old(self).tables@[u]
                &&& forall|u: usize| #[trigger] final(self).tables@.contains_key(u) && !old(self).tables@.contains_key(u)
                    ==> new_table(final(self).tables@[u], u as int, BlindRule { max_chips: Some(0), sb: t.sb, bb: t.bb, ante: 0 })
                &&& only_actions_changed(*old(effect), *final(effect))
            },
    {
        let (sb, bb) = match self.tables.get(&table_id) {
            Some(t) => (t.sb, t.bb),
            None => {
                return Err(GameError::TableNotFound);
            },
        };
        let ids = sorted_index_keys(&self.tables);
        let mut found = false;
        let mut i: usize = 0;
        while i < ids.len()
            invariant
                ids@ == index_key_seq(self.tables@),
                ids@.to_set() == self.tables@.dom(),
                i <= ids@.len(),
                found ==> exists|u: usize| #[trigger] self.tables@.contains_key(u) && self.tables@[u].sb == sb
                    && self.tables@[u].players@.len() == 0,
                !found ==> forall|j: int| 0 <= j < i ==> !(self.tables@[#[trigger] ids@[j]].sb == sb
                    && self.tables@[ids@[j]].players@.len() == 0),
            decreases ids@.len() - i,
        {
            let id = ids[i];
            assert(ids@.to_set().contains(id));
            match self.tables.get(&id) {
                Some(t) => {
                    if t.sb == sb && t.players.len() == 0 {
                        found = true;
                    }
                },
                None => {},
            }
            i = i + 1;
        }
        if !found {
            proof {
                assert forall|u: usize| #[trigger] self.tables@.contains_key(u) implies !(self.tables@[u].sb == sb
                    && self.tables@[u].players@.len() == 0) by {
                    assert(ids@.to_set().contains(u));
                    let j = choose|j: int| 0 <= j < ids@.len() && ids@[j] == u;
                }
            }
            let _ = self.create_table(effect, BlindRule { max_chips: Some(0), sb, bb, ante: 0 });
        }
        Ok(())
    }

    /// Set the status of every player `player_id` in the ranking.
    fn set_status(&mut self, player_id: u64, status: LtMttPlayerStatus)
        ensures
            statuses_set(old(self).rankings@, final(self).rankings@, player_id, status),
            *final(self) == (LtMtt { rankings: final(self).rankings, ..*old(self) }),
    {
        let mut i: usize = 0;
        while i < self.rankings.len()
            invariant
                i <= self.rankings@.len(),
                self.rankings@.len() == old(self).rankings@.len(),
                forall|k: int| 0 <= k < old(self).rankings@.len() ==> {
                    &&& (#[trigger] self.rankings@[k]).player_id == old(self).rankings@[k].player_id
                    &&& self.rankings@[k].chips == old(self).rankings@[k].chips
                    &&& self.rankings@[k].position == old(self).rankings@[k].position
                    &&& self.rankings@[k].deposit_history == old(self).rankings@[k].deposit_history
                    &&& self.rankings@[k].status == if k < i && old(self).rankings@[k].player_id == player_id {
                        status
                    } else {
                        old(self).rankings@[k].status
                    }
                },
                *self == (LtMtt { rankings: self.rankings, ..*old(self) }),
            decreases self.rankings@.len() - i,
        {
            if self.rankings[i].player_id == player_id {
                let mut p = self.rankings.remove(i);
                p.status = status;
                self.rankings.insert(i, p);
            }
            i = i + 1;
        }
    }

    /// Record where a player sits once its table confirms: at table
    /// `table_id` (playing there), or at none (out).  Refused for an
    /// unknown player or table.
    pub fn update_table_player(&mut self, effect: &mut Effect, player_id: u64, table_id: Option<usize>) -> (r: Result<(), GameError>)
        ensures
            first_player(old(self).rankings@, player_id, 0) >= old(self).rankings@.len() ==> r == Err::<(), GameError>(GameError::PlayerNotFound),
            table_id matches Some(t) && !old(self).tables@.contains_key(t)
                && first_player(old(self).rankings@, player_id, 0) < old(self).rankings@.len()
                ==> r == Err::<(), GameError>(GameError::TableNotFound),
            r is Ok ==> {
                &&& !final(self).table_assigns_pending@.contains_key(player_id)
                &&& match table_id {
                    Some(t) => {
                        &&& final(self).table_assigns@ == old(self).table_assigns@.insert(player_id, t)
                        &&& statuses_set(old(self).rankings@, final(self).rankings@, player_id, LtMttPlayerStatus::Playing)
                    },
                    None => {
                        &&& final(self).table_assigns@ == if old(self).table_assigns@.contains_key(player_id)
                            && old(self).tables@.contains_key(old(self).table_assigns@[player_id]) {
                            old(self).table_assigns@.remove(player_id)
                        } else {
                            old(self).table_assigns@
                        }
                        &&& statuses_set(old(self).rankings@, final(self).rankings@, player_id, LtMttPlayerStatus::Out)
                    },
                }
            },
    {
        let (pid, chips) = match self.find_player_by_id(player_id) {
            Ok(p) => p,
            Err(e) => {
                return Err(e);
            },
        };
        match table_id {
            Some(tid) => {
                let mut table = match self.tables.remove(&tid) {
                    Some(t) => t,
                    None => {
                        return Err(GameError::TableNotFound);
                    },
                };
                let mut table_player = MttTablePlayer::new_with_defaults(player_id, chips, 0);
                let _ = table.add_player(&mut table_player, self.table_size);
                self.tables.insert(tid, table);
                self.table_assigns.insert(player_id, tid);
                let ghost assigns = self.table_assigns@;
                let ghost ranks = self.rankings@;
                match self.create_table_if_target_table_not_enough(effect, tid) {
                    Ok(()) => {},
                    Err(e) => {
                        return Err(e);
                    },
                }
                self.table_assigns_pending.remove(&player_id);
                self.set_status(player_id, LtMttPlayerStatus::Playing);
            },
            None => {
                let assigned = match self.table_assigns.get(&player_id) {
                    Some(t) => Some(*t),
                    None => None,
                };
                match assigned {
                    Some(tid) => {
                        match self.tables.remove(&tid) {
                            Some(mut table) => {
                                let _ = table.remove_player(player_id);
                                self.tables.insert(tid, table);
                                self.table_assigns.remove(&player_id);
                            },
                            None => {},
                        }
                    },
                    None => {},
                }
                self.table_assigns_pending.remove(&player_id);
                self.set_status(player_id, LtMttPlayerStatus::Out);
            },
        }
        Ok(())
    }
}

/// The command starts a hand at table `dest` with blinds `sb`/`bb`,
/// without the players `sitout`.
pub open spec fn starts_hand(a: EffectAction, dest: usize, sb: u64, bb: u64, sitout: Seq<u64>) -> bool {
    a matches EffectAction::Bridge { dest: d, event: HoldemBridgeEvent::StartGame { sb: s, bb: b, ante, sitout_players } }
        && d == dest && s == sb && b == bb && ante == 0 && sitout_players@ == sitout
}

/// The command seats players at one of the tables.
pub open spec fn sits_in_at_table(a: EffectAction, tables: Map<usize, MttTableState>) -> bool {
    match a {
        EffectAction::Bridge { dest, event: HoldemBridgeEvent::SitinPlayers { .. } } => tables.contains_key(dest),
        _ => false,
    }
}

/// The command seats players at a table some waiting player was sent to.
pub open spec fn sits_in_at_pending(a: EffectAction, pending: Map<u64, usize>) -> bool {
    match a {
        EffectAction::Bridge { dest, event: HoldemBridgeEvent::SitinPlayers { .. } } => exists|p: u64|
            #[trigger] pending.contains_key(p) && pending[p] == dest,
        _ => false,
    }
}

/// Why no table can be found for a single player with `chips`, if none can.
pub open spec fn sit_error(m: LtMtt, chips: u64) -> Option<GameError> {
    if first_fit(m.blind_rules@, chips, 0) >= m.blind_rules@.len() {
        Some(GameError::EmptyBlindRules)
    } else if no_table_fits(m, 1, chips) {
        Some(GameError::TableNotFound)
    } else {
        None
    }
}

/// The command seats the ranked player `p` alone at a table found for it.
pub open spec fn sits_pending_player(m: LtMtt, a: EffectAction, p: LtMttPlayer) -> bool {
    a matches EffectAction::Bridge { dest, event: HoldemBridgeEvent::SitinPlayers { sitins } } && table_to_sit(
        m,
        1,
        p.chips,
        dest,
    ) && sitins@ == seq![
        MttTableSitin { id: p.player_id, chips: p.chips, time_cards: crate::mtt_base::MTT_DEFAULT_TIME_CARDS, first_time_sit: true },
    ]
}

/// The command seats players at table `dest`.
pub open spec fn sits_in_at(a: EffectAction, dest: usize) -> bool {
    a matches EffectAction::Bridge { dest: d, event: HoldemBridgeEvent::SitinPlayers { .. } } && d == dest
}

impl LtMtt {
    /// The index of the first level with small blind `sb`, if any.
    fn level_index(&self, sb: u64) -> (r: Option<usize>)
        ensures
            r matches Some(j) ==> j == level_of_sb(self.blind_rules@, sb, 0) && j < self.blind_rules@.len(),
            r is None ==> level_of_sb(self.blind_rules@, sb, 0) >= self.blind_rules@.len(),
    {
        let mut j: usize = 0;
        while j < self.blind_rules.len()
            invariant
                j <= self.blind_rules@.len(),
                level_of_sb(self.blind_rules@, sb, 0) == level_of_sb(self.blind_rules@, sb, j as int),
            decreases self.blind_rules@.len() - j,
        {
            if self.blind_rules[j].sb == sb {
                return Some(j);
            }
            j = j + 1;
        }
        None
    }

    /// The ids of the players whose chips exceed `max`, in ranking order.
    fn level_up_ids(&self, max: u64) -> (r: Vec<u64>)
        ensures
            r@ == level_ups(self.rankings@, max),
    {
        let mut out: Vec<u64> = Vec::new();
        let mut i: usize = 0;
        while i < self.rankings.len()
            invariant
                i <= self.rankings@.len(),
                out@ == level_ups(self.rankings@.take(i as int), max),
            decreases self.rankings@.len() - i,
        {
            proof {
                crate::holdem_evaluator::lemma_filter_take_step(self.rankings@, |p: LtMttPlayer| p.chips > max, i as int);
            }
            if self.rankings[i].chips > max {
                out.push(self.rankings[i].player_id);
            }
            assert(out@ =~= level_ups(self.rankings@.take(i + 1), max));
            i = i + 1;
        }
        assert(self.rankings@.take(i as int) =~= self.rankings@);
        out
    }

    /// Start the next hand at table `table_id`: with the players who
    /// outgrew its level sitting out, when at least two did and the table
    /// keeps none or at least two players; otherwise with everyone.
    pub fn start_next_game(&mut self, effect: &mut Effect, table_id: usize) -> (r: Result<(), GameError>)
        ensures
            *final(self) == *old(self),
            only_actions_changed(*old(effect), *final(effect)),
            !old(self).tables@.contains_key(table_id) ==> r == Err::<(), GameError>(GameError::TableNotFound),
            old(self).tables@.contains_key(table_id) && level_of_sb(old(self).blind_rules@, old(self).tables@[table_id].sb, 0)
                >= old(self).blind_rules@.len() ==> r == Err::<(), GameError>(GameError::EmptyBlindRules),
            r is Ok ==> {
                let t = old(self).tables@[table_id];
                let rule = old(self).blind_rules@[level_of_sb(old(self).blind_rules@, t.sb, 0)];
                let ups = match rule.max_chips {
                    Some(max) => level_ups(old(self).rankings@, max),
                    None => Seq::empty(),
                };
                let n_o = t.players@.len() as int;
                let n_u = ups.len() as int;
                &&& final(effect).actions@.len() == old(effect).actions@.len() + 1
                &&& final(effect).actions@.take(old(effect).actions@.len() as int) == old(effect).actions@
                &&& starts_hand(
                    final(effect).actions@.last(),
                    table_id,
                    t.sb,
                    t.bb,
                    if n_u >= 2 && (n_o == n_u || n_o - n_u >= 2) { ups } else { Seq::empty() },
                )
            },
    {
        let (sb, bb, n_o) = match self.tables.get(&table_id) {
            Some(t) => (t.sb, t.bb, t.players.len()),
            None => {
                return Err(GameError::TableNotFound);
            },
        };
        let j = match self.level_index(sb) {
            Some(j) => j,
            None => {
                return Err(GameError::EmptyBlindRules);
            },
        };
        let rule = self.blind_rules[j];
        let ups: Vec<u64> = match rule.max_chips {
            Some(max) => self.level_up_ids(max),
            None => Vec::new(),
        };
        let n_u = ups.len();
        if n_u >= 2 && (n_o == n_u || (n_o > n_u && n_o - n_u >= 2)) {
            effect.push(
                EffectAction::Bridge {
                    dest: table_id,
                    event: HoldemBridgeEvent::StartGame { sb, bb, ante: 0, sitout_players: ups },
                },
            );
        } else {
            if n_u >= 2 && n_o < n_u {
                return Err(GameError::InternalAmountOverflow);
            }
            effect.push(
                EffectAction::Bridge {
                    dest: table_id,
                    event: HoldemBridgeEvent::StartGame { sb, bb, ante: 0, sitout_players: Vec::new() },
                },
            );
        }
        assert(effect.actions@.take(old(effect).actions@.len() as int) =~= old(effect).actions@);
        Ok(())
    }
}

/// The ids of a table's players.
pub open spec fn ids_of(ps: Seq<MttTablePlayer>) -> Seq<u64> {
    ps.map_values(|p: MttTablePlayer| p.id)
}

impl LtMtt {
    /// After a hand at table `table_id`: apply the chips changes; the
    /// players who left the table are out, those at the table play there;
    /// then the table starts its next hand.
    pub fn on_game_result(
        &mut self,
        effect: &mut Effect,
        table_id: usize,
        player_results: &Vec<PlayerResult>,
        table: &MttTableState,
    ) -> (r: Result<(), GameError>)
        ensures
            r is Ok ==> final(effect).actions@.len() > 0 && (final(effect).actions@.last() matches
                EffectAction::Bridge { dest, event: HoldemBridgeEvent::StartGame { .. } } && dest == table_id),
            r is Ok ==> forall|j: int| 0 <= j < table.players@.len() ==> final(self).table_assigns@.contains_key(
                #[trigger] table.players@[j].id,
            ) || exists|k: int| j < k < table.players@.len() && table.players@[k].id == table.players@[j].id,
            !old(self).tables@.contains_key(table_id) ==> r is Err,
            lt_chips_run(old(self).rankings@, player_results@) matches Err(e) ==> r == Err::<(), GameError>(e),
            lt_chips_run(old(self).rankings@, player_results@) is Ok && !old(self).tables@.contains_key(table_id)
                ==> r == Err::<(), GameError>(GameError::TableNotFound),
    {
        match self.apply_chips_change(player_results) {
            Ok(()) => {},
            Err(e) => {
                return Err(e);
            },
        }
        let old_pids: Vec<u64> = match self.tables.get(&table_id) {
            Some(t) => {
                let mut v: Vec<u64> = Vec::new();
                let mut i: usize = 0;
                while i < t.players.len()
                    invariant
                        i <= t.players@.len(),
                        v@ == ids_of(t.players@.take(i as int)),
                    decreases t.players@.len() - i,
                {
                    v.push(t.players[i].id);
                    assert(v@ =~= ids_of(t.players@.take(i + 1)));
                    i = i + 1;
                }
                v
            },
            None => {
                return Err(GameError::TableNotFound);
            },
        };
        let mut i: usize = 0;
        while i < old_pids.len()
            invariant
                i <= old_pids@.len(),
                lt_chips_run(old(self).rankings@, player_results@) is Ok,
                old(self).tables@.contains_key(table_id),
            decreases old_pids@.len() - i,
        {
            let pid = old_pids[i];
            let mut still = false;
            let mut k: usize = 0;
            while k < table.players.len()
                invariant
                    k <= table.players@.len(),
                decreases table.players@.len() - k,
            {
                if table.players[k].id == pid {
                    still = true;
                }
                k = k + 1;
            }
            if !still {
                match self.update_table_player(effect, pid, None) {
                    Ok(()) => {},
                    Err(e) => {
                        return Err(e);
                    },
                }
            }
            i = i + 1;
        }
        let mut j: usize = 0;
        while j < table.players.len()
            invariant
                j <= table.players@.len(),
                lt_chips_run(old(self).rankings@, player_results@) is Ok,
                old(self).tables@.contains_key(table_id),
                forall|q: int| 0 <= q < j ==> self.table_assigns@.contains_key(#[trigger] table.players@[q].id)
                    || exists|k: int| q < k < table.players@.len() && table.players@[k].id == table.players@[q].id,
            decreases table.players@.len() - j,
        {
            let pid = table.players[j].id;
            match self.update_table_player(effect, pid, Some(table_id)) {
                Ok(()) => {},
                Err(e) => {
                    return Err(e);
                },
            }
            proof {
                assert forall|q: int| 0 <= q < j + 1 implies self.table_assigns@.contains_key(#[trigger] table.players@[q].id)
                    || exists|k: int| q < k < table.players@.len() && table.players@[k].id == table.players@[q].id by {
                    if q < j && !self.table_assigns@.contains_key(table.players@[q].id) {
                        if table.players@[q].id == pid {
                        }
                    }
                }
            }
            j = j + 1;
        }
        self.start_next_game(effect, table_id)
    }
}

/// The players sent to table `t`.
pub open spec fn waits_at(pend: Map<u64, usize>, t: usize) -> spec_fn(u64) -> bool {
    |id: u64| pend[id] == t
}

/// The players waiting for a seat, grouped by the table they were sent
/// to: by increasing id, as they sit in.
pub open spec fn ready_groups(m: LtMtt) -> Map<usize, Seq<MttTableSitin>> {
    let pend = m.table_assigns_pending@;
    Map::new(
        |t: usize| exists|p: u64| #[trigger] pend.contains_key(p) && pend[p] == t,
        |t: usize| key_seq(pend).filter(waits_at(pend, t)).map_values(|id: u64| sitin_of(m.rankings@, id)),
    )
}

/// The command seats the players `sitins` at table `t`.
pub open spec fn sits_group_at(a: EffectAction, t: usize, group: Seq<MttTableSitin>) -> bool {
    a matches EffectAction::Bridge { dest, event: HoldemBridgeEvent::SitinPlayers { sitins } } && dest == t && sitins@ == group
}

/// When the servers are ready: for each table some players wait for, by
/// increasing id, one event seating them there again; then the game
/// starts.  Refused when a waiting player is not in the ranking.
pub open spec fn ready_done(m0: LtMtt, e0: Effect, r: Result<(), GameError>, m1: LtMtt, e1: Effect) -> bool {
    let n0 = e0.actions@.len() as int;
    let g = ready_groups(m0);
    let tids = index_key_seq(g);
    &&& m1 == m0
    &&& only_actions_changed(e0, e1)
    &&& some_unknown(m0.rankings@, key_seq(m0.table_assigns_pending@)) ==> r == Err::<(), GameError>(GameError::PlayerNotFound)
    &&& !some_unknown(m0.rankings@, key_seq(m0.table_assigns_pending@)) ==> {
        &&& r is Ok
        &&& e1.actions@.len() == n0 + tids.len() + 1
        &&& e1.actions@.take(n0) == e0.actions@
        &&& forall|q: int| 0 <= q < tids.len() ==> sits_group_at(#[trigger] e1.actions@[n0 + q], tids[q], g[tids[q]])
        &&& e1.actions@.last() == EffectAction::StartGame
    }
}

/// Some player of `ids` is not in the ranking.
pub open spec fn some_unknown(rs: Seq<LtMttPlayer>, ids: Seq<u64>) -> bool {
    exists|j: int| 0 <= j < ids.len() && first_player(rs, #[trigger] ids[j], 0) >= rs.len()
}

impl LtMtt {
    /// When the servers are ready: the players waiting for a seat are sent
    /// again to their tables, one event per table, then the game starts.
    #[verifier::rlimit(40)]
    pub fn on_ready(&mut self, effect: &mut Effect) -> (r: Result<(), GameError>)
        ensures
            ready_done(*old(self), *old(effect), r, *final(self), *final(effect)),
    {
        let pids = sorted_keys(&self.table_assigns_pending);
        let ghost pend = self.table_assigns_pending@;
        let ghost rs = self.rankings@;
        let mut grouped: BTreeMap<usize, Vec<MttTableSitin>> = BTreeMap::new();
        let mut i: usize = 0;
        while i < pids.len()
            invariant
                pids@ == key_seq(pend),
                pids@.to_set() == pend.dom(),
                pend == self.table_assigns_pending@,
                rs == self.rankings@,
                *self == *old(self),
                i <= pids@.len(),
                forall|t: usize| #[trigger] grouped@.contains_key(t) <==> exists|j: int| 0 <= j < i && pend[#[trigger] pids@[j]] == t,
                forall|t: usize| #[trigger] grouped@.contains_key(t) ==> grouped@[t]@ == pids@.take(i as int).filter(
                    waits_at(pend, t)).map_values(|id: u64| sitin_of(rs, id)),
                forall|j: int| 0 <= j < i ==> first_player(rs, #[trigger] pids@[j], 0) < rs.len(),
            decreases pids@.len() - i,
        {
            let pid = pids[i];
            assert(pids@.to_set().contains(pid));
            let tid = match self.table_assigns_pending.get(&pid) {
                Some(t) => *t,
                None => 0,
            };
            assert(pend.contains_key(pid) && pend[pid] == tid);
            let (id, chips) = match self.find_player_by_id(pid) {
                Ok(p) => p,
                Err(e) => {
                    proof {
                        assert(first_player(rs, pids@[i as int], 0) >= rs.len());
                    }
                    return Err(e);
                },
            };
            proof {
                lemma_first_player_found(rs, pid, 0);
            }
            let ghost g_before = grouped@;
            let mut list = match grouped.remove(&tid) {
                Some(l) => l,
                None => Vec::new(),
            };
            proof {
                if !g_before.contains_key(tid) {
                    assert forall|j: int| 0 <= j < i implies pend[pids@[j]] != tid by {
                        if pend[pids@[j]] == tid {
                            assert(g_before.contains_key(tid));
                        }
                    }
                    assert(pids@.take(i as int).filter(waits_at(pend, tid)) =~= Seq::<u64>::empty()) by {
                        assert forall|j: int| 0 <= j < pids@.take(i as int).len() implies !waits_at(pend, tid)(#[trigger] pids@.take(i as int)[j]) by {
                            assert(pids@.take(i as int)[j] == pids@[j]);
                        }
                        pids@.take(i as int).lemma_all_neg_filter_empty(waits_at(pend, tid));
                    }
                }
            }
            list.push(MttTableSitin::new_with_defaults(id, chips));
            grouped.insert(tid, list);
            proof {
                assert forall|t: usize| #[trigger] grouped@.contains_key(t) implies grouped@[t]@ == pids@.take(i + 1).filter(
                    waits_at(pend, t)).map_values(|id: u64| sitin_of(rs, id)) by {
                    if grouped@.contains_key(t) {
                        crate::holdem_evaluator::lemma_filter_take_step(pids@, waits_at(pend, t), i as int);
                        if t == tid {
                            assert(grouped@[t]@ =~= pids@.take(i + 1).filter(waits_at(pend, t)).map_values(|id: u64| sitin_of(rs, id)));
                        } else {
                            assert(grouped@[t] == g_before[t]);
                        }
                    }
                }
                assert forall|t: usize| #[trigger] grouped@.contains_key(t) <==> exists|j: int| 0 <= j < i + 1 && pend[#[trigger] pids@[j]] == t by {
                    if grouped@.contains_key(t) && t != tid {
                        assert(g_before.contains_key(t));
                    }
                    if t == tid {
                        assert(pend[pids@[i as int]] == t);
                    }
                    if exists|j: int| 0 <= j < i + 1 && pend[#[trigger] pids@[j]] == t {
                        let j = choose|j: int| 0 <= j < i + 1 && pend[#[trigger] pids@[j]] == t;
                        if j < i {
                            assert(g_before.contains_key(t));
                        }
                    }
                }
            }
            i = i + 1;
        }
        proof {
            assert(pids@.take(pids@.len() as int) =~= pids@);
            assert(!some_unknown(rs, key_seq(pend)));
            assert(grouped@.dom() =~= ready_groups(*old(self)).dom()) by {
                assert forall|t: usize| grouped@.contains_key(t) <==> ready_groups(*old(self)).contains_key(t) by {
                    if grouped@.contains_key(t) {
                        let j = choose|j: int| 0 <= j < pids@.len() && pend[#[trigger] pids@[j]] == t;
                        assert(pids@.to_set().contains(pids@[j]));
                        assert(pend.contains_key(pids@[j]));
                    }
                    if ready_groups(*old(self)).contains_key(t) {
                        let p = choose|p: u64| #[trigger] pend.contains_key(p) && pend[p] == t;
                        assert(pids@.to_set().contains(p));
                        let j = choose|j: int| 0 <= j < pids@.len() && pids@[j] == p;
                        assert(pend[pids@[j]] == t);
                    }
                }
            }
        }
        let tids = sorted_index_keys(&grouped);
        let ghost g0 = grouped@;
        proof {
            assert forall|t: usize| #[trigger] g0.contains_key(t) implies g0[t]@ == ready_groups(*old(self))[t] by {
                assert(ready_groups(*old(self)).contains_key(t));
            }
        }
        let ghost a0 = effect.actions@;
        let mut t: usize = 0;
        while t < tids.len()
            invariant
                *self == *old(self),
                a0 == old(effect).actions@,
                only_actions_changed(*old(effect), *effect),
                tids@ == index_key_seq(g0),
                tids@.to_set() == g0.dom(),
                strictly_increasing_ix(tids@),
                g0.dom() == ready_groups(*old(self)).dom(),
                forall|u: usize| #[trigger] g0.contains_key(u) ==> g0[u]@ == ready_groups(*old(self))[u],
                t <= tids@.len(),
                effect.actions@.len() == a0.len() + t,
                effect.actions@.take(a0.len() as int) == a0,
                forall|q: int| t <= q < tids@.len() ==> grouped@.contains_key(#[trigger] tids@[q]) && grouped@[tids@[q]] == g0[tids@[q]],
                forall|q: int| 0 <= q < t ==> sits_group_at(#[trigger] effect.actions@[a0.len() + q], tids@[q], ready_groups(*old(self))[tids@[q]]),
            decreases tids@.len() - t,
        {
            let tid = tids[t];
            assert(tids@.to_set().contains(tid));
            let ghost g_before = grouped@;
            let sitins = match grouped.remove(&tid) {
                Some(l) => l,
                None => Vec::new(),
            };
            let ghost before = effect.actions@;
            effect.push(EffectAction::Bridge { dest: tid, event: HoldemBridgeEvent::SitinPlayers { sitins } });
            proof {
                assert(effect.actions@.take(a0.len() as int) =~= a0);
                assert forall|q: int| 0 <= q < t + 1 implies sits_group_at(#[trigger] effect.actions@[a0.len() + q], tids@[q], ready_groups(*old(self))[tids@[q]]) by {
                    if q < t {
                        assert(effect.actions@[a0.len() + q] == before[a0.len() + q]);
                    }
                }
                assert forall|q: int| t + 1 <= q < tids@.len() implies grouped@.contains_key(#[trigger] tids@[q]) && grouped@[tids@[q]] == g0[tids@[q]] by {
                    assert(tids@[q] != tid);
                    assert(g_before.contains_key(tids@[q]));
                }
            }
            t = t + 1;
        }
        proof {
            let g = ready_groups(*old(self));
            crate::keys::lemma_index_key_seq(g, tids@);
        }
        effect.push(EffectAction::StartGame);
        proof {
            assert(effect.actions@.take(a0.len() as int) =~= a0);
            assert forall|q: int| 0 <= q < tids@.len() implies sits_group_at(#[trigger] effect.actions@[a0.len() + q], tids@[q], ready_groups(*old(self))[tids@[q]]) by {
                assert(effect.actions@[a0.len() + q] == effect.actions@.drop_last()[a0.len() + q]);
            }
        }
        Ok(())
    }

    /// At the start: wait for the entry to open.
    pub fn on_game_start(&self, effect: &mut Effect)
        ensures
            only_actions_changed(*old(effect), *final(effect)),
            final(effect).actions@ == old(effect).actions@ + match stage_timeout(*self, old(effect).timestamp) {
                Some(t) => seq![EffectAction::WaitTimeout { timeout: t }],
                None => Seq::empty(),
            },
    {
        let ghost a0 = effect.actions@;
        match self.calc_timeout_should_send(effect) {
            Some(t) => {
                effect.push(EffectAction::WaitTimeout { timeout: t });
            },
            None => {},
        }
        assert(effect.actions@ =~= a0 + match stage_timeout(*self, old(effect).timestamp) {
            Some(t) => seq![EffectAction::WaitTimeout { timeout: t }],
            None => Seq::empty(),
        });
    }

    /// At the end of each stage's wait: the entry opens (with a table per
    /// level when there are none), then it closes, then the tournament
    /// settles.
    #[verifier::rlimit(40)]
    pub fn on_waiting_timeout(&mut self, effect: &mut Effect) -> (r: Result<(), GameError>)
        ensures
            waiting_timeout_done(*old(self), *old(effect), r, *final(self), *final(effect)),
    {
        match self.stage {
            LtMttStage::Init => {
                let ghost a0 = effect.actions@;
                let ghost was_empty = self.tables@.is_empty();
                if self.tables.is_empty() {
                    let mut i: usize = 0;
                    while i < self.blind_rules.len()
                        invariant
                            i <= self.blind_rules@.len(),
                            self.stage == LtMttStage::Init,
                            *self == (LtMtt { tables: self.tables, ..*old(self) }),
                            a0 == old(effect).actions@,
                            only_actions_changed(*old(effect), *effect),
                            effect.actions@.len() == a0.len() + i,
                            effect.actions@.take(a0.len() as int) == a0,
                            forall|u: usize| #[trigger] self.tables@.contains_key(u) <==> 1 <= u <= i,
                            forall|u: usize| 1 <= u <= i ==> new_table(#[trigger] self.tables@[u], u as int, old(self).blind_rules@[u - 1]),
                            forall|q: int| 0 <= q < i ==> launches_new_table(#[trigger] effect.actions@[a0.len() + q], q + 1, old(self).blind_rules@[q]),
                        decreases self.blind_rules@.len() - i,
                    {
                        let rule = self.blind_rules[i];
                        let ghost before = effect.actions@;
                        let ghost tables_before = self.tables@;
                        proof {
                            let ids = Seq::new(i as nat, |k: int| (k + 1) as usize);
                            assert forall|a: int, b: int| 0 <= a < b < ids.len() implies ids[a] < ids[b] by {}
                            assert(ids.to_set() =~= self.tables@.dom()) by {
                                assert forall|u: usize| ids.to_set().contains(u) <==> self.tables@.dom().contains(u) by {
                                    if 1 <= u <= i {
                                        assert(ids[u - 1] == u);
                                    }
                                }
                            }
                            crate::keys::lemma_index_key_seq(self.tables@, ids);
                            if i > 0 {
                                assert(ids.last() == i);
                            }
                        }
                        let created = self.create_table(effect, rule);
                        proof {
                            assert(created == Ok::<usize, GameError>((i + 1) as usize));
                            assert(effect.actions@.take(a0.len() as int) =~= effect.actions@.take(before.len() as int).take(a0.len() as int));
                            assert forall|q: int| 0 <= q < i + 1 implies launches_new_table(#[trigger] effect.actions@[a0.len() + q], q + 1, old(self).blind_rules@[q]) by {
                                if q < i {
                                    assert(effect.actions@[a0.len() + q] == effect.actions@.take(before.len() as int)[a0.len() + q]);
                                }
                            }
                            assert forall|u: usize| #[trigger] self.tables@.contains_key(u) <==> 1 <= u <= i + 1 by {
                                if u == i + 1 {
                                    assert(self.tables@.dom().contains(u));
                                } else if self.tables@.contains_key(u) {
                                    assert(self.tables@.dom() == tables_before.dom().insert((i + 1) as usize));
                                }
                            }
                            assert forall|u: usize| 1 <= u <= i + 1 implies new_table(#[trigger] self.tables@[u], u as int, old(self).blind_rules@[u - 1]) by {
                                if u <= i {
                                    assert(tables_before.contains_key(u));
                                }
                            }
                        }
                        i = i + 1;
                    }
                }
                let ghost a1 = effect.actions@;
                let ghost m1 = *self;
                effect.push(EffectAction::OpenEntry);
                self.stage = LtMttStage::EntryOpened;
                let ts = effect.timestamp();
                let t = if self.entry_close_time > ts {
                    self.entry_close_time - ts
                } else {
                    0
                };
                effect.push(EffectAction::WaitTimeout { timeout: t });
                proof {
                    assert(effect.actions@.take(a0.len() as int) =~= a1.take(a0.len() as int));
                    assert(a1.take(a0.len() as int) =~= a0);
                    assert(effect.actions@.take(a0.len() as int) =~= a0);
                    if was_empty {
                        assert forall|q: int| 0 <= q < old(self).blind_rules@.len() implies launches_new_table(#[trigger] effect.actions@[a0.len() + q], q + 1, old(self).blind_rules@[q]) by {
                            assert(effect.actions@[a0.len() + q] == a1[a0.len() + q]);
                        }
                    }
                }
                Ok(())
            },
            LtMttStage::EntryOpened => {
                effect.push(EffectAction::CloseEntry);
                self.stage = LtMttStage::EntryClosed;
                let ts = effect.timestamp();
                let t = if self.settle_time > ts {
                    self.settle_time - ts
                } else {
                    0
                };
                effect.push(EffectAction::WaitTimeout { timeout: t });
                assert(effect.actions@ =~= old(effect).actions@ + seq![
                    EffectAction::CloseEntry,
                    EffectAction::WaitTimeout { timeout: sat_sub(old(self).settle_time, ts) },
                ]);
                Ok(())
            },
            LtMttStage::EntryClosed => {
                match self.do_settle(effect) {
                    Ok(()) => {},
                    Err(e) => {
                        return Err(e);
                    },
                }
                self.stage = LtMttStage::Settled;
                Ok(())
            },
            LtMttStage::Settled => Ok(()),
        }
    }
}

/// `m` with each of `ids`, in order, sent to table `t`.
pub open spec fn assigned_all(m: Map<u64, usize>, ids: Seq<u64>, t: usize) -> Map<u64, usize>
    decreases ids.len(),
{
    if ids.len() == 0 {
        m
    } else {
        assigned_all(m, ids.drop_last(), t).insert(ids.last(), t)
    }
}

/// The ranking with the status of every player of `ids` set to `st`.
pub open spec fn statuses_all(a: Seq<LtMttPlayer>, b: Seq<LtMttPlayer>, ids: Seq<u64>, st: LtMttPlayerStatus) -> bool {
    &&& b.len() == a.len()
    &&& forall|k: int| 0 <= k < a.len() ==> {
        &&& (#[trigger] b[k]).player_id == a[k].player_id && b[k].chips == a[k].chips
        &&& b[k].position == a[k].position && b[k].deposit_history == a[k].deposit_history
        &&& b[k].status == if ids.contains(a[k].player_id) { st } else { a[k].status }
    }
}

/// How many players of the ranking have an id of `ids`, and the most
/// chips among them (0 when none).
pub open spec fn outs_stats(rs: Seq<LtMttPlayer>, ids: Seq<u64>) -> (nat, u64)
    decreases rs.len(),
{
    if rs.len() == 0 {
        (0, 0)
    } else {
        let (c, m) = outs_stats(rs.drop_last(), ids);
        if ids.contains(rs.last().player_id) {
            (c + 1, if rs.last().chips > m { rs.last().chips } else { m })
        } else {
            (c, m)
        }
    }
}

/// How player `id` of the ranking sits in: with its chips and the default
/// time cards, as a first sit.
pub open spec fn sitin_of(rs: Seq<LtMttPlayer>, id: u64) -> MttTableSitin {
    MttTableSitin {
        id,
        chips: rs[first_player(rs, id, 0)].chips,
        time_cards: crate::mtt_base::MTT_DEFAULT_TIME_CARDS,
        first_time_sit: true,
    }
}

/// What a table's answer to the players sent there does: those who sat
/// in wait for their seat there; those who could not (when any) are all
/// sent to the table for as many players as are known among them, fit
/// for the most chips among them, and wait for their seat there.
/// Refused when none of them, or not all of them, is known, or when no
/// table fits.
pub open spec fn sit_result_done(
    m0: LtMtt,
    e0: Effect,
    table_id: usize,
    ins: Seq<u64>,
    outs: Seq<u64>,
    r: Result<(), GameError>,
    m1: LtMtt,
    e1: Effect,
) -> bool {
    let p_in = assigned_all(m0.table_assigns_pending@, ins, table_id);
    let (c, mx) = outs_stats(m0.rankings@, outs);
    if outs.len() == 0 {
        &&& r is Ok
        &&& m1.table_assigns_pending@ == p_in
        &&& statuses_all(m0.rankings@, m1.rankings@, ins, LtMttPlayerStatus::Pending)
        &&& m1 == (LtMtt { table_assigns_pending: m1.table_assigns_pending, rankings: m1.rankings, ..m0 })
        &&& e1 == e0
    } else if c == 0 {
        r == Err::<(), GameError>(GameError::PlayerNotFound)
    } else if first_fit(m0.blind_rules@, mx, 0) >= m0.blind_rules@.len() {
        r == Err::<(), GameError>(GameError::EmptyBlindRules)
    } else if no_table_fits(m0, c as usize, mx) {
        r == Err::<(), GameError>(GameError::TableNotFound)
    } else if some_unknown(m0.rankings@, outs) {
        r == Err::<(), GameError>(GameError::PlayerNotFound)
    } else {
        &&& r is Ok
        &&& exists|to: usize| {
            &&& #[trigger] table_to_sit(m0, c as usize, mx, to)
            &&& m1.table_assigns_pending@ == assigned_all(p_in, outs, to)
            &&& e1.actions@.last() matches EffectAction::Bridge { dest, event: HoldemBridgeEvent::SitinPlayers { sitins } }
                && dest == to && sitins@ == outs.map_values(|id: u64| sitin_of(m0.rankings@, id))
        }
        &&& statuses_all(m0.rankings@, m1.rankings@, ins + outs, LtMttPlayerStatus::Pending)
        &&& m1 == (LtMtt { table_assigns_pending: m1.table_assigns_pending, rankings: m1.rankings, ..m0 })
        &&& only_actions_changed(e0, e1)
        &&& e1.actions@.len() == e0.actions@.len() + 1
        &&& e1.actions@.take(e0.actions@.len() as int) == e0.actions@
    }
}

/// A player asks to sit: sent to the table it is assigned to, or else to
/// the table for one player with its chips; refused for a player not in
/// the ranking or when no table fits.
pub open spec fn sit_in_done(m0: LtMtt, e0: Effect, sender: u64, r: Result<(), GameError>, e1: Effect) -> bool {
    let k = first_player(m0.rankings@, sender, 0);
    let n0 = e0.actions@.len() as int;
    let sends_to = |dest: usize| {
        &&& r is Ok
        &&& only_actions_changed(e0, e1)
        &&& e1.actions@.len() == n0 + 1
        &&& e1.actions@.take(n0) == e0.actions@
        &&& sits_group_at(e1.actions@[n0], dest, seq![sitin_of(m0.rankings@, sender)])
    };
    if k >= m0.rankings@.len() {
        r == Err::<(), GameError>(GameError::PlayerNotFound)
    } else if m0.table_assigns@.contains_key(sender) {
        sends_to(m0.table_assigns@[sender])
    } else if first_fit(m0.blind_rules@, m0.rankings@[k].chips, 0) >= m0.blind_rules@.len() {
        r == Err::<(), GameError>(GameError::EmptyBlindRules)
    } else if no_table_fits(m0, 1, m0.rankings@[k].chips) {
        r == Err::<(), GameError>(GameError::TableNotFound)
    } else {
        exists|t: usize| #[trigger] table_to_sit(m0, 1, m0.rankings@[k].chips, t) && sends_to(t)
    }
}

/// The command launches a new empty table `id` with the blinds of `rule`.
pub open spec fn launches_new_table(a: EffectAction, id: int, rule: BlindRule) -> bool {
    a matches EffectAction::LaunchSubGame { table } && new_table(table, id, rule)
}

/// Opening the entry without tables: a new empty table for each level,
/// the `i`-th level's with id `i + 1`, each launched in that order before
/// the entry opens.
pub open spec fn level_tables_opened(m0: LtMtt, m1: LtMtt, a0: Seq<EffectAction>, a1: Seq<EffectAction>) -> bool {
    let n = m0.blind_rules@.len();
    &&& forall|u: usize| #[trigger] m1.tables@.contains_key(u) <==> 1 <= u <= n
    &&& forall|u: usize| 1 <= u <= n ==> new_table(#[trigger] m1.tables@[u], u as int, m0.blind_rules@[u - 1])
    &&& m1 == (LtMtt { tables: m1.tables, stage: LtMttStage::EntryOpened, ..m0 })
    &&& a1.len() == a0.len() + n + 2
    &&& forall|q: int| 0 <= q < n ==> launches_new_table(#[trigger] a1[a0.len() + q], q + 1, m0.blind_rules@[q])
}

/// At the end of each stage's wait: the entry opens (with a table per
/// level when there are none), then it closes, then the tournament
/// settles.
pub open spec fn waiting_timeout_done(m0: LtMtt, e0: Effect, r: Result<(), GameError>, m1: LtMtt, e1: Effect) -> bool {
    let ts = e0.timestamp;
    let n0 = e0.actions@.len() as int;
    match m0.stage {
        LtMttStage::Init => {
            &&& r is Ok && m1.stage == LtMttStage::EntryOpened
            &&& only_actions_changed(e0, e1)
            &&& e1.actions@.len() >= n0 + 2
            &&& e1.actions@.take(n0) == e0.actions@
            &&& e1.actions@[e1.actions@.len() - 2] == EffectAction::OpenEntry
            &&& e1.actions@.last() == (EffectAction::WaitTimeout { timeout: sat_sub(m0.entry_close_time, ts) })
            &&& !m0.tables@.is_empty() ==> m1 == (LtMtt { stage: LtMttStage::EntryOpened, ..m0 })
                && e1.actions@.len() == n0 + 2
            &&& m0.tables@.is_empty() ==> level_tables_opened(m0, m1, e0.actions@, e1.actions@)
        },
        LtMttStage::EntryOpened => {
            &&& r is Ok && m1 == (LtMtt { stage: LtMttStage::EntryClosed, ..m0 })
            &&& only_actions_changed(e0, e1)
            &&& e1.actions@ == e0.actions@ + seq![
                EffectAction::CloseEntry,
                EffectAction::WaitTimeout { timeout: sat_sub(m0.settle_time, ts) },
            ]
        },
        LtMttStage::EntryClosed => {
            &&& settle_done(m0, e0, r, LtMtt { stage: m0.stage, ..m1 }, e1)
            &&& r is Ok ==> m1.stage == LtMttStage::Settled
        },
        LtMttStage::Settled => r is Ok && m1 == m0 && e1 == e0,
    }
}

impl LtMtt {
    /// Send every player of the ranking to the table its chips call for,
    /// one by one.
    pub fn match_table_for_pending_users(&mut self, effect: &mut Effect) -> (r: Result<(), GameError>)
        ensures
            *final(self) == *old(self),
            only_actions_changed(*old(effect), *final(effect)),
            r is Ok ==> {
                let n0 = old(effect).actions@.len() as int;
                &&& final(effect).actions@.len() == n0 + old(self).rankings@.len()
                &&& final(effect).actions@.take(n0) == old(effect).actions@
                &&& forall|k: int| 0 <= k < old(self).rankings@.len() ==> sits_in_at_table(#[trigger] final(effect).actions@[n0 + k], old(self).tables@)
                &&& forall|k: int| 0 <= k < old(self).rankings@.len() ==> sits_pending_player(*old(self), #[trigger] final(effect).actions@[n0 + k], old(self).rankings@[k])
            },
            r is Ok <==> forall|k: int| 0 <= k < old(self).rankings@.len() ==> #[trigger] sit_error(*old(self), old(self).rankings@[k].chips) is None,
            r matches Err(e) ==> exists|k: int| 0 <= k < old(self).rankings@.len() && sit_error(*old(self), old(self).rankings@[k].chips) == Some(e)
                && forall|j: int| 0 <= j < k ==> #[trigger] sit_error(*old(self), old(self).rankings@[j].chips) is None,
    {
        let ghost a0 = effect.actions@;
        let ghost mut sent: Seq<usize> = Seq::empty();
        let mut i: usize = 0;
        while i < self.rankings.len()
            invariant
                *self == *old(self),
                a0 == old(effect).actions@,
                only_actions_changed(*old(effect), *effect),
                i <= self.rankings@.len(),
                effect.actions@.len() == a0.len() + i,
                effect.actions@.take(a0.len() as int) == a0,
                sent.len() == i,
                forall|k: int| 0 <= k < i ==> sits_in_at(#[trigger] effect.actions@[a0.len() + k], sent[k]) && self.tables@.contains_key(sent[k]),
                forall|k: int| 0 <= k < i ==> sits_pending_player(*old(self), #[trigger] effect.actions@[a0.len() + k], self.rankings@[k]),
                forall|k: int| 0 <= k < i ==> #[trigger] sit_error(*old(self), self.rankings@[k].chips) is None,
            decreases self.rankings@.len() - i,
        {
            let pid = self.rankings[i].player_id;
            let chips = self.rankings[i].chips;
            let tid = match self.find_table_to_sit(1, chips) {
                Ok(t) => t,
                Err(e) => {
                    assert(sit_error(*old(self), self.rankings@[i as int].chips) == Some(e));
                    return Err(e);
                },
            };
            let ghost before = effect.actions@;
            let mut sitins: Vec<MttTableSitin> = Vec::new();
            sitins.push(MttTableSitin::new_with_defaults(pid, chips));
            effect.push(EffectAction::Bridge { dest: tid, event: HoldemBridgeEvent::SitinPlayers { sitins } });
            proof {
                assert(effect.actions@.take(a0.len() as int) =~= a0);
                let ghost s0 = sent;
                sent = sent.push(tid);
                assert forall|k: int| 0 <= k < i + 1 implies sits_in_at(#[trigger] effect.actions@[a0.len() + k], sent[k])
                    && self.tables@.contains_key(sent[k]) by {
                    if k < i {
                        assert(effect.actions@[a0.len() + k] == before[a0.len() + k]);
                        assert(sent[k] == s0[k]);
                    }
                }
                assert forall|k: int| 0 <= k < i + 1 implies sits_pending_player(*old(self), #[trigger] effect.actions@[a0.len() + k], self.rankings@[k]) by {
                    if k < i {
                        assert(effect.actions@[a0.len() + k] == before[a0.len() + k]);
                    }
                }
            }
            i = i + 1;
        }
        proof {
            assert forall|k: int| 0 <= k < old(self).rankings@.len() implies sits_in_at_table(#[trigger] effect.actions@[a0.len() + k], old(self).tables@) by {
                assert(sits_in_at(effect.actions@[a0.len() + k], sent[k]));
            }
        }
        Ok(())
    }

    /// A player asks to sit: at the table it is assigned to, or else at the
    /// table its chips call for.
    pub fn sit_in(&mut self, effect: &mut Effect, sender: u64) -> (r: Result<(), GameError>)
        ensures
            *final(self) == *old(self),
            sit_in_done(*old(self), *old(effect), sender, r, *final(effect)),
    {
        let (id, chips) = match self.find_player_by_id(sender) {
            Ok(p) => p,
            Err(e) => {
                return Err(e);
            },
        };
        proof {
            lemma_first_player_found(self.rankings@, sender, 0);
        }
        let tid = match self.table_assigns.get(&id) {
            Some(t) => *t,
            None => match self.find_table_to_sit(1, chips) {
                Ok(t) => t,
                Err(e) => {
                    return Err(e);
                },
            },
        };
        let mut sitins: Vec<MttTableSitin> = Vec::new();
        sitins.push(MttTableSitin::new_with_defaults(id, chips));
        effect.push(EffectAction::Bridge { dest: tid, event: HoldemBridgeEvent::SitinPlayers { sitins } });
        assert(effect.actions@.take(old(effect).actions@.len() as int) =~= old(effect).actions@);
        Ok(())
    }

    /// A table tells which players sat in (they now wait for their seat
    /// there) and which could not; those are sent together to the table
    /// for as many players as are known among them, fit for the most
    /// chips among them.
    #[verifier::rlimit(80)]
    #[verifier::spinoff_prover]
    pub fn sit_result(
        &mut self,
        effect: &mut Effect,
        table_id: usize,
        sitin_players: &Vec<u64>,
        sitout_players: &Vec<u64>,
    ) -> (r: Result<(), GameError>)
        ensures
            sit_result_done(*old(self), *old(effect), table_id, sitin_players@, sitout_players@, r, *final(self), *final(effect)),
    {
        let ghost p0 = self.table_assigns_pending@;
        let ghost r0 = self.rankings@;
        let ghost ins = sitin_players@;
        let ghost outs = sitout_players@;
        let mut i: usize = 0;
        while i < sitin_players.len()
            invariant
                ins == sitin_players@,
                r0 == old(self).rankings@,
                p0 == old(self).table_assigns_pending@,
                i <= ins.len(),
                self.table_assigns_pending@ == assigned_all(p0, ins.take(i as int), table_id),
                statuses_all(r0, self.rankings@, ins.take(i as int), LtMttPlayerStatus::Pending),
                *self == (LtMtt { table_assigns_pending: self.table_assigns_pending, rankings: self.rankings, ..*old(self) }),
                *effect == *old(effect),
            decreases ins.len() - i,
        {
            let pid = sitin_players[i];
            let ghost before = self.rankings@;
            self.table_assigns_pending.insert(pid, table_id);
            self.set_status(pid, LtMttPlayerStatus::Pending);
            proof {
                assert(ins.take(i + 1) =~= ins.take(i as int).push(pid));
                assert(ins.take(i + 1).drop_last() =~= ins.take(i as int));
                assert(assigned_all(p0, ins.take(i + 1), table_id) == assigned_all(p0, ins.take(i as int), table_id).insert(pid, table_id));
                lemma_statuses_step(r0, before, self.rankings@, ins.take(i as int), pid, LtMttPlayerStatus::Pending);
            }
            i = i + 1;
        }
        proof {
            assert(ins.take(ins.len() as int) =~= ins);
        }
        if sitout_players.len() == 0 {
            return Ok(());
        }
        let ghost r1 = self.rankings@;
        proof {
            lemma_outs_stats_same(r1, r0, outs);
        }
        let mut count: usize = 0;
        let mut max_chips: u64 = 0;
        let mut k: usize = 0;
        while k < self.rankings.len()
            invariant
                outs == sitout_players@,
                r1 == self.rankings@,
                k <= r1.len(),
                count <= k,
                (count as nat, max_chips) == outs_stats(r1.take(k as int), outs),
            decreases r1.len() - k,
        {
            let pid = self.rankings[k].player_id;
            let mut out = false;
            let mut q: usize = 0;
            while q < sitout_players.len()
                invariant
                    outs == sitout_players@,
                    q <= outs.len(),
                    out == outs.take(q as int).contains(pid),
                decreases outs.len() - q,
            {
                proof {
                    assert(outs.take(q + 1) =~= outs.take(q as int).push(outs[q as int]));
                    lemma_contains_push(outs.take(q as int), outs[q as int], pid);
                }
                if sitout_players[q] == pid {
                    out = true;
                }
                q = q + 1;
            }
            proof {
                assert(outs.take(outs.len() as int) =~= outs);
                assert(r1.take(k + 1).drop_last() =~= r1.take(k as int));
            }
            if out {
                count = count + 1;
                if self.rankings[k].chips > max_chips {
                    max_chips = self.rankings[k].chips;
                }
            }
            k = k + 1;
        }
        proof {
            assert(r1.take(r1.len() as int) =~= r1);
        }
        if count == 0 {
            return Err(GameError::PlayerNotFound);
        }
        let to_table = match self.find_table_to_sit(count, max_chips) {
            Ok(t) => t,
            Err(e) => {
                proof {
                    assert(self.blind_rules@ == old(self).blind_rules@);
                    assert(no_table_fits(*self, count as usize, max_chips) == no_table_fits(*old(self), count as usize, max_chips));
                    assert(sit_result_done(*old(self), *old(effect), table_id, sitin_players@, sitout_players@, Err(e), *self, *effect));
                }
                return Err(e);
            },
        };
        let ghost p1 = self.table_assigns_pending@;
        let mut sitins: Vec<MttTableSitin> = Vec::new();
        let mut j: usize = 0;
        while j < sitout_players.len()
            invariant
                outs == sitout_players@,
                ins == sitin_players@,
                r0 == old(self).rankings@,
                j <= outs.len(),
                self.table_assigns_pending@ == assigned_all(p1, outs.take(j as int), to_table),
                statuses_all(r0, self.rankings@, ins + outs.take(j as int), LtMttPlayerStatus::Pending),
                sitins@ == outs.take(j as int).map_values(|id: u64| sitin_of(r0, id)),
                forall|q: int| 0 <= q < j ==> first_player(r0, #[trigger] outs[q], 0) < r0.len(),
                outs.len() > 0,
                count > 0,
                (count as nat, max_chips) == outs_stats(r0, outs),
                first_fit(old(self).blind_rules@, max_chips, 0) < old(self).blind_rules@.len(),
                table_to_sit(*old(self), count, max_chips, to_table),
                p1 == assigned_all(old(self).table_assigns_pending@, ins, table_id),
                *self == (LtMtt { table_assigns_pending: self.table_assigns_pending, rankings: self.rankings, ..*old(self) }),
                *effect == *old(effect),
            decreases outs.len() - j,
        {
            let pid = sitout_players[j];
            let ghost before = self.rankings@;
            self.table_assigns_pending.insert(pid, to_table);
            self.set_status(pid, LtMttPlayerStatus::Pending);
            proof {
                assert(outs.take(j + 1) =~= outs.take(j as int).push(pid));
                assert(outs.take(j + 1).drop_last() =~= outs.take(j as int));
                assert(assigned_all(p1, outs.take(j + 1), to_table) == assigned_all(p1, outs.take(j as int), to_table).insert(pid, to_table));
                assert(ins + outs.take(j + 1) =~= (ins + outs.take(j as int)).push(pid));
                lemma_statuses_step(r0, before, self.rankings@, ins + outs.take(j as int), pid, LtMttPlayerStatus::Pending);
                lemma_first_player_same_ids(self.rankings@, r0, pid);
            }
            let (id, chips) = match self.find_player_by_id(pid) {
                Ok(p) => p,
                Err(e) => {
                    proof {
                        assert(first_player(r0, outs[j as int], 0) >= r0.len());
                    }
                    return Err(e);
                },
            };
            proof {
                lemma_first_player_found(r0, pid, 0);
            }
            sitins.push(MttTableSitin::new_with_defaults(id, chips));
            proof {
                assert(sitins@ =~= outs.take(j + 1).map_values(|id: u64| sitin_of(r0, id)));
            }
            j = j + 1;
        }
        proof {
            assert(outs.take(outs.len() as int) =~= outs);
        }
        effect.push(EffectAction::Bridge { dest: to_table, event: HoldemBridgeEvent::SitinPlayers { sitins } });
        proof {
            assert(effect.actions@.take(old(effect).actions@.len() as int) =~= old(effect).actions@);
        }
        Ok(())
    }

    /// Handle an event of the tournament.
    #[verifier::rlimit(40)]
    pub fn handle_event(&mut self, effect: &mut Effect, event: Event) -> (r: Result<(), GameError>)
        ensures
            match event {
                Event::Ready => ready_done(*old(self), *old(effect), r, *final(self), *final(effect)),
                Event::GameStart => r is Ok && *final(self) == *old(self)
                    && only_actions_changed(*old(effect), *final(effect))
                    && final(effect).actions@ == old(effect).actions@ + match stage_timeout(*old(self), old(effect).timestamp) {
                        Some(t) => seq![EffectAction::WaitTimeout { timeout: t }],
                        None => Seq::empty(),
                    },
                Event::WaitingTimeout => waiting_timeout_done(*old(self), *old(effect), r, *final(self), *final(effect)),
                Event::Join { players } => r is Ok && *final(effect) == *old(effect) && join_done(*old(self), *final(self), players@),
                Event::Deposit { deposits } => {
                    &&& old(self).stage != LtMttStage::EntryOpened ==> r is Ok && *final(self) == *old(self)
                        && only_actions_changed(*old(effect), *final(effect))
                        && final(effect).actions@ == old(effect).actions@ + rejections(deposits@)
                    &&& old(self).stage == LtMttStage::EntryOpened ==> only_actions_changed(*old(effect), *final(effect))
                        && deposits_taken(*old(self), old(effect).actions@, deposits@, r, *final(self), final(effect).actions@)
                },
                Event::Client { sender, event: ce } => match ce {
                    ClientEvent::SitIn => *final(self) == *old(self) && sit_in_done(*old(self), *old(effect), sender, r, *final(effect)),
                    ClientEvent::SitOut => r is Ok && *final(self) == *old(self) && *final(effect) == *old(effect),
                },
                Event::Custom { .. } => r == Err::<(), GameError>(GameError::CustomEventNotAllowed),
                Event::Bridge { event: be, .. } => match be {
                    HoldemBridgeEvent::GameResult { table_id, player_results, .. } => {
                        &&& lt_chips_run(old(self).rankings@, player_results@) matches Err(e) ==> r == Err::<(), GameError>(e)
                        &&& lt_chips_run(old(self).rankings@, player_results@) is Ok && !old(self).tables@.contains_key(table_id)
                            ==> r == Err::<(), GameError>(GameError::TableNotFound)
                        &&& r is Ok ==> final(effect).actions@.len() > 0 && final(effect).actions@.last() == EffectAction::Checkpoint
                    },
                    HoldemBridgeEvent::SitResult { table_id, sitin_players, sitout_players } => exists|e_mid: Effect| {
                        &&& #[trigger] sit_result_done(*old(self), *old(effect), table_id, sitin_players@, sitout_players@, r, *final(self), e_mid)
                        &&& r is Ok ==> only_actions_changed(e_mid, *final(effect))
                            && final(effect).actions@ == e_mid.actions@.push(EffectAction::Checkpoint)
                    },
                    _ => r == Err::<(), GameError>(GameError::InvalidBridgeEvent),
                },
                Event::SubGameReady { .. } => r is Ok && *final(self) == *old(self)
                    && only_actions_changed(*old(effect), *final(effect))
                    && final(effect).actions@ == old(effect).actions@.push(EffectAction::Checkpoint),
                _ => r is Ok && *final(self) == *old(self) && *final(effect) == *old(effect),
            },
    {
        match event {
            Event::Ready => self.on_ready(effect),
            Event::GameStart => {
                self.on_game_start(effect);
                Ok(())
            },
            Event::WaitingTimeout => self.on_waiting_timeout(effect),
            Event::Join { players } => {
                self.on_join(&players);
                Ok(())
            },
            Event::Deposit { deposits } => {
                let mut i: usize = 0;
                while i < deposits.len()
                    invariant
                        i <= deposits@.len(),
                        old(self).stage != LtMttStage::EntryOpened ==> *self == *old(self)
                            && only_actions_changed(*old(effect), *effect)
                            && effect.actions@ == old(effect).actions@ + rejections(deposits@.take(i as int)),
                        self.stage == old(self).stage,
                        event == (Event::Deposit { deposits }),
                        only_actions_changed(*old(effect), *effect),
                        old(self).stage == LtMttStage::EntryOpened ==> deposits_taken(
                            *old(self),
                            old(effect).actions@,
                            deposits@.take(i as int),
                            Ok::<(), GameError>(()),
                            *self,
                            effect.actions@,
                        ),
                    decreases deposits@.len() - i,
                {
                    let d = deposits[i];
                    proof {
                        assert(deposits@.take(i + 1) =~= deposits@.take(i as int).push(d));
                        assert(deposits@.take(i + 1).drop_last() =~= deposits@.take(i as int));
                        assert(rejections(deposits@.take(i + 1)) =~= rejections(deposits@.take(i as int)).push(
                            EffectAction::RejectDeposit { player_id: d.id, amount: d.balance }));
                    }
                    let ghost mb = *self;
                    let ghost ab = effect.actions@;
                    let rd = self.on_deposit(effect, &d);
                    let ghost mx = *self;
                    let accepted = match rd {
                        Ok(a) => a,
                        Err(e) => {
                            proof {
                                if old(self).stage == LtMttStage::EntryOpened {
                                    assert(deposit_done(mb, ab, d, rd, mx, effect.actions@));
                                    assert(deposit_step(mb, ab, d, Err::<(), GameError>(e), *self, effect.actions@));
                                    lemma_deposits_taken_push(*old(self), old(effect).actions@, deposits@, i as int, mb, ab, Err::<(), GameError>(e), *self, effect.actions@);
                                    lemma_deposits_error_extends(*old(self), old(effect).actions@, deposits@, i + 1, Err::<(), GameError>(e), *self, effect.actions@);
                                }
                            }
                            return Err(e);
                        },
                    };
                    if accepted {
                        self.sort_rankings();
                    }
                    proof {
                        if old(self).stage == LtMttStage::EntryOpened {
                            assert(deposit_done(mb, ab, d, rd, mx, effect.actions@));
                            assert(deposit_step(mb, ab, d, Ok::<(), GameError>(()), *self, effect.actions@));
                            lemma_deposits_taken_push(*old(self), old(effect).actions@, deposits@, i as int, mb, ab, Ok::<(), GameError>(()), *self, effect.actions@);
                        }
                    }
                    i = i + 1;
                }
                proof {
                    assert(deposits@.take(deposits@.len() as int) =~= deposits@);
                }
                Ok(())
            },
            Event::Client { sender, event: ce } => match ce {
                ClientEvent::SitIn => self.sit_in(effect, sender),
                ClientEvent::SitOut => Ok(()),
            },
            Event::Custom { .. } => Err(GameError::CustomEventNotAllowed),
            Event::Bridge { event: be, .. } => match be {
                HoldemBridgeEvent::GameResult { table_id, player_results, table, .. } => {
                    match self.on_game_result(effect, table_id, &player_results, &table) {
                        Ok(()) => {},
                        Err(e) => {
                            return Err(e);
                        },
                    }
                    effect.push(EffectAction::Checkpoint);
                    Ok(())
                },
                HoldemBridgeEvent::SitResult { table_id, sitin_players, sitout_players } => {
                    let res = self.sit_result(effect, table_id, &sitin_players, &sitout_players);
                    let ghost e_mid = *effect;
                    match res {
                        Ok(()) => {},
                        Err(e) => {
                            assert(sit_result_done(*old(self), *old(effect), table_id, sitin_players@, sitout_players@, Err::<(), GameError>(e), *self, e_mid));
                            return Err(e);
                        },
                    }
                    effect.push(EffectAction::Checkpoint);
                    assert(sit_result_done(*old(self), *old(effect), table_id, sitin_players@, sitout_players@, Ok::<(), GameError>(()), *self, e_mid));
                    Ok(())
                },
                _ => Err(GameError::InvalidBridgeEvent),
            },
            Event::SubGameReady { .. } => {
                effect.push(EffectAction::Checkpoint);
                Ok(())
            },
            _ => Ok(()),
        }
    }
}

proof fn lemma_first_player_same_ids(a: Seq<LtMttPlayer>, b: Seq<LtMttPlayer>, id: u64)
    requires
        a.len() == b.len(),
        forall|k: int| 0 <= k < a.len() ==> #[trigger] a[k].player_id == b[k].player_id,
    ensures
        first_player(a, id, 0) == first_player(b, id, 0),
{
    lemma_first_player_same_ids_from(a, b, id, 0);
}

proof fn lemma_first_player_same_ids_from(a: Seq<LtMttPlayer>, b: Seq<LtMttPlayer>, id: u64, j: int)
    requires
        a.len() == b.len(),
        0 <= j <= a.len(),
        forall|k: int| 0 <= k < a.len() ==> #[trigger] a[k].player_id == b[k].player_id,
    ensures
        first_player(a, id, j) == first_player(b, id, j),
    decreases a.len() - j,
{
    if j < a.len() {
        assert(a[j].player_id == b[j].player_id);
        lemma_first_player_same_ids_from(a, b, id, j + 1);
    }
}

proof fn lemma_sort_len(rs: Seq<LtMttPlayer>)
    ensures
        sort_by_chips(rs).len() == rs.len(),
    decreases rs.len(),
{
    if rs.len() > 0 {
        lemma_sort_len(rs.drop_last());
        lemma_chips_pos_bound(sort_by_chips(rs.drop_last()), rs.last().chips, 0);
    }
}

proof fn lemma_chips_pos_bound(s: Seq<LtMttPlayer>, chips: u64, j: int)
    requires
        0 <= j <= s.len(),
    ensures
        j <= chips_pos(s, chips, j) <= s.len(),
    decreases s.len() - j,
{
    if j < s.len() {
        lemma_chips_pos_bound(s, chips, j + 1);
    }
}

proof fn lemma_first_player_push(rs: Seq<LtMttPlayer>, p: LtMttPlayer, id: u64)
    ensures
        first_player(rs, id, 0) < rs.len() ==> first_player(rs.push(p), id, 0) == first_player(rs, id, 0),
        first_player(rs, id, 0) >= rs.len() && p.player_id == id ==> first_player(rs.push(p), id, 0) == rs.len(),
{
    lemma_first_player_push_from(rs, p, id, 0);
}

proof fn lemma_first_player_push_from(rs: Seq<LtMttPlayer>, p: LtMttPlayer, id: u64, j: int)
    requires
        0 <= j <= rs.len(),
    ensures
        first_player(rs, id, j) < rs.len() ==> first_player(rs.push(p), id, j) == first_player(rs, id, j),
        first_player(rs, id, j) >= rs.len() && p.player_id == id ==> first_player(rs.push(p), id, j) == rs.len(),
    decreases rs.len() - j,
{
    if j < rs.len() {
        assert(rs.push(p)[j] == rs[j]);
        lemma_first_player_push_from(rs, p, id, j + 1);
    } else {
        assert(rs.push(p)[j] == p);
    }
}

/// A player absent from the ranking is absent from any prefix of it.
proof fn lemma_first_player_prefix(rs: Seq<LtMttPlayer>, n: int, id: u64)
    requires
        0 <= n <= rs.len(),
        first_player(rs, id, 0) >= rs.len(),
    ensures
        first_player(rs.take(n), id, 0) >= n,
{
    lemma_first_player_none(rs, id, 0);
    lemma_first_player_none_back(rs.take(n), id, 0);
}

proof fn lemma_first_player_none(rs: Seq<LtMttPlayer>, id: u64, j: int)
    requires
        0 <= j <= rs.len(),
        first_player(rs, id, j) >= rs.len(),
    ensures
        forall|k: int| j <= k < rs.len() ==> rs[k].player_id != id,
    decreases rs.len() - j,
{
    if j < rs.len() {
        lemma_first_player_none(rs, id, j + 1);
    }
}

proof fn lemma_first_player_none_back(rs: Seq<LtMttPlayer>, id: u64, j: int)
    requires
        0 <= j <= rs.len(),
        forall|k: int| j <= k < rs.len() ==> rs[k].player_id != id,
    ensures
        first_player(rs, id, j) >= rs.len(),
    decreases rs.len() - j,
{
    if j < rs.len() {
        lemma_first_player_none_back(rs, id, j + 1);
    }
}

proof fn lemma_balance_sum_grows(b: Map<u64, u64>, ids: Seq<u64>, m: int, n: int)
    requires
        0 <= m <= n <= ids.len(),
    ensures
        balance_sum(b, ids.take(m)) <= balance_sum(b, ids.take(n)),
    decreases n - m,
{
    if m < n {
        lemma_balance_sum_grows(b, ids, m, n - 1);
        assert(ids.take(n).drop_last() =~= ids.take(n - 1));
    }
}

proof fn lemma_contains_push(s: Seq<u64>, x: u64, y: u64)
    ensures
        s.push(x).contains(y) <==> (s.contains(y) || x == y),
{
    if s.contains(y) {
        let j = choose|j: int| 0 <= j < s.len() && s[j] == y;
        assert(s.push(x)[j] == y);
    }
    if x == y {
        assert(s.push(x)[s.len() as int] == y);
    }
    if s.push(x).contains(y) {
        let j = choose|j: int| 0 <= j < s.push(x).len() && s.push(x)[j] == y;
        if j < s.len() {
            assert(s[j] == y);
        }
    }
}

/// Setting the status of one more player.
proof fn lemma_statuses_step(
    r0: Seq<LtMttPlayer>,
    before: Seq<LtMttPlayer>,
    after: Seq<LtMttPlayer>,
    ids: Seq<u64>,
    id: u64,
    st: LtMttPlayerStatus,
)
    requires
        statuses_all(r0, before, ids, st),
        statuses_set(before, after, id, st),
    ensures
        statuses_all(r0, after, ids.push(id), st),
{
    assert forall|k: int| 0 <= k < r0.len() implies {
        &&& (#[trigger] after[k]).player_id == r0[k].player_id && after[k].chips == r0[k].chips
        &&& after[k].position == r0[k].position && after[k].deposit_history == r0[k].deposit_history
        &&& after[k].status == if ids.push(id).contains(r0[k].player_id) { st } else { r0[k].status }
    } by {
        assert(before[k].player_id == r0[k].player_id);
        lemma_contains_push(ids, id, r0[k].player_id);
    }
}

/// The counts and chips of the players of `ids` depend only on the ids
/// and chips of the ranking.
proof fn lemma_outs_stats_same(a: Seq<LtMttPlayer>, b: Seq<LtMttPlayer>, ids: Seq<u64>)
    requires
        a.len() == b.len(),
        forall|k: int| 0 <= k < a.len() ==> #[trigger] a[k].player_id == b[k].player_id && a[k].chips == b[k].chips,
    ensures
        outs_stats(a, ids) == outs_stats(b, ids),
    decreases a.len(),
{
    if a.len() > 0 {
        assert forall|k: int| 0 <= k < a.drop_last().len() implies #[trigger] a.drop_last()[k].player_id == b.drop_last()[k].player_id
            && a.drop_last()[k].chips == b.drop_last()[k].chips by {
            assert(a[k].player_id == b[k].player_id);
        }
        lemma_outs_stats_same(a.drop_last(), b.drop_last(), ids);
        assert(a[a.len() - 1].player_id == b[b.len() - 1].player_id);
    }
}

/// A player found in the ranking has the id looked for.
proof fn lemma_first_player_found(rs: Seq<LtMttPlayer>, id: u64, j: int)
    requires
        0 <= j,
        first_player(rs, id, j) < rs.len(),
    ensures
        rs[first_player(rs, id, j)].player_id == id,
        first_player(rs, id, j) >= j,
    decreases rs.len() - j,
{
    if j < rs.len() && rs[j].player_id != id {
        lemma_first_player_found(rs, id, j + 1);
    }
}

/// Once the run is refused, applying more results keeps the refusal.
proof fn lemma_lt_chips_run_err(rs: Seq<LtMttPlayer>, results: Seq<PlayerResult>, n: int)
    requires
        0 < n <= results.len(),
    ensures
        lt_chips_run(rs, results.take(n)) is Err ==> lt_chips_run(rs, results) == lt_chips_run(rs, results.take(n)),
    decreases results.len() - n,
{
    if n < results.len() {
        lemma_lt_chips_run_err(rs, results, n + 1);
        assert(results.take(n + 1).drop_last() =~= results.take(n));
    } else {
        assert(results.take(n) =~= results);
    }
}

/// A share is at most the sum of the shares it is among.
proof fn lemma_share_within_sum(rules: Seq<u8>, j: int, n: int)
    requires
        0 <= j < rules.len(),
        j < n,
    ensures
        rules[j] <= shares_sum(rules, n),
{
    if n > rules.len() {
        lemma_shares_past_end(rules, n);
        lemma_shares_grow(rules, j + 1, rules.len() as int);
    } else {
        lemma_shares_grow(rules, j + 1, n);
    }
}

} // verus!
