//! Collecting the bets of a street into pots, taking the rake, and awarding
//! the pots to their winners.

use std::collections::BTreeMap;
use vstd::prelude::*;
use crate::errors::GameError;
use crate::essential::{
    pot_views, AwardPot, Display, GameMode, Player, PlayerResult, PlayerStatus, Pot, PotView, Street,
};
use crate::game::{is_unfolded, mapped, reset_fn, timeout_overflows, Holdem};
use crate::hand_history::{with_changes, HandHistory};
use crate::keys::{key_seq, lemma_increasing_unique, sorted_keys, strictly_increasing};
use crate::holdem_evaluator::lemma_filter_take_step;

verus! {

broadcast use vstd::std_specs::btree::group_btree_axioms;

/// The rake a cash game takes from a pot of `amount` after the preflop:
/// `rake` per mille of the pot, but no more than what is left of the
/// hand's cap of `rake_cap` big blinds (nothing once the cap is reached).
/// No rake in other games or on the preflop.
pub open spec fn rake_of(h: Holdem, collected: u64, amount: u64) -> int {
    if h.mode != GameMode::Cash || h.street == Street::Preflop {
        0
    } else {
        let room = if collected > h.rake_cap * h.bb { 0 } else { h.rake_cap * h.bb - collected };
        let share = amount * h.rake / 1000;
        if room < share {
            room
        } else {
            share
        }
    }
}

/// Whether computing that rake leaves the range of `u64`: the cap, the
/// product of pot and rate, or the pot after it.
pub open spec fn rake_fails(h: Holdem, collected: u64, amount: u64) -> bool {
    &&& h.mode == GameMode::Cash
    &&& h.street != Street::Preflop
    &&& (h.rake_cap * h.bb > u64::MAX || amount * h.rake > u64::MAX || rake_of(h, collected, amount) > amount)
}

/// Ids kept by a filter on membership.
pub open spec fn in_set(s: Set<u64>) -> spec_fn(u64) -> bool {
    |k: u64| s.contains(k)
}

/// Keys whose bet reaches `b`.
pub open spec fn at_least(bm: Map<u64, u64>, b: u64) -> spec_fn(u64) -> bool {
    |k: u64| bm[k] >= b
}

/// The ids of the players who have not folded.
pub open spec fn unfolded_ids(pm: Map<u64, Player>) -> Set<u64> {
    Set::new(|x: u64| exists|k: u64| #[trigger] pm.contains_key(k) && pm[k].id == x && is_unfolded(pm[k].status))
}

/// The pots with folded players removed from their owners.
pub open spec fn retain_owners(pots: Seq<PotView>, u: Set<u64>) -> Seq<PotView> {
    pots.map_values(|p: PotView| PotView { owners: p.owners.filter(in_set(u)), winners: p.winners, amount: p.amount })
}

/// The distinct bets of a street in increasing order.
pub open spec fn bet_levels(bm: Map<u64, u64>) -> Seq<u64> {
    choose|s: Seq<u64>| strictly_increasing(s) && s.to_set() == bm.values()
}

/// The bettors whose bet reaches `b`, by increasing id.
pub open spec fn owners_at(bm: Map<u64, u64>, b: u64) -> Seq<u64> {
    key_seq(bm).filter(at_least(bm, b))
}

/// The state of collecting bets, level by level.
pub struct Collect {
    /// the highest level that made a pot so far
    pub acc: u64,
    /// the pots made so far
    pub pots: Seq<PotView>,
    pub players: Map<u64, Player>,
    pub totals: Map<u64, u64>,
    pub rake_collected: u64,
    pub err: Option<GameError>,
}

/// One bet level `b`: every bettor who reached it puts in `b` less the
/// previous level.  A level that one bettor alone reached is that
/// bettor's excess and goes back to their chips (and out of their total
/// bet); any other level makes a pot owned by its bettors who have not
/// folded, less the rake.
pub open spec fn collect_level(h: Holdem, bm: Map<u64, u64>, u: Set<u64>, st: Collect, b: u64) -> Collect {
    if st.err is Some {
        st
    } else {
        let owners = owners_at(bm, b);
        let amount = (b - st.acc) * owners.len();
        if amount > u64::MAX {
            Collect { err: Some(GameError::InternalAmountOverflow), ..st }
        } else if owners.len() == 1 {
            let o = owners[0];
            if !st.players.contains_key(o) {
                Collect { err: Some(GameError::InternalPlayerNotFound), ..st }
            } else if !st.totals.contains_key(o) {
                Collect { err: Some(GameError::InternalMalformedTotalBet), ..st }
            } else if st.players[o].chips + amount > u64::MAX || st.totals[o] < amount {
                Collect { err: Some(GameError::InternalAmountOverflow), ..st }
            } else {
                Collect {
                    players: st.players.insert(o, Player { chips: (st.players[o].chips + amount) as u64, ..st.players[o] }),
                    totals: st.totals.insert(o, (st.totals[o] - amount) as u64),
                    ..st
                }
            }
        } else if rake_fails(h, st.rake_collected, amount as u64) {
            Collect { err: Some(GameError::InternalAmountOverflow), ..st }
        } else {
            let r = rake_of(h, st.rake_collected, amount as u64);
            Collect {
                acc: b,
                pots: st.pots.push(
                    PotView { owners: owners.filter(in_set(u)), winners: Seq::empty(), amount: (amount - r) as u64 },
                ),
                rake_collected: (st.rake_collected + r) as u64,
                ..st
            }
        }
    }
}

/// Collecting the levels one after the other.
pub open spec fn collect_levels(h: Holdem, bm: Map<u64, u64>, u: Set<u64>, st: Collect, levels: Seq<u64>) -> Collect
    decreases levels.len(),
{
    if levels.len() == 0 {
        st
    } else {
        collect_level(h, bm, u, collect_levels(h, bm, u, st, levels.drop_last()), levels.last())
    }
}

/// Adding the new pots to the pots: a new pot with as many owners as the
/// last pot joins it, any other is added.  `None` when an amount overflows.
pub open spec fn merge_pots(pots: Seq<PotView>, news: Seq<PotView>) -> Option<Seq<PotView>>
    decreases news.len(),
{
    if news.len() == 0 {
        Some(pots)
    } else {
        match merge_pots(pots, news.drop_last()) {
            None => None,
            Some(ps) => {
                let np = news.last();
                if ps.len() > 0 && np.owners.len() == ps.last().owners.len() {
                    if ps.last().amount + np.amount > u64::MAX {
                        None
                    } else {
                        Some(ps.update(ps.len() - 1, PotView { amount: (ps.last().amount + np.amount) as u64, ..ps.last() }))
                    }
                } else {
                    Some(ps.push(np))
                }
            },
        }
    }
}

/// Collecting the bets of a hand state from the start.
pub open spec fn collect_run(h: Holdem) -> Collect {
    collect_levels(
        h,
        h.bet_map@,
        unfolded_ids(h.player_map@),
        Collect {
            acc: 0,
            pots: Seq::empty(),
            players: h.player_map@,
            totals: h.total_bet_map@,
            rake_collected: h.rake_collected,
            err: None,
        },
        bet_levels(h.bet_map@),
    )
}

/// Once collecting fails, later levels keep the error.
proof fn lemma_collect_err(h: Holdem, bm: Map<u64, u64>, u: Set<u64>, st: Collect, levels: Seq<u64>, i: int)
    requires
        0 <= i <= levels.len(),
        collect_levels(h, bm, u, st, levels.take(i)).err is Some,
    ensures
        collect_levels(h, bm, u, st, levels).err == collect_levels(h, bm, u, st, levels.take(i)).err,
    decreases levels.len() - i,
{
    if i < levels.len() {
        assert(levels.take(i + 1).drop_last() =~= levels.take(i));
        lemma_collect_err(h, bm, u, st, levels, i + 1);
    } else {
        assert(levels.take(i) =~= levels);
    }
}

/// Once merging overflows, it stays so.
proof fn lemma_merge_none(pots: Seq<PotView>, news: Seq<PotView>, i: int)
    requires
        0 <= i <= news.len(),
        merge_pots(pots, news.take(i)) is None,
    ensures
        merge_pots(pots, news) is None,
    decreases news.len() - i,
{
    if i < news.len() {
        assert(news.take(i + 1).drop_last() =~= news.take(i));
        lemma_merge_none(pots, news, i + 1);
    } else {
        assert(news.take(i) =~= news);
    }
}

/// Whether `x` is an element of `v`.
fn vec_contains(v: &Vec<u64>, x: u64) -> (r: bool)
    ensures
        r == v@.contains(x),
{
    let mut i: usize = 0;
    while i < v.len()
        invariant
            i <= v@.len(),
            forall|k: int| 0 <= k < i ==> v@[k] != x,
        decreases v@.len() - i,
    {
        if v[i] == x {
            return true;
        }
        i = i + 1;
    }
    false
}

/// A copy of a sequence of ids.
fn copy_ids(v: &Vec<u64>) -> (r: Vec<u64>)
    ensures
        r@ == v@,
{
    let mut out: Vec<u64> = Vec::new();
    let mut i: usize = 0;
    while i < v.len()
        invariant
            i <= v@.len(),
            out@ == v@.take(i as int),
        decreases v@.len() - i,
    {
        out.push(v[i]);
        assert(v@.take(i + 1) =~= v@.take(i as int).push(v@[i as int]));
        i = i + 1;
    }
    assert(v@.take(i as int) =~= v@);
    out
}

/// A copy of a sequence of ids, for other modules.
pub fn copy_ids_pub(v: &Vec<u64>) -> (r: Vec<u64>)
    ensures
        r@ == v@,
{
    copy_ids(v)
}

/// A copy of pots.
fn copy_pots(pots: &Vec<Pot>) -> (r: Vec<Pot>)
    ensures
        pot_views(r@) == pot_views(pots@),
{
    let mut out: Vec<Pot> = Vec::new();
    let mut i: usize = 0;
    while i < pots.len()
        invariant
            i <= pots@.len(),
            pot_views(out@) == pot_views(pots@.take(i as int)),
        decreases pots@.len() - i,
    {
        let p = &pots[i];
        let q = Pot { owners: copy_ids(&p.owners), winners: copy_ids(&p.winners), amount: p.amount };
        let ghost before = out@;
        out.push(q);
        assert(pot_views(out@) =~= pot_views(before).push(q@));
        assert(pot_views(pots@.take(i + 1)) =~= pot_views(pots@.take(i as int)).push(pots@[i as int]@));
        i = i + 1;
    }
    assert(pots@.take(i as int) =~= pots@);
    out
}

/// The elements of `v` that are also in `keep`, in order.
fn retain_ids(v: &Vec<u64>, keep: &Vec<u64>) -> (r: Vec<u64>)
    ensures
        r@ == v@.filter(in_set(keep@.to_set())),
{
    let mut out: Vec<u64> = Vec::new();
    let mut i: usize = 0;
    while i < v.len()
        invariant
            i <= v@.len(),
            out@ == v@.take(i as int).filter(in_set(keep@.to_set())),
        decreases v@.len() - i,
    {
        proof {
            lemma_filter_take_step(v@, in_set(keep@.to_set()), i as int);
        }
        let x = v[i];
        if vec_contains(keep, x) {
            out.push(x);
        }
        i = i + 1;
    }
    assert(v@.take(i as int) =~= v@);
    out
}

impl Holdem {
    /// The rake due from a pot of `amount` when `collected` was taken
    /// before; an error where the arithmetic leaves `u64`.
    fn rake_for(&self, collected: u64, amount: u64) -> (r: Result<u64, GameError>)
        ensures
            rake_fails(*self, collected, amount) ==> r == Err::<u64, GameError>(GameError::InternalAmountOverflow),
            !rake_fails(*self, collected, amount) ==> r == Ok::<u64, GameError>(rake_of(*self, collected, amount) as u64),
    {
        if self.mode != GameMode::Cash {
            return Ok(0);
        }
        if self.street == Street::Preflop {
            return Ok(0);
        }
        let cap = match (self.rake_cap as u64).checked_mul(self.bb) {
            Some(c) => c,
            None => {
                return Err(GameError::InternalAmountOverflow);
            },
        };
        let product = match amount.checked_mul(self.rake as u64) {
            Some(p) => p,
            None => {
                return Err(GameError::InternalAmountOverflow);
            },
        };
        let room = if collected > cap { 0 } else { cap - collected };
        let share = product / 1000;
        let due = if room < share {
            room
        } else {
            share
        };
        if due > amount {
            return Err(GameError::InternalAmountOverflow);
        }
        Ok(due)
    }

    /// Take the rake from a pot: cash games only, and not on the preflop.
    /// Returns the amount taken.
    pub fn take_rake_from_pot(&mut self, pot: &mut Pot) -> (r: Result<u64, GameError>)
        ensures
            rake_fails(*old(self), old(self).rake_collected, old(pot).amount) ==> r == Err::<u64, GameError>(
                GameError::InternalAmountOverflow,
            ) && *final(self) == *old(self) && *final(pot) == *old(pot),
            !rake_fails(*old(self), old(self).rake_collected, old(pot).amount) ==> {
                let due = rake_of(*old(self), old(self).rake_collected, old(pot).amount);
                &&& r == Ok::<u64, GameError>(due as u64)
                &&& final(pot).amount == old(pot).amount - due
                &&& final(pot).owners@ == old(pot).owners@
                &&& final(pot).winners@ == old(pot).winners@
                &&& *final(self) == (Holdem { rake_collected: (old(self).rake_collected + due) as u64, ..*old(self) })
            },
    {
        let due = self.rake_for(self.rake_collected, pot.amount)?;
        pot.amount = pot.amount - due;
        self.rake_collected = self.rake_collected + due;
        Ok(due)
    }
}


impl Holdem {
    /// The ids of the players who have not folded.
    fn unfolded_player_ids(&self) -> (r: Vec<u64>)
        ensures
            r@.to_set() == unfolded_ids(self.player_map@),
    {
        let ghost pm = self.player_map@;
        let pids = sorted_keys(&self.player_map);
        let mut out: Vec<u64> = Vec::new();
        let mut i: usize = 0;
        while i < pids.len()
            invariant
                pm == self.player_map@,
                pids@.to_set() == pm.dom(),
                i <= pids@.len(),
                forall|x: u64|
                    out@.contains(x) <==> exists|k: int|
                        0 <= k < i && pm[#[trigger] pids@[k]].id == x && is_unfolded(pm[pids@[k]].status),
            decreases pids@.len() - i,
        {
            let id = pids[i];
            assert(pids@.to_set().contains(id));
            let p = match self.player_map.get(&id) {
                Some(p) => *p,
                None => Player::default(),
            };
            let ghost before = out@;
            if p.status == PlayerStatus::Wait || p.status == PlayerStatus::Allin || p.status
                == PlayerStatus::Acted || p.status == PlayerStatus::Acting {
                out.push(p.id);
            }
            proof {
                assert forall|x: u64|
                    out@.contains(x) <==> exists|k: int|
                        0 <= k < i + 1 && pm[#[trigger] pids@[k]].id == x && is_unfolded(
                            pm[pids@[k]].status,
                        ) by {
                    if out@.contains(x) {
                        let j = choose|j: int| 0 <= j < out@.len() && out@[j] == x;
                        if j < before.len() {
                            assert(before.contains(x));
                        } else {
                            assert(pm[pids@[i as int]].id == x);
                        }
                    }
                    if exists|k: int|
                        0 <= k < i + 1 && pm[#[trigger] pids@[k]].id == x && is_unfolded(
                            pm[pids@[k]].status,
                        ) {
                        let k = choose|k: int|
                            0 <= k < i + 1 && pm[#[trigger] pids@[k]].id == x && is_unfolded(
                                pm[pids@[k]].status,
                            );
                        if k < i {
                            assert(before.contains(x));
                            let j = choose|j: int| 0 <= j < before.len() && before[j] == x;
                            assert(out@[j] == x);
                        } else {
                            assert(out@[out@.len() - 1] == x);
                        }
                    }
                }
            }
            i = i + 1;
        }
        proof {
            assert(out@.to_set() =~= unfolded_ids(pm)) by {
                assert forall|x: u64| out@.to_set().contains(x) implies unfolded_ids(pm).contains(x) by {
                    assert(out@.contains(x));
                    let k = choose|k: int|
                        0 <= k < i && pm[#[trigger] pids@[k]].id == x && is_unfolded(pm[pids@[k]].status);
                    assert(pids@.to_set().contains(pids@[k]));
                    assert(pm.contains_key(pids@[k]));
                }
                assert forall|x: u64| unfolded_ids(pm).contains(x) implies out@.to_set().contains(x) by {
                    let key = choose|key: u64| #[trigger] pm.contains_key(key) && pm[key].id == x && is_unfolded(pm[key].status);
                    assert(pids@.to_set().contains(key));
                    let k = choose|k: int| 0 <= k < pids@.len() && pids@[k] == key;
                    assert(pm[pids@[k]].id == x);
                    assert(out@.contains(x));
                }
            }
        }
        out
    }

    /// The pots with only the given players left among their owners.
    fn retained_pots(&self, keep: &Vec<u64>) -> (r: Vec<Pot>)
        ensures
            pot_views(r@) == retain_owners(pot_views(self.pots@), keep@.to_set()),
    {
        let mut out: Vec<Pot> = Vec::new();
        let mut j: usize = 0;
        while j < self.pots.len()
            invariant
                j <= self.pots@.len(),
                pot_views(out@) == retain_owners(pot_views(self.pots@.take(j as int)), keep@.to_set()),
            decreases self.pots@.len() - j,
        {
            let p = &self.pots[j];
            let q = Pot { owners: retain_ids(&p.owners, keep), winners: copy_ids(&p.winners), amount: p.amount };
            let ghost before = out@;
            out.push(q);
            proof {
                assert(pot_views(out@) =~= pot_views(before).push(q@));
                assert(pot_views(self.pots@.take(j + 1)) =~= pot_views(self.pots@.take(j as int)).push(self.pots@[j as int]@));
                assert(retain_owners(pot_views(self.pots@.take(j + 1)), keep@.to_set()) =~= retain_owners(
                    pot_views(self.pots@.take(j as int)),
                    keep@.to_set(),
                ).push(q@));
            }
            j = j + 1;
        }
        assert(self.pots@.take(j as int) =~= self.pots@);
        out
    }

    /// The distinct bets of the street in increasing order.
    fn bet_levels_of(&self) -> (r: Vec<u64>)
        ensures
            r@ == bet_levels(self.bet_map@),
            strictly_increasing(r@),
    {
        let ghost bm = self.bet_map@;
        let bkeys = sorted_keys(&self.bet_map);
        let mut levels: Vec<u64> = Vec::new();
        let mut i: usize = 0;
        while i < bkeys.len()
            invariant
                bm == self.bet_map@,
                bkeys@.to_set() == bm.dom(),
                i <= bkeys@.len(),
                strictly_increasing(levels@),
                forall|v: u64| levels@.contains(v) <==> exists|k: int| 0 <= k < i && bm[#[trigger] bkeys@[k]] == v,
            decreases bkeys@.len() - i,
        {
            let key = bkeys[i];
            assert(bkeys@.to_set().contains(key));
            let v: u64 = match self.bet_map.get(&key) {
                Some(b) => *b,
                None => 0,
            };
            let mut idx: usize = 0;
            while idx < levels.len()
                invariant
                    idx <= levels@.len(),
                    forall|k: int| 0 <= k < idx ==> levels@[k] < v,
                ensures
                    idx <= levels@.len(),
                    forall|k: int| 0 <= k < idx ==> levels@[k] < v,
                    idx == levels@.len() || levels@[idx as int] >= v,
                decreases levels@.len() - idx,
            {
                if levels[idx] >= v {
                    break;
                }
                idx = idx + 1;
            }
            let ghost before = levels@;
            if idx < levels.len() && levels[idx] == v {
            } else {
                levels.insert(idx, v);
                proof {
                    assert forall|a: int, b: int| 0 <= a < b < levels@.len() implies levels@[a] < levels@[b] by {
                        if b < idx {
                        } else if b == idx {
                        } else if a < idx {
                            assert(levels@[b] == before[b - 1]);
                            assert(before[b - 1] >= before[idx as int]);
                        } else if a == idx {
                            assert(levels@[b] == before[b - 1]);
                            if b - 1 > idx {
                                assert(before[idx as int] < before[b - 1]);
                            }
                        } else {
                            assert(levels@[a] == before[a - 1]);
                            assert(levels@[b] == before[b - 1]);
                        }
                    }
                }
            }
            proof {
                assert forall|x: u64| levels@.contains(x) <==> exists|k: int| 0 <= k < i + 1 && bm[#[trigger] bkeys@[k]] == x by {
                    if levels@.contains(x) {
                        let j = choose|j: int| 0 <= j < levels@.len() && levels@[j] == x;
                        if x != v {
                            if levels@.len() == before.len() {
                                assert(before.contains(x));
                            } else if j < idx {
                                assert(before[j] == x);
                                assert(before.contains(x));
                            } else {
                                assert(before[j - 1] == x);
                                assert(before.contains(x));
                            }
                        } else {
                            assert(bm[bkeys@[i as int]] == x);
                        }
                    }
                    if exists|k: int| 0 <= k < i + 1 && bm[#[trigger] bkeys@[k]] == x {
                        let k = choose|k: int| 0 <= k < i + 1 && bm[#[trigger] bkeys@[k]] == x;
                        if k < i {
                            assert(before.contains(x));
                            let j = choose|j: int| 0 <= j < before.len() && before[j] == x;
                            if levels@.len() == before.len() {
                                assert(levels@[j] == x);
                            } else if j < idx {
                                assert(levels@[j] == x);
                            } else {
                                assert(levels@[j + 1] == x);
                            }
                        } else {
                            assert(x == v);
                            if levels@.len() == before.len() {
                                assert(levels@[idx as int] == x);
                            } else {
                                assert(levels@[idx as int] == x);
                            }
                        }
                    }
                }
            }
            i = i + 1;
        }
        proof {
            assert(levels@.to_set() =~= bm.values()) by {
                assert forall|x: u64| levels@.to_set().contains(x) implies bm.values().contains(x) by {
                    assert(levels@.contains(x));
                    let k = choose|k: int| 0 <= k < i && bm[#[trigger] bkeys@[k]] == x;
                    assert(bkeys@.to_set().contains(bkeys@[k]));
                    assert(bm.contains_key(bkeys@[k]));
                }
                assert forall|x: u64| bm.values().contains(x) implies levels@.to_set().contains(x) by {
                    let key = choose|key: u64| #[trigger] bm.contains_key(key) && bm[key] == x;
                    assert(bkeys@.to_set().contains(key));
                    let k = choose|k: int| 0 <= k < bkeys@.len() && bkeys@[k] == key;
                    assert(bm[bkeys@[k]] == x);
                    assert(levels@.contains(x));
                }
            }
            let s = bet_levels(bm);
            assert(strictly_increasing(s) && s.to_set() == bm.values());
            lemma_increasing_unique(levels@, s);
        }
        levels
    }

    /// The bettors whose bet reaches `b`, by increasing id.
    fn owners_of_level(&self, bkeys: &Vec<u64>, b: u64) -> (r: Vec<u64>)
        requires
            bkeys@ == key_seq(self.bet_map@),
            bkeys@.to_set() == self.bet_map@.dom(),
        ensures
            r@ == owners_at(self.bet_map@, b),
    {
        let ghost bm = self.bet_map@;
        let mut owners: Vec<u64> = Vec::new();
        let mut k: usize = 0;
        while k < bkeys.len()
            invariant
                bm == self.bet_map@,
                bkeys@.to_set() == bm.dom(),
                k <= bkeys@.len(),
                owners@ == bkeys@.take(k as int).filter(at_least(bm, b)),
            decreases bkeys@.len() - k,
        {
            proof {
                lemma_filter_take_step(bkeys@, at_least(bm, b), k as int);
            }
            let key = bkeys[k];
            assert(bkeys@.to_set().contains(key));
            let bet: u64 = match self.bet_map.get(&key) {
                Some(x) => *x,
                None => 0,
            };
            if bet >= b {
                owners.push(key);
            }
            k = k + 1;
        }
        assert(bkeys@.take(k as int) =~= bkeys@);
        owners
    }
}


/// Add the new pots to the pots as `merge_pots` does.
fn merge_new_pots(base: Vec<Pot>, news: &Vec<Pot>) -> (r: Result<Vec<Pot>, GameError>)
    ensures
        merge_pots(pot_views(base@), pot_views(news@)) is None ==> r == Err::<Vec<Pot>, GameError>(
            GameError::InternalAmountOverflow,
        ),
        merge_pots(pot_views(base@), pot_views(news@)) matches Some(m) ==> r matches Ok(v) && pot_views(v@) == m,
{
    let ghost start = pot_views(base@);
    let ghost nv = pot_views(news@);
    let mut pots = base;
    let mut k: usize = 0;
    while k < news.len()
        invariant
            nv == pot_views(news@),
            start == pot_views(base@),
            k <= news@.len(),
            merge_pots(start, nv.take(k as int)) == Some(pot_views(pots@)),
        decreases news@.len() - k,
    {
        let np = &news[k];
        proof {
            assert(nv.take(k + 1).drop_last() =~= nv.take(k as int));
            assert(nv.take(k + 1).last() == np@);
        }
        let len = pots.len();
        let ghost before = pots@;
        if len > 0 && np.owners.len() == pots[len - 1].owners.len() {
            if pots[len - 1].amount > u64::MAX - np.amount {
                proof {
                    assert(pot_views(pots@)[len - 1] == pots@[len - 1]@);
                    assert(merge_pots(start, nv.take(k + 1)) is None);
                    lemma_merge_none(start, nv, k + 1);
                }
                return Err(GameError::InternalAmountOverflow);
            }
            let mut last = match pots.pop() {
                Some(p) => p,
                None => {
                    return Err(GameError::InternalAmountOverflow);
                },
            };
            match last.merge(np) {
                Ok(()) => {},
                Err(e) => {
                    return Err(e);
                },
            }
            pots.push(last);
            proof {
                assert(pot_views(pots@) =~= pot_views(before).update(
                    len - 1,
                    PotView { amount: (before[len - 1].amount + np.amount) as u64, ..pot_views(before).last() },
                ));
            }
        } else {
            let q = Pot { owners: copy_ids(&np.owners), winners: copy_ids(&np.winners), amount: np.amount };
            pots.push(q);
            proof {
                assert(pot_views(pots@) =~= pot_views(before).push(np@));
            }
        }
        k = k + 1;
    }
    assert(nv.take(k as int) =~= nv);
    Ok(pots)
}

/// Why collecting the bets of `h` fails, if it does.
pub open spec fn collect_error(h: Holdem) -> Option<GameError> {
    let st = collect_run(h);
    let merged = merge_pots(retain_owners(pot_views(h.pots@), unfolded_ids(h.player_map@)), st.pots);
    if st.err is Some {
        st.err
    } else if merged is None {
        Some(GameError::InternalAmountOverflow)
    } else {
        None
    }
}

/// `h1` is `h0` with its bets collected into the pots.
pub open spec fn bets_collected(h0: Holdem, h1: Holdem) -> bool {
    let st = collect_run(h0);
    let merged = merge_pots(retain_owners(pot_views(h0.pots@), unfolded_ids(h0.player_map@)), st.pots);
    &&& merged is Some
    &&& pot_views(h1.pots@) == merged->0
    &&& h1.player_map@ == st.players
    &&& h1.total_bet_map@ == st.totals
    &&& h1.rake_collected == st.rake_collected
    &&& h1.bet_map@ == Map::<u64, u64>::empty()
    &&& h0.bet_map@.is_empty() ==> h1.display@ == h0.display@
    &&& !h0.bet_map@.is_empty() ==> {
        &&& h1.display@.len() == h0.display@.len() + 1
        &&& h1.display@.drop_last() == h0.display@
        &&& h1.display@.last() matches Display::CollectBets { old_pots, bet_map } && pot_views(old_pots@) == pot_views(
            h0.pots@,
        ) && bet_map@ == h0.bet_map@
    }
    &&& h1 == (Holdem {
        pots: h1.pots,
        player_map: h1.player_map,
        total_bet_map: h1.total_bet_map,
        rake_collected: h1.rake_collected,
        bet_map: h1.bet_map,
        display: h1.display,
        ..h0
    })
}

impl Holdem {
    /// Move the bets of the street into the pots.  Folded players stop
    /// owning pots.  Each distinct bet, from the lowest, is a level: every
    /// bettor reaching it adds what lies between it and the previous level,
    /// and this makes a pot owned by those of them who have not folded,
    /// less the rake; a new pot with as many owners as the last pot joins
    /// it.  A level only one bettor reached goes back to that bettor.  The
    /// display shows the bets collected.  On an error nothing changes.
    pub fn collect_bets(&mut self) -> (r: Result<(), GameError>)
        ensures
            ({
                let st = collect_run(*old(self));
                let merged = merge_pots(
                    retain_owners(pot_views(old(self).pots@), unfolded_ids(old(self).player_map@)),
                    st.pots,
                );
                &&& st.err matches Some(e) ==> r == Err::<(), GameError>(e)
                &&& (st.err is None && merged is None) ==> r == Err::<(), GameError>(
                    GameError::InternalAmountOverflow,
                )
                &&& (st.err is None && merged is Some) ==> r is Ok
                &&& r is Err ==> *final(self) == *old(self)
                &&& r is Ok ==> {
                    &&& pot_views(final(self).pots@) == merged->0
                    &&& final(self).player_map@ == st.players
                    &&& final(self).total_bet_map@ == st.totals
                    &&& final(self).rake_collected == st.rake_collected
                    &&& final(self).bet_map@ == Map::<u64, u64>::empty()
                    &&& old(self).bet_map@.is_empty() ==> final(self).display@ == old(self).display@
                    &&& !old(self).bet_map@.is_empty() ==> {
                        &&& final(self).display@.len() == old(self).display@.len() + 1
                        &&& final(self).display@.drop_last() == old(self).display@
                        &&& final(self).display@.last() matches Display::CollectBets { old_pots, bet_map }
                            && pot_views(old_pots@) == pot_views(old(self).pots@) && bet_map@
                            == old(self).bet_map@
                    }
                    &&& *final(self) == (Holdem {
                        pots: final(self).pots,
                        player_map: final(self).player_map,
                        total_bet_map: final(self).total_bet_map,
                        rake_collected: final(self).rake_collected,
                        bet_map: final(self).bet_map,
                        display: final(self).display,
                        ..*old(self)
                    })
                }
            }),
            collect_error(*old(self)) matches Some(e) ==> r == Err::<(), GameError>(e),
            collect_error(*old(self)) is None ==> r is Ok && bets_collected(*old(self), *final(self)),
    {
        let ghost h0 = *self;
        let ghost bm = self.bet_map@;
        let ghost pm = self.player_map@;
        let old_pots = copy_pots(&self.pots);
        let unfolded = self.unfolded_player_ids();
        let ghost u = unfolded_ids(pm);
        let kept = self.retained_pots(&unfolded);
        let levels = self.bet_levels_of();
        let bkeys = sorted_keys(&self.bet_map);
        let ghost st0 = Collect {
            acc: 0,
            pots: Seq::empty(),
            players: pm,
            totals: self.total_bet_map@,
            rake_collected: self.rake_collected,
            err: None,
        };
        let mut players = self.player_map.clone();
        let mut totals = self.total_bet_map.clone();
        let mut rc = self.rake_collected;
        let mut acc: u64 = 0;
        let mut new_pots: Vec<Pot> = Vec::new();
        let mut i: usize = 0;
        assert(levels@.take(0) =~= Seq::<u64>::empty());
        assert(pot_views(new_pots@) =~= Seq::<PotView>::empty());
        assert(collect_levels(h0, bm, u, st0, levels@.take(0)) == st0);
        while i < levels.len()
            invariant
                *self == h0,
                bm == h0.bet_map@,
                pm == h0.player_map@,
                u == unfolded_ids(pm),
                unfolded@.to_set() == u,
                st0.players == pm && st0.totals == h0.total_bet_map@ && st0.rake_collected == h0.rake_collected,
                st0.acc == 0 && st0.pots == Seq::<PotView>::empty() && st0.err is None,
                bkeys@ == key_seq(bm),
                bkeys@.to_set() == bm.dom(),
                strictly_increasing(levels@),
                levels@ == bet_levels(bm),
                i <= levels@.len(),
                forall|j: int| i <= j < levels@.len() ==> acc <= levels@[j],
                collect_levels(h0, bm, u, st0, levels@.take(i as int)) == (Collect {
                    acc,
                    pots: pot_views(new_pots@),
                    players: players@,
                    totals: totals@,
                    rake_collected: rc,
                    err: None,
                }),
            decreases levels@.len() - i,
        {
            let b = levels[i];
            let ghost prev = collect_levels(h0, bm, u, st0, levels@.take(i as int));
            proof {
                assert(levels@.take(i + 1).drop_last() =~= levels@.take(i as int));
                assert(levels@.take(i + 1).last() == b);
                assert(collect_levels(h0, bm, u, st0, levels@.take(i + 1)) == collect_level(h0, bm, u, prev, b));
            }
            let owners = self.owners_of_level(&bkeys, b);
            let actual = b - acc;
            let n: u64 = owners.len() as u64;
            let amount = match actual.checked_mul(n) {
                Some(a) => a,
                None => {
                    proof {
                        lemma_collect_err(h0, bm, u, st0, levels@, i + 1);
                    }
                    return Err(GameError::InternalAmountOverflow);
                },
            };
            if owners.len() == 1 {
                let o = owners[0];
                let p = match players.get(&o) {
                    Some(p) => *p,
                    None => {
                        proof {
                            lemma_collect_err(h0, bm, u, st0, levels@, i + 1);
                        }
                        return Err(GameError::InternalPlayerNotFound);
                    },
                };
                let t: u64 = match totals.get(&o) {
                    Some(t) => *t,
                    None => {
                        proof {
                            lemma_collect_err(h0, bm, u, st0, levels@, i + 1);
                        }
                        return Err(GameError::InternalMalformedTotalBet);
                    },
                };
                if amount > u64::MAX - p.chips || t < amount {
                    proof {
                        lemma_collect_err(h0, bm, u, st0, levels@, i + 1);
                    }
                    return Err(GameError::InternalAmountOverflow);
                }
                let mut q = p;
                q.chips = p.chips + amount;
                players.insert(o, q);
                totals.insert(o, t - amount);
                proof {
                    assert(players@ == prev.players.insert(o, Player { chips: (prev.players[o].chips + amount) as u64, ..prev.players[o] }));
                }
            } else {
                let due = match self.rake_for(rc, amount) {
                    Ok(d) => d,
                    Err(e) => {
                        proof {
                            lemma_collect_err(h0, bm, u, st0, levels@, i + 1);
                        }
                        return Err(e);
                    },
                };
                let kept_owners = retain_ids(&owners, &unfolded);
                let pot = Pot { owners: kept_owners, winners: Vec::new(), amount: amount - due };
                let ghost before = new_pots@;
                new_pots.push(pot);
                proof {
                    assert(pot_views(new_pots@) =~= pot_views(before).push(pot@));
                    assert(pot@.winners == Seq::<u64>::empty());
                }
                rc = rc + due;
                acc = b;
            }
            i = i + 1;
            proof {
                assert forall|j: int| i <= j < levels@.len() implies acc <= levels@[j] by {
                    assert(levels@[i - 1] < levels@[j]);
                }
            }
        }
        assert(levels@.take(i as int) =~= levels@);
        let merged = merge_new_pots(kept, &new_pots);
        let pots = match merged {
            Ok(v) => v,
            Err(e) => {
                return Err(e);
            },
        };
        let was_empty = self.bet_map.is_empty();
        self.pots = pots;
        self.player_map = players;
        self.total_bet_map = totals;
        self.rake_collected = rc;
        if !was_empty {
            let bets = self.bet_map.clone();
            self.display.push(Display::CollectBets { old_pots, bet_map: bets });
            assert(self.display@.drop_last() =~= h0.display@);
        }
        self.bet_map.clear();
        proof {
            assert(self.bet_map@ =~= Map::<u64, u64>::empty());
            assert(bets_collected(h0, *self));
        }
        Ok(())
    }
}


/// A player who may take the odd chips of split pots: one who won a prize
/// before and is still in the hand.
pub open spec fn remainder_candidate(h: Holdem, k: u64) -> bool {
    &&& h.player_map@.contains_key(k)
    &&& h.prize_map@.contains_key(h.player_map@[k].id)
    &&& (h.player_map@[k].status == PlayerStatus::Acted || h.player_map@[k].status == PlayerStatus::Allin
        || h.player_map@[k].status == PlayerStatus::Wait)
}

/// The candidate at key `k` comes first: the lowest seat, then the lowest key.
pub open spec fn remainder_first(h: Holdem, k: u64) -> bool {
    &&& remainder_candidate(h, k)
    &&& forall|k2: u64|
        #[trigger] remainder_candidate(h, k2) ==> h.player_map@[k].position < h.player_map@[k2].position || (
        h.player_map@[k].position == h.player_map@[k2].position && k <= k2)
}

/// The player with the odd chips, as `get_remainder_player` picks them.
pub open spec fn remainder_id(h: Holdem) -> Option<u64> {
    if exists|k: u64| remainder_candidate(h, k) {
        Some(h.player_map@[choose|k: u64| remainder_first(h, k)].id)
    } else if h.player_map@.dom().is_empty() {
        None
    } else {
        Some(choose|x: u64| h.player_map@.contains_key(x) && forall|k: u64| h.player_map@.contains_key(k) ==> x <= k)
    }
}

/// The first candidate is the player with the odd chips.
proof fn lemma_remainder_first(h: Holdem, k: u64)
    requires
        remainder_first(h, k),
    ensures
        remainder_id(h) == Some(h.player_map@[k].id),
{
    let c = choose|c: u64| remainder_first(h, c);
    assert(remainder_first(h, c));
    assert(remainder_candidate(h, c));
    assert(remainder_candidate(h, k));
    assert(c == k);
}

/// Without candidates, the lowest id takes the odd chips.
proof fn lemma_remainder_lowest(h: Holdem, x: u64)
    requires
        !(exists|k: u64| remainder_candidate(h, k)),
        h.player_map@.contains_key(x),
        forall|k: u64| h.player_map@.contains_key(k) ==> x <= k,
    ensures
        remainder_id(h) == Some(x),
{
    assert(!h.player_map@.dom().is_empty()) by {
        assert(h.player_map@.dom().contains(x));
    }
    let y = choose|y: u64| h.player_map@.contains_key(y) && forall|k: u64| h.player_map@.contains_key(k) ==> y <= k;
    assert(h.player_map@.contains_key(y) && forall|k: u64| h.player_map@.contains_key(k) ==> y <= k);
    assert(x <= y && y <= x);
}

impl Holdem {
    /// The player who gets the odd chips of split pots: among the players
    /// still in the hand who already hold a prize, the one in the lowest
    /// seat; when there is none, the player with the lowest id.
    fn get_remainder_player(&mut self) -> (r: Option<u64>)
        ensures
            *final(self) == *old(self),
            r == remainder_id(*old(self)),
    {
        let ghost h = *self;
        let ghost pm = self.player_map@;
        let ids = sorted_keys(&self.player_map);
        let mut best: Option<(u64, u8, u64)> = None;
        let mut i: usize = 0;
        while i < ids.len()
            invariant
                h == *self,
                pm == self.player_map@,
                ids@.to_set() == pm.dom(),
                strictly_increasing(ids@),
                i <= ids@.len(),
                best is None ==> forall|k: int| 0 <= k < i ==> !remainder_candidate(h, #[trigger] ids@[k]),
                best matches Some(b) ==> {
                    &&& remainder_candidate(h, b.0)
                    &&& b.1 == pm[b.0].position
                    &&& b.2 == pm[b.0].id
                    &&& exists|k: int| 0 <= k < i && ids@[k] == b.0
                    &&& forall|k: int|
                        0 <= k < i && remainder_candidate(h, #[trigger] ids@[k]) ==> b.1 < pm[ids@[k]].position || (
                        b.1 == pm[ids@[k]].position && b.0 <= ids@[k])
                },
            decreases ids@.len() - i,
        {
            let id = ids[i];
            assert(ids@.to_set().contains(id));
            let p = match self.player_map.get(&id) {
                Some(p) => *p,
                None => Player::default(),
            };
            let eligible = self.prize_map.contains_key(&p.id) && (p.status == PlayerStatus::Acted || p.status
                == PlayerStatus::Allin || p.status == PlayerStatus::Wait);
            if eligible {
                match best {
                    Some(b) => {
                        if p.position < b.1 {
                            best = Some((id, p.position, p.id));
                        }
                    },
                    None => {
                        best = Some((id, p.position, p.id));
                    },
                }
            }
            proof {
                match best {
                    Some(b) => {
                        assert forall|k: int|
                            0 <= k < i + 1 && remainder_candidate(h, #[trigger] ids@[k]) implies b.1 < pm[ids@[k]].position || (
                            b.1 == pm[ids@[k]].position && b.0 <= ids@[k]) by {
                            if k < i {
                                let k0 = choose|k0: int| 0 <= k0 < i + 1 && ids@[k0] == b.0;
                                if k0 == i {
                                    assert(ids@[k] < ids@[i as int]);
                                }
                            }
                        }
                    },
                    None => {},
                }
            }
            i = i + 1;
        }
        proof {
            assert forall|k: u64| pm.contains_key(k) implies exists|j: int| 0 <= j < ids@.len() && ids@[j] == k by {
                assert(ids@.to_set().contains(k));
            }
            match best {
                Some(b) => {
                    assert forall|k2: u64| #[trigger] remainder_candidate(h, k2) implies pm[b.0].position < pm[k2].position || (
                    pm[b.0].position == pm[k2].position && b.0 <= k2) by {
                        let j = choose|j: int| 0 <= j < ids@.len() && ids@[j] == k2;
                    }
                    lemma_remainder_first(h, b.0);
                },
                None => {
                    assert forall|k: u64| !remainder_candidate(h, k) by {
                        if remainder_candidate(h, k) {
                            let j = choose|j: int| 0 <= j < ids@.len() && ids@[j] == k;
                        }
                    }
                },
            }
        }
        match best {
            Some(b) => Some(b.2),
            None => {
                if ids.len() > 0 {
                    proof {
                        assert(ids@.to_set().contains(ids@[0]));
                        assert forall|k: u64| pm.contains_key(k) implies ids@[0] <= k by {
                            let j = choose|j: int| 0 <= j < ids@.len() && ids@[j] == k;
                            if j > 0 {
                                assert(ids@[0] < ids@[j]);
                            }
                        }
                        lemma_remainder_lowest(h, ids@[0]);
                    }
                    Some(ids[0])
                } else {
                    proof {
                        if !pm.dom().is_empty() {
                            let k = pm.dom().choose();
                            assert(pm.dom().contains(k));
                            assert(ids@.to_set().contains(k));
                        }
                    }
                    None
                }
            },
        }
    }
}


/// The views of the winner sets.
pub open spec fn set_views(sets: Seq<Vec<u64>>) -> Seq<Seq<u64>> {
    sets.map_values(|v: Vec<u64>| v@)
}

/// The first set, from the `i`-th on, with a player among the owners:
/// those of its players who own the pot; empty when none has one.
pub open spec fn first_winners(owners: Seq<u64>, sets: Seq<Seq<u64>>, i: int) -> Seq<u64>
    decreases sets.len() - i,
{
    if i < 0 || i >= sets.len() {
        Seq::empty()
    } else {
        let w = sets[i].filter(in_set(owners.to_set()));
        if w.len() > 0 {
            w
        } else {
            first_winners(owners, sets, i + 1)
        }
    }
}

/// A pot with its winners assigned from the ranked sets; it keeps its
/// winners when no set has an owner.
pub open spec fn awarded(p: PotView, sets: Seq<Seq<u64>>) -> PotView {
    let w = first_winners(p.owners, sets, 0);
    PotView { winners: if w.len() > 0 { w } else { p.winners }, ..p }
}

/// A player after receiving their prize, if any.
pub open spec fn with_prize(p: Player, pz: Map<u64, u64>) -> Player {
    if pz.contains_key(p.id) {
        Player { chips: (p.chips + pz[p.id]) as u64, ..p }
    } else {
        p
    }
}

/// Whether some player's chips would overflow with their prize.
pub open spec fn prize_overflows(pm: Map<u64, Player>, pz: Map<u64, u64>) -> bool {
    exists|k: u64| #[trigger] pm.contains_key(k) && pz.contains_key(pm[k].id) && pm[k].chips + pz[pm[k].id] > u64::MAX
}

impl Holdem {
    /// Assign each pot to the players of the first set, in the order of
    /// `winner_sets` (strongest hands first), that owns part of it.
    /// Returns the pots to award.  Every pot must end up with a winner.
    pub fn assign_winners(&mut self, winner_sets: Vec<Vec<u64>>) -> (r: Result<Vec<AwardPot>, GameError>)
        ensures
            ({
                let sv = set_views(winner_sets@);
                let ps = pot_views(old(self).pots@);
                &&& r is Err <==> exists|i: int| 0 <= i < ps.len() && (#[trigger] awarded(ps[i], sv)).winners.len() == 0
                &&& r is Err ==> r == Err::<Vec<AwardPot>, GameError>(GameError::PotWinnerMissing)
                &&& r is Err ==> exists|k: int|
                    0 <= k < ps.len() && (#[trigger] awarded(ps[k], sv)).winners.len() == 0 && (forall|j: int|
                        0 <= j < k ==> (#[trigger] awarded(ps[j], sv)).winners.len() > 0) && pot_views(final(self).pots@)
                        == ps.take(k).map_values(|p: PotView| awarded(p, sv)) + ps.skip(k) && *final(self) == (Holdem {
                        pots: final(self).pots,
                        ..*old(self)
                    })
                &&& r matches Ok(aw) ==> {
                    &&& pot_views(final(self).pots@) == ps.map_values(|p: PotView| awarded(p, sv))
                    &&& aw@.len() == ps.len()
                    &&& forall|i: int|
                        0 <= i < ps.len() ==> (#[trigger] aw@[i]).winners@ == awarded(ps[i], sv).winners
                            && aw@[i].amount == ps[i].amount
                    &&& *final(self) == (Holdem { pots: final(self).pots, ..*old(self) })
                }
            }),
    {
        let ghost sv = set_views(winner_sets@);
        let ghost ps = pot_views(self.pots@);
        let mut pots: Vec<Pot> = Vec::new();
        let mut awards: Vec<AwardPot> = Vec::new();
        let mut i: usize = 0;
        while i < self.pots.len()
            invariant
                sv == set_views(winner_sets@),
                ps == pot_views(self.pots@),
                *self == *old(self),
                i <= ps.len(),
                pot_views(pots@) == ps.take(i as int).map_values(|p: PotView| awarded(p, sv)),
                awards@.len() == i,
                forall|k: int| 0 <= k < i ==> (#[trigger] awards@[k]).winners@ == awarded(ps[k], sv).winners && awards@[k].amount == ps[k].amount,
                forall|k: int| 0 <= k < i ==> (#[trigger] awarded(ps[k], sv)).winners.len() > 0,
            decreases ps.len() - i,
        {
            let pot = &self.pots[i];
            let ghost pv = ps[i as int];
            assert(pv == pot@);
            let mut winners: Vec<u64> = copy_ids(&pot.winners);
            let mut j: usize = 0;
            while j < winner_sets.len()
                invariant_except_break
                    first_winners(pv.owners, sv, 0) == first_winners(pv.owners, sv, j as int),
                    winners@ == pv.winners,
                invariant
                    sv == set_views(winner_sets@),
                    pv == pot@,
                    j <= winner_sets@.len(),
                ensures
                    winners@ == awarded(pv, sv).winners,
                decreases winner_sets@.len() - j,
            {
                assert(sv[j as int] == winner_sets@[j as int]@);
                let found = retain_ids(&winner_sets[j], &pot.owners);
                if found.len() >= 1 {
                    winners = found;
                    break;
                }
                j = j + 1;
            }
            if winners.len() == 0 {
                let mut k: usize = i;
                while k < self.pots.len()
                    invariant
                        ps == pot_views(self.pots@),
                        i <= k <= ps.len(),
                        pot_views(pots@) == ps.take(i as int).map_values(|p: PotView| awarded(p, sv)) + ps.subrange(i as int, k as int),
                    decreases ps.len() - k,
                {
                    let p = &self.pots[k];
                    let ghost before = pots@;
                    pots.push(Pot { owners: copy_ids(&p.owners), winners: copy_ids(&p.winners), amount: p.amount });
                    proof {
                        assert(pot_views(pots@) =~= pot_views(before).push(ps[k as int]));
                        assert(ps.subrange(i as int, k + 1) =~= ps.subrange(i as int, k as int).push(ps[k as int]));
                    }
                    k = k + 1;
                }
                proof {
                    assert(ps.subrange(i as int, ps.len() as int) =~= ps.skip(i as int));
                    assert(awarded(ps[i as int], sv).winners.len() == 0);
                }
                self.pots = pots;
                proof {
                    let k = i as int;
                    assert(0 <= k < ps.len() && awarded(ps[k], sv).winners.len() == 0 && (forall|j: int|
                        0 <= j < k ==> (#[trigger] awarded(ps[j], sv)).winners.len() > 0) && pot_views(self.pots@)
                        == ps.take(k).map_values(|p: PotView| awarded(p, sv)) + ps.skip(k));
                }
                return Err(GameError::PotWinnerMissing);
            }
            let amount = pot.amount;
            let owners = copy_ids(&pot.owners);
            let award_winners = copy_ids(&winners);
            let ghost before = pots@;
            pots.push(Pot { owners, winners, amount });
            awards.push(AwardPot { winners: award_winners, amount });
            proof {
                assert(ps.take(i + 1) =~= ps.take(i as int).push(pv));
                assert(pot_views(pots@) =~= pot_views(before).push(awarded(pv, sv)));
                assert(ps.take(i + 1).map_values(|p: PotView| awarded(p, sv)) =~= ps.take(i as int).map_values(|p: PotView| awarded(p, sv)).push(awarded(pv, sv)));
            }
            i = i + 1;
        }
        proof {
            assert(ps.take(i as int) =~= ps);
        }
        self.pots = pots;
        Ok(awards)
    }

    /// Add each player's prize to their chips.
    pub fn apply_prize(&mut self) -> (r: Result<(), GameError>)
        ensures
            prize_overflows(old(self).player_map@, old(self).prize_map@) ==> r == Err::<(), GameError>(
                GameError::InternalAmountOverflow,
            ) && *final(self) == *old(self),
            !prize_overflows(old(self).player_map@, old(self).prize_map@) ==> {
                &&& r is Ok
                &&& final(self).player_map@ == Map::new(
                    |k: u64| old(self).player_map@.contains_key(k),
                    |k: u64| with_prize(old(self).player_map@[k], old(self).prize_map@),
                )
                &&& *final(self) == (Holdem { player_map: final(self).player_map, ..*old(self) })
            },
    {
        let ghost pm = self.player_map@;
        let ghost pz = self.prize_map@;
        let ids = sorted_keys(&self.player_map);
        let mut players = self.player_map.clone();
        let mut i: usize = 0;
        while i < ids.len()
            invariant
                pm == self.player_map@,
                pz == self.prize_map@,
                ids@.to_set() == pm.dom(),
                strictly_increasing(ids@),
                i <= ids@.len(),
                players@.dom() == pm.dom(),
                forall|k: int| 0 <= k < i ==> !(pz.contains_key(pm[#[trigger] ids@[k]].id) && pm[ids@[k]].chips + pz[pm[ids@[k]].id] > u64::MAX),
                forall|k: u64| #[trigger] players@.contains_key(k) ==> players@[k] == if ids@.take(i as int).contains(k) {
                    with_prize(pm[k], pz)
                } else {
                    pm[k]
                },
            decreases ids@.len() - i,
        {
            let id = ids[i];
            assert(ids@.to_set().contains(id));
            assert(!ids@.take(i as int).contains(id)) by {
                if ids@.take(i as int).contains(id) {
                    let t = ids@.take(i as int);
                    let k = choose|k: int| 0 <= k < t.len() && t[k] == id;
                    assert(ids@[k] < ids@[i as int]);
                }
            }
            let mut p = match self.player_map.get(&id) {
                Some(p) => *p,
                None => Player::default(),
            };
            match self.prize_map.get(&p.id) {
                Some(prize) => {
                    if *prize > u64::MAX - p.chips {
                        proof {
                            assert(pm.contains_key(id));
                        }
                        return Err(GameError::InternalAmountOverflow);
                    }
                    p.chips = p.chips + *prize;
                },
                None => {},
            }
            players.insert(id, p);
            proof {
                assert forall|x: u64| ids@.take(i + 1).contains(x) <==> (ids@.take(i as int).contains(x) || x == id) by {
                    let t1 = ids@.take(i + 1);
                    let t0 = ids@.take(i as int);
                    if t1.contains(x) {
                        let k = choose|k: int| 0 <= k < t1.len() && t1[k] == x;
                        if k < i {
                            assert(t0[k] == x);
                        }
                    }
                    if t0.contains(x) {
                        let k = choose|k: int| 0 <= k < t0.len() && t0[k] == x;
                        assert(t1[k] == x);
                    }
                    if x == id {
                        assert(t1[i as int] == x);
                    }
                }
            }
            i = i + 1;
        }
        proof {
            assert(ids@.take(i as int) =~= ids@);
            assert forall|k: u64| pm.contains_key(k) implies ids@.contains(k) by {
                assert(ids@.to_set().contains(k));
            }
            assert(!prize_overflows(pm, pz)) by {
                assert forall|k: u64| #[trigger] pm.contains_key(k) implies !(pz.contains_key(pm[k].id) && pm[k].chips + pz[pm[k].id] > u64::MAX) by {
                    let j = choose|j: int| 0 <= j < ids@.len() && ids@[j] == k;
                }
            }
            assert(players@ =~= Map::new(|k: u64| pm.contains_key(k), |k: u64| with_prize(pm[k], pz)));
        }
        self.player_map = players;
        Ok(())
    }
}


/// The odd chips of a pot: what is left after an even split among its winners.
pub open spec fn odd_of(p: PotView) -> int {
    (p.amount as int) % (p.winners.len() as int)
}

/// What a pot gives each of its winners: its amount less the odd chips,
/// split evenly.
pub open spec fn share(p: PotView) -> int {
    (p.amount - odd_of(p)) / (p.winners.len() as int)
}

/// What pot `p` gives `id` for its entries in `ws`.
pub open spec fn pot_prize(p: PotView, ws: Seq<u64>, id: u64) -> int
    decreases ws.len(),
{
    if ws.len() == 0 {
        0
    } else {
        pot_prize(p, ws.drop_last(), id) + if ws.last() == id {
            share(p)
        } else {
            0
        }
    }
}

/// What the pots give `id`.
pub open spec fn prize_sum(pots: Seq<PotView>, id: u64) -> int
    decreases pots.len(),
{
    if pots.len() == 0 {
        0
    } else {
        prize_sum(pots.drop_last(), id) + pot_prize(pots.last(), pots.last().winners, id)
    }
}

/// The odd chips of all the pots.
pub open spec fn odd_sum(pots: Seq<PotView>) -> int
    decreases pots.len(),
{
    if pots.len() == 0 {
        0
    } else {
        odd_sum(pots.drop_last()) + odd_of(pots.last())
    }
}

/// Whether `id` wins one of the pots.
pub open spec fn won(pots: Seq<PotView>, id: u64) -> bool {
    exists|i: int| 0 <= i < pots.len() && (#[trigger] pots[i]).winners.contains(id)
}

/// Whether every pot has a winner.
pub open spec fn all_have_winners(pots: Seq<PotView>) -> bool {
    forall|i: int| 0 <= i < pots.len() ==> (#[trigger] pots[i]).winners.len() > 0
}

/// Whether adding up the prizes or the odd chips leaves `u64`.
pub open spec fn prizes_overflow(pots: Seq<PotView>) -> bool {
    odd_sum(pots) > u64::MAX || exists|id: u64| prize_sum(pots, id) > u64::MAX
}

/// The prizes: each winner's share of the pots, and the odd chips to `rp`.
pub open spec fn prizes(pots: Seq<PotView>, rp: u64) -> Map<u64, u64> {
    Map::new(
        |id: u64| won(pots, id) || id == rp,
        |id: u64| (prize_sum(pots, id) + if id == rp { odd_sum(pots) } else { 0 }) as u64,
    )
}

proof fn lemma_share(p: PotView)
    requires
        p.winners.len() > 0,
    ensures
        0 <= odd_of(p) <= p.amount,
        share(p) >= 0,
{
    let a = p.amount as int;
    let c = p.winners.len() as int;
    vstd::arithmetic::div_mod::lemma_mod_pos_bound(a, c);
    if a < c {
        vstd::arithmetic::div_mod::lemma_small_mod(a as nat, c as nat);
    }
    vstd::arithmetic::div_mod::lemma_div_is_ordered(0, a - a % c, c);
    vstd::arithmetic::div_mod::lemma_div_of0(c);
}

proof fn lemma_pot_prize_prefix(p: PotView, ws: Seq<u64>, j: int, id: u64)
    requires
        0 <= j <= ws.len(),
        share(p) >= 0,
    ensures
        0 <= pot_prize(p, ws.take(j), id) <= pot_prize(p, ws, id),
    decreases ws.len() - j,
{
    if j < ws.len() {
        assert(ws.take(j + 1).drop_last() =~= ws.take(j));
        lemma_pot_prize_prefix(p, ws, j + 1, id);
        lemma_pot_prize_nonneg(p, ws.take(j), id);
    } else {
        assert(ws.take(j) =~= ws);
        lemma_pot_prize_nonneg(p, ws, id);
    }
}

proof fn lemma_pot_prize_nonneg(p: PotView, ws: Seq<u64>, id: u64)
    requires
        share(p) >= 0,
    ensures
        pot_prize(p, ws, id) >= 0,
    decreases ws.len(),
{
    if ws.len() > 0 {
        lemma_pot_prize_nonneg(p, ws.drop_last(), id);
    }
}

proof fn lemma_pot_prize_absent(p: PotView, ws: Seq<u64>, id: u64)
    requires
        !ws.contains(id),
    ensures
        pot_prize(p, ws, id) == 0,
    decreases ws.len(),
{
    if ws.len() > 0 {
        assert(!ws.drop_last().contains(id)) by {
            if ws.drop_last().contains(id) {
                let k = choose|k: int| 0 <= k < ws.drop_last().len() && ws.drop_last()[k] == id;
                assert(ws[k] == id);
            }
        }
        assert(ws.last() != id) by {
            assert(ws[ws.len() - 1] == ws.last());
        }
        lemma_pot_prize_absent(p, ws.drop_last(), id);
    }
}

proof fn lemma_prize_sum_absent(pots: Seq<PotView>, id: u64)
    requires
        !won(pots, id),
    ensures
        prize_sum(pots, id) == 0,
    decreases pots.len(),
{
    if pots.len() > 0 {
        let l = pots.len() - 1;
        assert(!pots[l].winners.contains(id));
        lemma_pot_prize_absent(pots.last(), pots.last().winners, id);
        assert(!won(pots.drop_last(), id)) by {
            if won(pots.drop_last(), id) {
                let i = choose|i: int| 0 <= i < pots.drop_last().len() && (#[trigger] pots.drop_last()[i]).winners.contains(id);
                assert(pots[i] == pots.drop_last()[i]);
            }
        }
        lemma_prize_sum_absent(pots.drop_last(), id);
    }
}

/// The prizes of a prefix of the pots, with part of the next pot, are at
/// most the prizes of all the pots; likewise the odd chips.
proof fn lemma_prize_sum_prefix(pots: Seq<PotView>, i: int, id: u64)
    requires
        0 <= i <= pots.len(),
        all_have_winners(pots),
    ensures
        0 <= prize_sum(pots.take(i), id) <= prize_sum(pots, id),
        0 <= odd_sum(pots.take(i)) <= odd_sum(pots),
        i < pots.len() ==> prize_sum(pots.take(i), id) + pot_prize(pots[i], pots[i].winners, id)
            <= prize_sum(pots, id),
        i < pots.len() ==> odd_sum(pots.take(i)) + odd_of(pots[i]) <= odd_sum(pots),
    decreases pots.len() - i,
{
    if i < pots.len() {
        assert(pots.take(i + 1).drop_last() =~= pots.take(i));
        assert(pots.take(i + 1).last() == pots[i]);
        lemma_share(pots[i]);
        lemma_pot_prize_nonneg(pots[i], pots[i].winners, id);
        lemma_prize_sum_prefix(pots, i + 1, id);
        assert(all_have_winners(pots.take(i))) by {
            assert forall|k: int| 0 <= k < pots.take(i).len() implies (#[trigger] pots.take(i)[k]).winners.len() > 0 by {
                assert(pots[k] == pots.take(i)[k]);
            }
        }
        lemma_sums_nonneg(pots.take(i), id);
    } else {
        assert(pots.take(i) =~= pots);
        lemma_sums_nonneg(pots, id);
    }
}

proof fn lemma_sums_nonneg(pots: Seq<PotView>, id: u64)
    requires
        all_have_winners(pots),
    ensures
        prize_sum(pots, id) >= 0,
        odd_sum(pots) >= 0,
    decreases pots.len(),
{
    if pots.len() > 0 {
        let l = pots.len() - 1;
        assert(pots[l].winners.len() > 0);
        lemma_share(pots.last());
        lemma_pot_prize_nonneg(pots.last(), pots.last().winners, id);
        assert(all_have_winners(pots.drop_last())) by {
            assert forall|k: int| 0 <= k < pots.drop_last().len() implies (#[trigger] pots.drop_last()[k]).winners.len() > 0 by {
                assert(pots[k] == pots.drop_last()[k]);
            }
        }
        lemma_sums_nonneg(pots.drop_last(), id);
    }
}

impl Holdem {
    /// Build the prize map: each pot is split evenly among its winners, and
    /// the odd chips of all pots go to the remainder player.
    pub fn calc_prize(&mut self) -> (r: Result<(), GameError>)
        requires
            all_have_winners(pot_views(old(self).pots@)),
        ensures
            ({
                let ps = pot_views(old(self).pots@);
                &&& prizes_overflow(ps) ==> r == Err::<(), GameError>(GameError::InternalAmountOverflow)
                &&& !prizes_overflow(ps) && remainder_id(*old(self)) is None ==> r == Err::<(), GameError>(
                    GameError::InternalPlayerNotFound,
                )
                &&& !prizes_overflow(ps) ==> (remainder_id(*old(self)) matches Some(rp) ==> {
                    &&& prize_sum(ps, rp) + odd_sum(ps) > u64::MAX ==> r == Err::<(), GameError>(
                        GameError::InternalAmountOverflow,
                    )
                    &&& prize_sum(ps, rp) + odd_sum(ps) <= u64::MAX ==> r is Ok && final(self).prize_map@
                        == prizes(ps, rp)
                })
                &&& r is Err ==> *final(self) == *old(self)
                &&& r is Ok ==> *final(self) == (Holdem { prize_map: final(self).prize_map, ..*old(self) })
            }),
    {
        let ghost ps = pot_views(self.pots@);
        let mut pz: BTreeMap<u64, u64> = BTreeMap::new();
        let mut odd: u64 = 0;
        let mut i: usize = 0;
        while i < self.pots.len()
            invariant
                ps == pot_views(self.pots@),
                all_have_winners(ps),
                i <= ps.len(),
                forall|id: u64| #[trigger] pz@.contains_key(id) <==> won(ps.take(i as int), id),
                forall|id: u64| #[trigger] pz@.contains_key(id) ==> pz@[id] == prize_sum(ps.take(i as int), id),
                odd == odd_sum(ps.take(i as int)),
            decreases ps.len() - i,
        {
            let pot = &self.pots[i];
            let ghost pv = ps[i as int];
            assert(pv == pot@);
            assert(pv.winners.len() > 0);
            proof {
                lemma_share(pv);
                assert(ps.take(i + 1).drop_last() =~= ps.take(i as int));
                assert(ps.take(i + 1).last() == pv);
            }
            let cnt: u64 = pot.winners.len() as u64;
            let remainder: u64 = pot.amount % cnt;
            if remainder > u64::MAX - odd {
                proof {
                    lemma_prize_sum_prefix(ps, i as int, 0);
                }
                return Err(GameError::InternalAmountOverflow);
            }
            odd = odd + remainder;
            let prize: u64 = (pot.amount - remainder) / cnt;
            assert(prize == share(pv));
            let mut j: usize = 0;
            while j < pot.winners.len()
                invariant
                    ps == pot_views(self.pots@),
                    all_have_winners(ps),
                    i < ps.len(),
                    pv == ps[i as int],
                    pv == pot@,
                    prize == share(pv),
                    share(pv) >= 0,
                    j <= pv.winners.len(),
                    forall|id: u64| #[trigger] pz@.contains_key(id) <==> (won(ps.take(i as int), id) || pv.winners.take(j as int).contains(id)),
                    forall|id: u64| #[trigger] pz@.contains_key(id) ==> pz@[id] == prize_sum(ps.take(i as int), id) + pot_prize(pv, pv.winners.take(j as int), id),
                decreases pv.winners.len() - j,
            {
                let w = pot.winners[j];
                proof {
                    assert(pv.winners.take(j + 1).drop_last() =~= pv.winners.take(j as int));
                    assert(pv.winners.take(j + 1).last() == w);
                }
                let current: u64 = match pz.get(&w) {
                    Some(v) => *v,
                    None => {
                        proof {
                            lemma_prize_sum_absent(ps.take(i as int), w);
                            lemma_pot_prize_absent(pv, pv.winners.take(j as int), w);
                        }
                        0
                    },
                };
                if prize > u64::MAX - current {
                    proof {
                        lemma_prize_sum_prefix(ps, i as int, w);
                        lemma_pot_prize_prefix(pv, pv.winners, j + 1, w);
                    }
                    return Err(GameError::InternalAmountOverflow);
                }
                pz.insert(w, current + prize);
                proof {
                    assert forall|id: u64| #[trigger] pz@.contains_key(id) <==> (won(ps.take(i as int), id) || pv.winners.take(j + 1).contains(id)) by {
                        let t1 = pv.winners.take(j + 1);
                        let t0 = pv.winners.take(j as int);
                        if t1.contains(id) && id != w {
                            let k = choose|k: int| 0 <= k < t1.len() && t1[k] == id;
                            assert(t0[k] == id);
                        }
                        if t0.contains(id) {
                            let k = choose|k: int| 0 <= k < t0.len() && t0[k] == id;
                            assert(t1[k] == id);
                        }
                        if id == w {
                            assert(t1[j as int] == id);
                        }
                    }
                }
                j = j + 1;
            }
            proof {
                assert(pv.winners.take(j as int) =~= pv.winners);
                assert forall|id: u64| won(ps.take(i + 1), id) <==> (won(ps.take(i as int), id) || pv.winners.contains(id)) by {
                    if won(ps.take(i + 1), id) {
                        let k = choose|k: int| 0 <= k < ps.take(i + 1).len() && (#[trigger] ps.take(i + 1)[k]).winners.contains(id);
                        if k < i {
                            assert(ps.take(i as int)[k] == ps.take(i + 1)[k]);
                        }
                    }
                    if won(ps.take(i as int), id) {
                        let k = choose|k: int| 0 <= k < ps.take(i as int).len() && (#[trigger] ps.take(i as int)[k]).winners.contains(id);
                        assert(ps.take(i as int)[k] == ps.take(i + 1)[k]);
                    }
                    if pv.winners.contains(id) {
                        assert(ps.take(i + 1)[i as int] == pv);
                    }
                }
            }
            i = i + 1;
        }
        proof {
            assert(ps.take(i as int) =~= ps);
            assert forall|id: u64| prize_sum(ps, id) <= u64::MAX by {
                if !won(ps, id) {
                    lemma_prize_sum_absent(ps, id);
                } else {
                    assert(pz@.contains_key(id));
                }
            }
            assert(!prizes_overflow(ps));
        }
        let rp = match self.get_remainder_player() {
            Some(x) => x,
            None => {
                return Err(GameError::InternalPlayerNotFound);
            },
        };
        let current: u64 = match pz.get(&rp) {
            Some(v) => *v,
            None => {
                proof {
                    lemma_prize_sum_absent(ps, rp);
                }
                0
            },
        };
        if odd > u64::MAX - current {
            return Err(GameError::InternalAmountOverflow);
        }
        pz.insert(rp, current + odd);
        proof {
            assert forall|id: u64| pz@.contains_key(id) && !won(ps, id) && id != rp implies false by {}
            assert(pz@ =~= prizes(ps, rp)) by {
                assert forall|id: u64| #[trigger] pz@.contains_key(id) implies pz@[id] == prizes(ps, rp)[id] by {
                    if id != rp {
                        assert(won(ps, id));
                    }
                }
            }
        }
        self.prize_map = pz;
        Ok(())
    }
}


/// A player's change of chips in a hand, as `i64`: the prize less the
/// total bet, each taken as `i64`; `None` when the arithmetic overflows.
pub open spec fn chips_delta(tb: Map<u64, u64>, pz: Map<u64, u64>, id: u64) -> Option<i64> {
    let a: int = if tb.contains_key(id) {
        0 - (tb[id] as i64)
    } else {
        0
    };
    if a < i64::MIN || a > i64::MAX {
        None
    } else {
        let b: int = if pz.contains_key(id) {
            a + (pz[id] as i64)
        } else {
            a
        };
        if b < i64::MIN || b > i64::MAX {
            None
        } else {
            Some(b as i64)
        }
    }
}

/// Whether some player's change of chips cannot be recorded.
pub open spec fn delta_fails(h: Holdem) -> bool {
    exists|k: u64|
        #[trigger] h.player_map@.contains_key(k) && (chips_delta(h.total_bet_map@, h.prize_map@, k) is None
            || chips_delta(h.total_bet_map@, h.prize_map@, k) == Some(i64::MIN))
}

/// The changes of chips of all players.
pub open spec fn deltas(h: Holdem) -> Map<u64, i64> {
    Map::new(
        |k: u64| h.player_map@.contains_key(k),
        |k: u64| chips_delta(h.total_bet_map@, h.prize_map@, k)->0,
    )
}

/// The players as the game result shows them.
pub open spec fn results_of(pm: Map<u64, Player>) -> Map<u64, PlayerResult> {
    Map::new(
        |k: u64| pm.contains_key(k),
        |k: u64| PlayerResult { id: k, chips: pm[k].chips, status: pm[k].status, position: pm[k].position },
    )
}

/// Prize holders with a positive prize.
pub open spec fn positive_prize(pz: Map<u64, u64>) -> spec_fn(u64) -> bool {
    |k: u64| pz[k] > 0
}

impl Holdem {
    /// The change of a player's chips in this hand.
    fn chips_change_of(&self, id: u64) -> (r: Option<i64>)
        ensures
            r == chips_delta(self.total_bet_map@, self.prize_map@, id),
    {
        let a: i64 = match self.total_bet_map.get(&id) {
            Some(t) => {
                let x: i64 = *t as i64;
                match 0i64.checked_sub(x) {
                    Some(v) => v,
                    None => {
                        return None;
                    },
                }
            },
            None => 0,
        };
        match self.prize_map.get(&id) {
            Some(p) => {
                let y: i64 = *p as i64;
                a.checked_add(y)
            },
            None => Some(a),
        }
    }

    /// Record the change of every player's chips in the hand history (the
    /// prize less the total bet), list the players with a positive prize as
    /// winners, and return the players as the game result shows them.
    pub fn update_player_chips(&mut self) -> (r: Result<BTreeMap<u64, PlayerResult>, GameError>)
        ensures
            delta_fails(*old(self)) ==> r == Err::<BTreeMap<u64, PlayerResult>, GameError>(
                GameError::InternalAmountOverflow,
            ) && *final(self) == *old(self),
            !delta_fails(*old(self)) ==> {
                &&& r matches Ok(m) && m@ == results_of(old(self).player_map@)
                &&& final(self).winners@ == key_seq(old(self).prize_map@).filter(positive_prize(old(self).prize_map@))
                &&& final(self).hand_history.chips_change@ == with_changes(
                    old(self).hand_history.chips_change@,
                    deltas(*old(self)),
                )
                &&& final(self).hand_history.valid == old(self).hand_history.valid
                &&& final(self).hand_history.board@ == old(self).hand_history.board@
                &&& final(self).hand_history.blinds@ == old(self).hand_history.blinds@
                &&& final(self).hand_history.preflop == old(self).hand_history.preflop
                &&& final(self).hand_history.flop == old(self).hand_history.flop
                &&& final(self).hand_history.turn == old(self).hand_history.turn
                &&& final(self).hand_history.river == old(self).hand_history.river
                &&& final(self).hand_history.showdowns@ == old(self).hand_history.showdowns@
                &&& *final(self) == (Holdem {
                    winners: final(self).winners,
                    hand_history: final(self).hand_history,
                    ..*old(self)
                })
            },
    {
        let ghost h = *self;
        let ghost pm = self.player_map@;
        let ids = sorted_keys(&self.player_map);
        let mut changes: BTreeMap<u64, i64> = BTreeMap::new();
        let mut results: BTreeMap<u64, PlayerResult> = BTreeMap::new();
        let mut i: usize = 0;
        while i < ids.len()
            invariant
                h == *self,
                pm == self.player_map@,
                ids@.to_set() == pm.dom(),
                i <= ids@.len(),
                forall|k: int| 0 <= k < i ==> {
                    let d = chips_delta(h.total_bet_map@, h.prize_map@, #[trigger] ids@[k]);
                    d is Some && d != Some(i64::MIN)
                },
                forall|k: u64| #[trigger] changes@.contains_key(k) <==> ids@.take(i as int).contains(k),
                forall|k: u64| #[trigger] changes@.contains_key(k) ==> Some(changes@[k]) == chips_delta(h.total_bet_map@, h.prize_map@, k),
                forall|k: u64| #[trigger] results@.contains_key(k) <==> ids@.take(i as int).contains(k),
                forall|k: u64| #[trigger] results@.contains_key(k) ==> results@[k] == results_of(pm)[k],
            decreases ids@.len() - i,
        {
            let id = ids[i];
            assert(ids@.to_set().contains(id));
            let change = match self.chips_change_of(id) {
                Some(c) => c,
                None => {
                    return Err(GameError::InternalAmountOverflow);
                },
            };
            if change == i64::MIN {
                return Err(GameError::InternalAmountOverflow);
            }
            let p = match self.player_map.get(&id) {
                Some(p) => *p,
                None => Player::default(),
            };
            changes.insert(id, change);
            results.insert(id, PlayerResult { id, chips: p.chips, status: p.status, position: p.position });
            proof {
                assert forall|x: u64| ids@.take(i + 1).contains(x) <==> (ids@.take(i as int).contains(x) || x == id) by {
                    let t1 = ids@.take(i + 1);
                    let t0 = ids@.take(i as int);
                    if t1.contains(x) {
                        let k = choose|k: int| 0 <= k < t1.len() && t1[k] == x;
                        if k < i {
                            assert(t0[k] == x);
                        }
                    }
                    if t0.contains(x) {
                        let k = choose|k: int| 0 <= k < t0.len() && t0[k] == x;
                        assert(t1[k] == x);
                    }
                    if x == id {
                        assert(t1[i as int] == x);
                    }
                }
            }
            i = i + 1;
        }
        proof {
            assert(ids@.take(i as int) =~= ids@);
            assert forall|k: u64| pm.contains_key(k) implies ids@.contains(k) by {
                assert(ids@.to_set().contains(k));
            }
            assert(!delta_fails(h)) by {
                assert forall|k: u64| #[trigger] pm.contains_key(k) implies !(chips_delta(h.total_bet_map@, h.prize_map@, k) is None
                    || chips_delta(h.total_bet_map@, h.prize_map@, k) == Some(i64::MIN)) by {
                    let j = choose|j: int| 0 <= j < ids@.len() && ids@[j] == k;
                }
            }
            assert(changes@ =~= deltas(h));
            assert(results@ =~= results_of(pm));
        }
        let pz_ids = sorted_keys(&self.prize_map);
        let ghost pz = self.prize_map@;
        let mut winners: Vec<u64> = Vec::new();
        let mut j: usize = 0;
        while j < pz_ids.len()
            invariant
                h == *self,
                pz == self.prize_map@,
                pz_ids@ == key_seq(pz),
                pz_ids@.to_set() == pz.dom(),
                j <= pz_ids@.len(),
                winners@ == pz_ids@.take(j as int).filter(positive_prize(pz)),
            decreases pz_ids@.len() - j,
        {
            proof {
                crate::holdem_evaluator::lemma_filter_take_step(pz_ids@, positive_prize(pz), j as int);
            }
            let id = pz_ids[j];
            assert(pz_ids@.to_set().contains(id));
            let prize: u64 = match self.prize_map.get(&id) {
                Some(v) => *v,
                None => 0,
            };
            if prize > 0 {
                winners.push(id);
            }
            j = j + 1;
        }
        assert(pz_ids@.take(j as int) =~= pz_ids@);
        self.winners = winners;
        self.hand_history.set_chips_change(&changes);
        Ok(results)
    }

    /// Clear the state of the hand for the next one, and make the players
    /// wait (those sitting out count one more timeout).
    pub fn reset_state(&mut self) -> (r: Result<(), GameError>)
        ensures
            timeout_overflows(old(self).player_map@) ==> r == Err::<(), GameError>(GameError::InternalAmountOverflow),
            !timeout_overflows(old(self).player_map@) ==> r is Ok,
            r is Ok ==> {
                &&& final(self).player_map@ == mapped(old(self).player_map@, reset_fn())
                &&& final(self).deck_random_id == 0 && final(self).min_raise == 0
                &&& final(self).stage == crate::essential::HoldemStage::Init
                &&& final(self).street == Street::Init && final(self).street_bet == 0
                &&& final(self).board@.len() == 0
                &&& final(self).hand_index_map@ == Map::<u64, Vec<usize>>::empty()
                &&& final(self).bet_map@ == Map::<u64, u64>::empty()
                &&& final(self).total_bet_map@ == Map::<u64, u64>::empty()
                &&& final(self).prize_map@ == Map::<u64, u64>::empty()
                &&& final(self).player_order@.len() == 0
                &&& final(self).pots@.len() == 0
                &&& final(self).acting_player is None
                &&& final(self).winners@.len() == 0
                &&& final(self).display@.len() == 0
                &&& final(self).hand_history.empty()
                &&& final(self).next_game_start == 0 && final(self).rake_collected == 0
                &&& final(self).hand_id == old(self).hand_id && final(self).max_deposit == old(self).max_deposit
                &&& final(self).sb == old(self).sb && final(self).bb == old(self).bb
                &&& final(self).ante == old(self).ante && final(self).btn == old(self).btn
                &&& final(self).rake == old(self).rake && final(self).rake_cap == old(self).rake_cap
                &&& final(self).mode == old(self).mode && final(self).table_size == old(self).table_size
            },
    {
        self.deck_random_id = 0;
        self.min_raise = 0;
        self.stage = crate::essential::HoldemStage::Init;
        self.street = Street::Init;
        self.street_bet = 0;
        self.board.clear();
        self.hand_index_map.clear();
        self.bet_map.clear();
        self.total_bet_map.clear();
        self.prize_map.clear();
        self.player_order.clear();
        self.pots.clear();
        self.acting_player = None;
        self.winners.clear();
        self.display.clear();
        self.hand_history = HandHistory::default();
        self.next_game_start = 0;
        self.rake_collected = 0;
        self.reset_player_map_status()
    }
}

} // verus!
