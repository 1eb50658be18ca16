//! A multi-table tournament of Hold'em.
//!
//! Players buy a ticket before the entry closes; when the tournament
//! starts, tables are launched and the players are spread over them.  The
//! tables report each hand; the tournament keeps the ranking, moves
//! players to balance the tables, closes tables, raises the blinds over
//! time, pays bounties for eliminated players, and when one player is
//! left, pays the prizes by the prize rules (shares of the prize pool).

use std::collections::BTreeMap;
use vstd::prelude::*;
use crate::effect::{only_actions_changed, Effect, EffectAction};
use crate::errors::GameError;
use crate::event::{Event, JoinedPlayer, PlayerDeposit};
use crate::keys::{index_key_seq, key_seq, sorted_index_keys, sorted_keys, strictly_increasing, strictly_increasing_ix};
use crate::mtt_base::{
    ChipsChange, HoldemBridgeEvent, MttTablePlayer, MttTableSitin, MttTableState, PlayerResult,
    PlayerResultStatus,
};

verus! {

broadcast use vstd::std_specs::btree::group_btree_axioms;

/// How long after the prizes the bonuses are given, in milliseconds.
pub const BONUS_DISTRIBUTION_DELAY: u64 = 120_000;

/// The stages of a tournament.
#[derive(Debug, Clone, Copy, PartialEq, Eq, Structural)]
pub enum MttStage {
    /// players buy in
    Init,
    /// the tournament is played
    Playing,
    /// the prizes are paid, the bonuses follow
    DistributingPrize,
    /// the tournament is over
    Completed,
}

/// Where a player of the tournament is.
#[derive(Debug, Clone, Copy, PartialEq, Eq, Structural)]
pub enum PlayerRankStatus {
    /// moving from one table to another, or waiting for a seat
    Pending,
    /// sitting at a table and playing
    Play,
    /// out of chips
    Out,
}

/// A player in the ranking of the tournament.
#[derive(Debug, Clone, Copy, PartialEq, Eq, Structural)]
pub struct PlayerRank {
    pub id: u64,
    pub chips: u64,
    pub status: PlayerRankStatus,
    pub position: u16,
    /// the part of the bounties the player takes home
    pub bounty_reward: u64,
    /// the part of the bounties that goes to whoever eliminates the player
    pub bounty_transfer: u64,
}

impl PlayerRank {
    pub fn new(id: u64, chips: u64, status: PlayerRankStatus, position: u16) -> (r: Self)
        ensures
            r == (PlayerRank { id, chips, status, position, bounty_reward: 0, bounty_transfer: 0 }),
    {
        PlayerRank { id, chips, status, position, bounty_reward: 0, bounty_transfer: 0 }
    }
}

/// A blind level, as multiples of the blind base.
#[derive(Debug, Clone, Copy, PartialEq, Eq, Structural)]
pub struct BlindRuleItem {
    pub sb_x: u32,
    pub bb_x: u32,
}

impl BlindRuleItem {
    pub fn new(sb_x: u32, bb_x: u32) -> (r: Self)
        ensures
            r == (BlindRuleItem { sb_x, bb_x }),
    {
        BlindRuleItem { sb_x, bb_x }
    }
}

/// The small blinds of the default levels, as multiples of the blind base.
pub open spec fn default_sbs() -> Seq<u32> {
    seq![
        5u32, 10, 15, 20, 30, 40, 60, 80, 100, 120, 160, 200, 240, 280, 360, 440, 520, 600, 750, 900,
        1050, 1200, 1500, 1800, 2100, 2400, 3000, 3600, 4200, 5000, 5800, 6600, 7200, 8000, 9000,
        10000, 11000, 12000, 14000, 16000, 18000, 20000, 24000, 28000, 32000, 36000, 40000, 44000,
        50000, 56000, 62000, 68000, 80000, 100000,
    ]
}

/// The default levels: each small blind with a big blind twice as large.
pub open spec fn default_levels() -> Seq<BlindRuleItem> {
    default_sbs().map_values(|sb: u32| BlindRuleItem { sb_x: sb, bb_x: (2 * sb) as u32 })
}

/// The default blind levels.
pub fn default_blind_rules() -> (r: Vec<BlindRuleItem>)
    ensures
        r@ == default_levels(),
{
    let sbs: Vec<u32> = vec![
        5, 10, 15, 20, 30, 40, 60, 80, 100, 120, 160, 200, 240, 280, 360, 440, 520, 600, 750, 900,
        1050, 1200, 1500, 1800, 2100, 2400, 3000, 3600, 4200, 5000, 5800, 6600, 7200, 8000, 9000,
        10000, 11000, 12000, 14000, 16000, 18000, 20000, 24000, 28000, 32000, 36000, 40000, 44000,
        50000, 56000, 62000, 68000, 80000, 100000,
    ];
    assert(sbs@ =~= default_sbs());
    let mut out: Vec<BlindRuleItem> = Vec::new();
    let mut i: usize = 0;
    while i < sbs.len()
        invariant
            sbs@ == default_sbs(),
            i <= sbs@.len(),
            out@ == default_sbs().take(i as int).map_values(
                |sb: u32| BlindRuleItem { sb_x: sb, bb_x: (2 * sb) as u32 },
            ),
        decreases sbs@.len() - i,
    {
        let sb = sbs[i];
        assert(sb <= 100000);
        out.push(BlindRuleItem::new(sb, 2 * sb));
        assert(out@ =~= default_sbs().take(i + 1).map_values(
            |sb: u32| BlindRuleItem { sb_x: sb, bb_x: (2 * sb) as u32 },
        ));
        i = i + 1;
    }
    assert(default_sbs().take(i as int) =~= default_sbs());
    out
}

/// The part of `amount` given by `portion`, per thousand, rounded down.
pub fn take_amount_by_portion(amount: u64, portion: u16) -> (r: u64)
    requires
        amount * portion <= u64::MAX,
    ensures
        r == amount * portion / 1000,
{
    amount * (portion as u64) / 1000
}

/// How the blinds rise: the level changes every `blind_interval`
/// milliseconds, and each level's blinds are its multiples of
/// `blind_base`.
#[derive(Debug, Clone, PartialEq, Eq)]
pub struct BlindInfo {
    pub blind_base: u64,
    pub blind_interval: u64,
    pub blind_rules: Vec<BlindRuleItem>,
}

impl Default for BlindInfo {
    fn default() -> (r: Self)
        ensures
            r.blind_base == 10,
            r.blind_interval == 60_000,
            r.blind_rules@ == default_levels(),
    {
        BlindInfo { blind_base: 10, blind_interval: 60_000, blind_rules: default_blind_rules() }
    }
}

impl BlindInfo {
    /// Use the default levels when none are given.
    pub fn with_default_blind_rules(&mut self)
        ensures
            final(self).blind_base == old(self).blind_base,
            final(self).blind_interval == old(self).blind_interval,
            final(self).blind_rules@ == if old(self).blind_rules@.len() == 0 {
                default_levels()
            } else {
                old(self).blind_rules@
            },
    {
        if self.blind_rules.len() == 0 {
            self.blind_rules = default_blind_rules();
        }
    }
}

/// The data of a tournament's account.
#[derive(Debug, Clone)]
pub struct MttAccountData {
    pub start_time: u64,
    pub entry_close_time: u64,
    pub ticket: u64,
    pub table_size: u8,
    pub start_chips: u64,
    pub blind_info: BlindInfo,
    /// the shares of the prize pool by place, in percent
    pub prize_rules: Vec<u8>,
    pub min_players: u16,
    /// the rake, per thousand
    pub rake: u16,
    /// the bounty, per thousand
    pub bounty: u16,
    /// an optional theme identifier
    pub theme: Option<String>,
    pub subgame_bundle: String,
}

/// A player who won a prize.
#[derive(Debug, Clone, Copy, PartialEq, Eq, Structural)]
pub struct MttWinner {
    pub player_id: u64,
    pub prize: u64,
}

/// A multi-table tournament.
#[derive(Debug)]
pub struct Mtt {
    pub start_time: u64,
    pub entry_close_time: u64,
    /// whether every player left is paid a prize
    pub in_the_money: bool,
    /// the number of players not out
    pub alives: usize,
    pub stage: MttStage,
    /// the table of each seated player
    pub table_assigns: BTreeMap<u64, usize>,
    /// the table each moving player is sent to
    pub table_assigns_pending: BTreeMap<u64, usize>,
    /// the players, by decreasing chips
    pub ranks: Vec<PlayerRank>,
    pub tables: BTreeMap<usize, MttTableState>,
    pub table_size: u8,
    /// the time played, for the blind levels
    pub time_elapsed: u64,
    /// the time of the last event while playing
    pub timestamp: u64,
    pub start_chips: u64,
    pub blind_info: BlindInfo,
    pub prize_rules: Vec<u8>,
    pub total_prize: u64,
    pub total_rake: u64,
    pub total_bounty: u64,
    pub ticket: u64,
    pub theme: Option<String>,
    pub subgame_bundle: String,
    pub winners: Vec<MttWinner>,
    pub launched_table_ids: Vec<usize>,
    /// the balances of the game; 0 stands for what is not distributed yet
    pub player_balances: BTreeMap<u64, u64>,
    /// the fewest players the tournament is played with
    pub min_players: u16,
    pub rake: u16,
    pub bounty: u16,
}

/// The players not out.
pub open spec fn alive_pred() -> spec_fn(PlayerRank) -> bool {
    |r: PlayerRank| r.status != PlayerRankStatus::Out
}

/// Where a rank with `chips` goes among ranks sorted by decreasing chips,
/// looking from the `j`-th on: before the first with fewer chips.
pub open spec fn chips_pos(s: Seq<PlayerRank>, chips: u64, j: int) -> int
    decreases s.len() - j,
{
    if j < 0 || j >= s.len() {
        s.len() as int
    } else if s[j].chips < chips {
        j
    } else {
        chips_pos(s, chips, j + 1)
    }
}

/// The ranks by decreasing chips; ranks with equal chips keep their order.
pub open spec fn sort_by_chips(rs: Seq<PlayerRank>) -> Seq<PlayerRank>
    decreases rs.len(),
{
    if rs.len() == 0 {
        Seq::empty()
    } else {
        let s = sort_by_chips(rs.drop_last());
        s.insert(chips_pos(s, rs.last().chips, 0), rs.last())
    }
}

/// The blind level after `elapsed` milliseconds: the last one once they
/// run out; none without levels.
pub open spec fn blind_level(info: BlindInfo, elapsed: u64) -> Option<BlindRuleItem> {
    let level = elapsed / info.blind_interval;
    if level < info.blind_rules@.len() {
        Some(info.blind_rules@[level as int])
    } else if info.blind_rules@.len() > 0 {
        Some(info.blind_rules@.last())
    } else {
        None
    }
}

/// The blinds of the level after `elapsed` milliseconds, when they fit
/// in a `u64`.
pub open spec fn level_blinds(info: BlindInfo, elapsed: u64) -> Option<(u64, u64)> {
    match blind_level(info, elapsed) {
        None => None,
        Some(rule) => if rule.sb_x * info.blind_base > u64::MAX || rule.bb_x * info.blind_base > u64::MAX {
            None
        } else {
            Some(((rule.sb_x * info.blind_base) as u64, (rule.bb_x * info.blind_base) as u64))
        },
    }
}

/// The sum of the first `n` shares.
pub open spec fn shares_sum(rules: Seq<u8>, n: int) -> nat
    decreases n,
{
    if n <= 0 || rules.len() == 0 {
        0
    } else if n > rules.len() {
        shares_sum(rules, rules.len() as int)
    } else {
        (shares_sum(rules, n - 1) + rules[n - 1]) as nat
    }
}

/// Why a tournament's data is refused, if it is: the entry closes before
/// the start, the shares do not sum to 100, rake and bounty exceed the
/// ticket, or the starting chips are fewer than 50 big blinds of the first
/// level.
pub open spec fn data_error(d: MttAccountData, rules: Seq<BlindRuleItem>) -> Option<GameError> {
    if d.entry_close_time < d.start_time {
        Some(GameError::InvalidEntryCloseTime)
    } else if shares_sum(d.prize_rules@, d.prize_rules@.len() as int) != 100 {
        Some(GameError::InvalidPrizeRules)
    } else if d.rake + d.bounty > 1000 {
        Some(GameError::InvalidRakeAndBounty)
    } else if rules.len() > 0 && d.start_chips < 50 * (rules[0].bb_x * d.blind_info.blind_base) {
        Some(GameError::StartChipsTooLow)
    } else {
        None
    }
}

/// Whether the first `n` shares sum to 100, computed without overflow.
fn shares_are_whole(rules: &Vec<u8>) -> (r: bool)
    ensures
        r == (shares_sum(rules@, rules@.len() as int) == 100),
{
    let mut sum: u64 = 0;
    let mut i: usize = 0;
    while i < rules.len()
        invariant
            i <= rules@.len(),
            sum == shares_sum(rules@, i as int),
            sum <= 100,
        decreases rules@.len() - i,
    {
        sum = sum + rules[i] as u64;
        if sum > 100 {
            proof {
                lemma_shares_grow(rules@, i + 1, rules@.len() as int);
            }
            return false;
        }
        i = i + 1;
    }
    sum == 100
}

pub proof fn lemma_shares_grow(rules: Seq<u8>, m: int, n: int)
    requires
        0 <= m <= n <= rules.len(),
    ensures
        shares_sum(rules, m) <= shares_sum(rules, n),
    decreases n - m,
{
    if m < n {
        lemma_shares_grow(rules, m, n - 1);
    }
}

impl Mtt {
    /// A tournament from its account data, with the default blind levels
    /// when none are given; refused when the data is inconsistent.
    pub fn init_state(data: MttAccountData) -> (r: Result<Mtt, GameError>)
        ensures
            ({
                let rules = if data.blind_info.blind_rules@.len() == 0 {
                    default_levels()
                } else {
                    data.blind_info.blind_rules@
                };
                match data_error(data, rules) {
                    Some(e) => r == Err::<Mtt, GameError>(e),
                    None => r matches Ok(m) && {
                        &&& m.start_time == data.start_time && m.entry_close_time == data.entry_close_time
                        &&& m.table_size == data.table_size && m.start_chips == data.start_chips
                        &&& m.blind_info.blind_base == data.blind_info.blind_base
                        &&& m.blind_info.blind_interval == data.blind_info.blind_interval
                        &&& m.blind_info.blind_rules@ == rules
                        &&& m.prize_rules@ == data.prize_rules@ && m.ticket == data.ticket
                        &&& m.min_players == data.min_players && m.rake == data.rake && m.bounty == data.bounty
                        &&& m.theme == data.theme && m.subgame_bundle@ == data.subgame_bundle@
                        &&& !m.in_the_money && m.alives == 0 && m.stage == MttStage::Init
                        &&& m.table_assigns@.is_empty() && m.table_assigns_pending@.is_empty()
                        &&& m.ranks@.len() == 0 && m.tables@.is_empty()
                        &&& m.time_elapsed == 0 && m.timestamp == 0
                        &&& m.total_prize == 0 && m.total_rake == 0 && m.total_bounty == 0
                        &&& m.winners@.len() == 0 && m.launched_table_ids@.len() == 0
                        &&& m.player_balances@.is_empty()
                    },
                }
            }),
    {
        let mut blind_info = data.blind_info;
        blind_info.with_default_blind_rules();
        if data.entry_close_time < data.start_time {
            return Err(GameError::InvalidEntryCloseTime);
        }
        if !shares_are_whole(&data.prize_rules) {
            return Err(GameError::InvalidPrizeRules);
        }
        if data.rake as u32 + data.bounty as u32 > 1000 {
            return Err(GameError::InvalidRakeAndBounty);
        }
        if blind_info.blind_rules.len() > 0 {
            let bb_x = blind_info.blind_rules[0].bb_x;
            let base = blind_info.blind_base;
            assert((bb_x as u128) * (base as u128) <= 0xffff_ffff_ffff_ffff_ffff_ffff_u128) by (nonlinear_arith)
                requires
                    bb_x <= 0xffff_ffff_u32,
                    base <= 0xffff_ffff_ffff_ffff_u64,
            ;
            if (data.start_chips as u128) < 50 * ((bb_x as u128) * (base as u128)) {
                return Err(GameError::StartChipsTooLow);
            }
        }
        Ok(Mtt {
            start_time: data.start_time,
            entry_close_time: data.entry_close_time,
            in_the_money: false,
            alives: 0,
            stage: MttStage::Init,
            table_assigns: BTreeMap::new(),
            table_assigns_pending: BTreeMap::new(),
            ranks: Vec::new(),
            tables: BTreeMap::new(),
            table_size: data.table_size,
            time_elapsed: 0,
            timestamp: 0,
            start_chips: data.start_chips,
            blind_info,
            prize_rules: data.prize_rules,
            total_prize: 0,
            total_rake: 0,
            total_bounty: 0,
            ticket: data.ticket,
            theme: data.theme,
            subgame_bundle: data.subgame_bundle,
            winners: Vec::new(),
            launched_table_ids: Vec::new(),
            player_balances: BTreeMap::new(),
            min_players: data.min_players,
            rake: data.rake,
            bounty: data.bounty,
        })
    }

    /// Whether one player only is left: the winner.
    pub fn has_winner(&self) -> (r: bool)
        ensures
            r == (self.ranks@.filter(alive_pred()).len() == 1),
    {
        let n = self.count_alive();
        n == 1
    }

    fn count_alive(&self) -> (r: usize)
        ensures
            r == self.ranks@.filter(alive_pred()).len(),
    {
        let mut n: usize = 0;
        let mut i: usize = 0;
        while i < self.ranks.len()
            invariant
                i <= self.ranks@.len(),
                n == self.ranks@.take(i as int).filter(alive_pred()).len(),
                n <= i,
            decreases self.ranks@.len() - i,
        {
            proof {
                crate::holdem_evaluator::lemma_filter_take_step(self.ranks@, alive_pred(), i as int);
            }
            if self.ranks[i].status != PlayerRankStatus::Out {
                n = n + 1;
            }
            i = i + 1;
        }
        assert(self.ranks@.take(i as int) =~= self.ranks@);
        n
    }

    /// Count the players not out.
    pub fn update_alives(&mut self)
        ensures
            final(self).alives == old(self).ranks@.filter(alive_pred()).len(),
            *final(self) == (Mtt { alives: final(self).alives, ..*old(self) }),
    {
        self.alives = self.count_alive();
    }

    /// Sort the ranking by decreasing chips; players with equal chips keep
    /// their order.
    pub fn sort_ranks(&mut self)
        ensures
            final(self).ranks@ == sort_by_chips(old(self).ranks@),
            *final(self) == (Mtt { ranks: final(self).ranks, ..*old(self) }),
    {
        let mut out: Vec<PlayerRank> = Vec::new();
        let mut i: usize = 0;
        while i < self.ranks.len()
            invariant
                i <= self.ranks@.len(),
                out@ == sort_by_chips(self.ranks@.take(i as int)),
            decreases self.ranks@.len() - i,
        {
            let r = self.ranks[i];
            let ghost s = out@;
            let mut j: usize = 0;
            while j < out.len() && out[j].chips >= r.chips
                invariant
                    out@ == s,
                    j <= s.len(),
                    chips_pos(s, r.chips, 0) == chips_pos(s, r.chips, j as int),
                decreases s.len() - j,
            {
                j = j + 1;
            }
            out.insert(j, r);
            assert(self.ranks@.take(i + 1).drop_last() =~= self.ranks@.take(i as int));
            i = i + 1;
        }
        assert(self.ranks@.take(i as int) =~= self.ranks@);
        self.ranks = out;
    }

    /// The blinds of the current level: small and big.
    pub fn calc_blinds(&self) -> (r: Result<(u64, u64), GameError>)
        requires
            self.blind_info.blind_interval > 0,
        ensures
            r is Ok <==> level_blinds(self.blind_info, self.time_elapsed) is Some,
            r matches Ok(b) ==> level_blinds(self.blind_info, self.time_elapsed) == Some(b),
            match blind_level(self.blind_info, self.time_elapsed) {
                None => r == Err::<(u64, u64), GameError>(GameError::EmptyBlindRules),
                Some(rule) => if rule.sb_x * self.blind_info.blind_base > u64::MAX || rule.bb_x
                    * self.blind_info.blind_base > u64::MAX {
                    r == Err::<(u64, u64), GameError>(GameError::InternalAmountOverflow)
                } else {
                    r == Ok::<(u64, u64), GameError>(
                        (
                            (rule.sb_x * self.blind_info.blind_base) as u64,
                            (rule.bb_x * self.blind_info.blind_base) as u64,
                        ),
                    )
                },
            },
    {
        let level = self.time_elapsed / self.blind_info.blind_interval;
        let n = self.blind_info.blind_rules.len();
        let rule = if level < n as u64 {
            self.blind_info.blind_rules[level as usize]
        } else if n > 0 {
            self.blind_info.blind_rules[n - 1]
        } else {
            return Err(GameError::EmptyBlindRules);
        };
        let base = self.blind_info.blind_base;
        assert((rule.sb_x as u128) * (base as u128) <= 0xffff_ffff_ffff_ffff_ffff_ffff_u128) by (nonlinear_arith)
            requires
                rule.sb_x <= 0xffff_ffff_u32,
                base <= 0xffff_ffff_ffff_ffff_u64,
        ;
        assert((rule.bb_x as u128) * (base as u128) <= 0xffff_ffff_ffff_ffff_ffff_ffff_u128) by (nonlinear_arith)
            requires
                rule.bb_x <= 0xffff_ffff_u32,
                base <= 0xffff_ffff_ffff_ffff_u64,
        ;
        let sb = (rule.sb_x as u128) * (base as u128);
        let bb = (rule.bb_x as u128) * (base as u128);
        if sb > u64::MAX as u128 || bb > u64::MAX as u128 {
            return Err(GameError::InternalAmountOverflow);
        }
        Ok((sb as u64, bb as u64))
    }

    /// Record the undistributed balance: the prize pool, the rake and the
    /// bounties.
    pub fn update_player_balances(&mut self)
        requires
            old(self).total_prize + old(self).total_rake + old(self).total_bounty <= u64::MAX,
        ensures
            final(self).player_balances@ == old(self).player_balances@.insert(
                0,
                (old(self).total_prize + old(self).total_rake + old(self).total_bounty) as u64,
            ),
            *final(self) == (Mtt { player_balances: final(self).player_balances, ..*old(self) }),
    {
        let amount = self.total_prize + self.total_rake + self.total_bounty;
        self.player_balances.insert(0, amount);
    }

    /// The rank of a player, if any.
    pub fn get_rank(&self, id: u64) -> (r: Option<&PlayerRank>)
        ensures
            r matches Some(p) ==> exists|i: int|
                0 <= i < self.ranks@.len() && self.ranks@[i] == *p && p.id == id && forall|j: int|
                    0 <= j < i ==> self.ranks@[j].id != id,
            r is None ==> forall|j: int| 0 <= j < self.ranks@.len() ==> self.ranks@[j].id != id,
    {
        match self.rank_index(id) {
            Some(i) => Some(&self.ranks[i]),
            None => None,
        }
    }

    /// The index of a player's rank, if any: the first with the id.
    fn rank_index(&self, id: u64) -> (r: Option<usize>)
        ensures
            r matches Some(i) ==> i < self.ranks@.len() && self.ranks@[i as int].id == id && forall|j: int|
                0 <= j < i ==> self.ranks@[j].id != id,
            r is None ==> forall|j: int| 0 <= j < self.ranks@.len() ==> self.ranks@[j].id != id,
    {
        let mut i: usize = 0;
        while i < self.ranks.len()
            invariant
                i <= self.ranks@.len(),
                forall|j: int| 0 <= j < i ==> self.ranks@[j].id != id,
            decreases self.ranks@.len() - i,
        {
            if self.ranks[i].id == id {
                return Some(i);
            }
            i = i + 1;
        }
        None
    }

    /// Add a player to the ranking, waiting for a seat and without chips.
    fn add_player_rank(&mut self, p: JoinedPlayer)
        ensures
            final(self).ranks@ == old(self).ranks@.push(
                PlayerRank {
                    id: p.id,
                    chips: 0,
                    status: PlayerRankStatus::Pending,
                    position: p.position as u16,
                    bounty_reward: 0,
                    bounty_transfer: 0,
                },
            ),
            *final(self) == (Mtt { ranks: final(self).ranks, ..*old(self) }),
    {
        self.ranks.push(PlayerRank::new(p.id, 0, PlayerRankStatus::Pending, p.position as u16));
    }

    /// Every player left is paid once no more players are left than prizes.
    fn maybe_set_in_the_money(&mut self)
        ensures
            *final(self) == (Mtt {
                in_the_money: old(self).in_the_money || old(self).alives <= old(self).prize_rules@.len(),
                ..*old(self)
            }),
    {
        if self.alives <= self.prize_rules.len() {
            self.in_the_money = true;
        }
    }

    /// Close the entry once its time has passed.
    fn maybe_set_entry_close(&self, effect: &mut Effect)
        ensures
            only_actions_changed(*old(effect), *final(effect)),
            final(effect).actions@ == old(effect).actions@ + if old(effect).timestamp > self.entry_close_time {
                seq![EffectAction::CloseEntry]
            } else {
                Seq::empty()
            },
    {
        let ghost a0 = effect.actions@;
        if effect.timestamp() > self.entry_close_time {
            effect.push(EffectAction::CloseEntry);
        }
        assert(effect.actions@ =~= a0 + if old(effect).timestamp > self.entry_close_time {
            seq![EffectAction::CloseEntry]
        } else {
            Seq::empty()
        });
    }

    /// Launch a table.
    fn launch_table(&self, effect: &mut Effect, table: MttTableState)
        ensures
            only_actions_changed(*old(effect), *final(effect)),
            final(effect).actions@ == old(effect).actions@.push(EffectAction::LaunchSubGame { table }),
    {
        effect.push(EffectAction::LaunchSubGame { table });
    }

    /// Give the first eight players their bonuses, and end the tournament.
    fn distribute_awards(&mut self, effect: &mut Effect)
        ensures
            only_actions_changed(*old(effect), *final(effect)),
            final(effect).actions@ == old(effect).actions@ + awards(old(self).ranks@),
            *final(self) == (Mtt { stage: MttStage::Completed, ..*old(self) }),
    {
        let mut i: usize = 0;
        let n: usize = if self.ranks.len() < 8 {
            self.ranks.len()
        } else {
            8
        };
        while i < n
            invariant
                n == if self.ranks@.len() < 8 { self.ranks@.len() } else { 8 },
                i <= n,
                only_actions_changed(*old(effect), *effect),
                effect.actions@ == old(effect).actions@ + awards(self.ranks@.take(i as int)),
                *self == *old(self),
            decreases n - i,
        {
            effect.push(EffectAction::Award { player_id: self.ranks[i].id, rank: i + 1 });
            assert(self.ranks@.take(i + 1).take(i as int) =~= self.ranks@.take(i as int));
            i = i + 1;
        }
        proof {
            if self.ranks@.len() < 8 {
                assert(self.ranks@.take(i as int) =~= self.ranks@);
            } else {
                assert(awards(self.ranks@) =~= awards(self.ranks@.take(8)));
            }
        }
        self.stage = MttStage::Completed;
    }

    /// The balances of the game, by increasing player id.
    pub fn balances(&self) -> (r: Vec<(u64, u64)>)
        ensures
            r@.len() == key_seq(self.player_balances@).len(),
            forall|j: int| 0 <= j < r@.len() ==> {
                let id = key_seq(self.player_balances@)[j];
                #[trigger] r@[j] == (id, self.player_balances@[id])
            },
    {
        let ids = sorted_keys(&self.player_balances);
        let mut out: Vec<(u64, u64)> = Vec::new();
        let mut i: usize = 0;
        while i < ids.len()
            invariant
                ids@ == key_seq(self.player_balances@),
                ids@.to_set() == self.player_balances@.dom(),
                i <= ids@.len(),
                out@.len() == i,
                forall|j: int| 0 <= j < i ==> #[trigger] out@[j] == (ids@[j], self.player_balances@[ids@[j]]),
            decreases ids@.len() - i,
        {
            let id = ids[i];
            assert(ids@.to_set().contains(id));
            let b = match self.player_balances.get(&id) {
                Some(b) => *b,
                None => 0,
            };
            out.push((id, b));
            i = i + 1;
        }
        out
    }
}

/// The players sent to table `tid`.
pub open spec fn pending_at(pending: Map<u64, usize>, tid: usize) -> spec_fn(u64) -> bool {
    |k: u64| pending[k] == tid
}

/// The number of players sent to table `tid`.
pub open spec fn pending_count(pending: Map<u64, usize>, tid: usize) -> int {
    key_seq(pending).filter(pending_at(pending, tid)).len() as int
}

/// The number of players seated at table `tid`.
pub open spec fn seated_count(tables: Map<usize, MttTableState>, tid: usize) -> int {
    if tables.contains_key(tid) {
        tables[tid].players@.len() as int
    } else {
        0
    }
}

/// The players of table `tid`: seated there or sent there, at most
/// `usize::MAX`.
pub open spec fn table_count(m: Mtt, tid: usize) -> int {
    count_in(m.tables@, m.table_assigns_pending@, tid)
}

/// The players of table `tid` among `tables`, seated there or sent there
/// by `pending`, at most `usize::MAX`.
pub open spec fn count_in(tables: Map<usize, MttTableState>, pending: Map<u64, usize>, tid: usize) -> int {
    let n = seated_count(tables, tid) + pending_count(pending, tid);
    if n > usize::MAX {
        usize::MAX as int
    } else {
        n
    }
}

/// `l` is the table with the fewest players: the first by id among
/// those with the fewest, unless none has fewer than the seated players
/// of table `prefer`, which is then the one.
pub open spec fn least_ok(m: Mtt, prefer: usize, l: usize) -> bool {
    let p = m.tables@[prefer].players@.len() as int;
    &&& m.tables@.contains_key(l)
    &&& (l == prefer && forall|u: usize| #[trigger] m.tables@.contains_key(u) ==> p <= table_count(m, u))
        || (table_count(m, l) < p
            && (forall|u: usize| #[trigger] m.tables@.contains_key(u) ==> table_count(m, l) <= table_count(m, u))
            && (forall|u: usize| #[trigger] m.tables@.contains_key(u) && u < l ==> table_count(m, l) < table_count(m, u)))
}

/// `t` is the table with the most players: the first by id among those
/// with the most, unless none has more than the seated players of table
/// `prefer`, which is then the one.
pub open spec fn most_ok(m: Mtt, prefer: usize, t: usize) -> bool {
    let p = m.tables@[prefer].players@.len() as int;
    &&& m.tables@.contains_key(t)
    &&& (t == prefer && forall|u: usize| #[trigger] m.tables@.contains_key(u) ==> table_count(m, u) <= p)
        || (table_count(m, t) > p
            && (forall|u: usize| #[trigger] m.tables@.contains_key(u) ==> table_count(m, u) <= table_count(m, t))
            && (forall|u: usize| #[trigger] m.tables@.contains_key(u) && u < t ==> table_count(m, u) < table_count(m, t)))
}

impl Mtt {
    /// The number of players of a table: seated there or sent there.
    pub fn count_table_players(&self, table_id: usize) -> (r: usize)
        ensures
            r == table_count(*self, table_id),
    {
        let seated: usize = match self.tables.get(&table_id) {
            Some(t) => t.players.len(),
            None => 0,
        };
        let ids = sorted_keys(&self.table_assigns_pending);
        let ghost pm = self.table_assigns_pending@;
        let mut n: usize = 0;
        let mut i: usize = 0;
        while i < ids.len()
            invariant
                ids@ == key_seq(pm),
                ids@.to_set() == pm.dom(),
                pm == self.table_assigns_pending@,
                i <= ids@.len(),
                n == ids@.take(i as int).filter(pending_at(pm, table_id)).len(),
                n <= i,
            decreases ids@.len() - i,
        {
            proof {
                crate::holdem_evaluator::lemma_filter_take_step(ids@, pending_at(pm, table_id), i as int);
            }
            let id = ids[i];
            assert(ids@.to_set().contains(id));
            let t = match self.table_assigns_pending.get(&id) {
                Some(t) => *t,
                None => 0,
            };
            if t == table_id {
                n = n + 1;
            }
            i = i + 1;
        }
        assert(ids@.take(i as int) =~= ids@);
        if seated > usize::MAX - n {
            usize::MAX
        } else {
            seated + n
        }
    }

    /// The table with the fewest players, but some, among those with a free
    /// seat; the first such table by id.
    pub fn find_sparse_non_empty_table(&self) -> (r: Option<usize>)
        ensures
            r matches Some(t) ==> {
                &&& self.tables@.contains_key(t)
                &&& 0 < table_count(*self, t) < self.table_size
                &&& forall|u: usize| #[trigger] self.tables@.contains_key(u) && 0 < table_count(*self, u) ==> table_count(*self, t) <= table_count(*self, u)
                &&& forall|u: usize| #[trigger] self.tables@.contains_key(u) && u < t && 0 < table_count(*self, u) ==> table_count(*self, t) < table_count(*self, u)
            },
            r is None ==> forall|u: usize| #[trigger] self.tables@.contains_key(u) ==> !(0 < table_count(*self, u) < self.table_size),
    {
        let ids = sorted_index_keys(&self.tables);
        let mut best: Option<usize> = None;
        let mut least: usize = self.table_size as usize;
        let mut i: usize = 0;
        while i < ids.len()
            invariant
                ids@ == index_key_seq(self.tables@),
                ids@.to_set() == self.tables@.dom(),
                strictly_increasing_ix(ids@),
                i <= ids@.len(),
                best is None ==> least == self.table_size && forall|j: int|
                    0 <= j < i ==> !(0 < #[trigger] table_count(*self, ids@[j]) < self.table_size),
                best matches Some(t) ==> {
                    &&& exists|k: int| 0 <= k < i && ids@[k] == t
                    &&& least == table_count(*self, t) && 0 < least < self.table_size
                    &&& forall|j: int| 0 <= j < i && 0 < #[trigger] table_count(*self, ids@[j]) ==> least <= table_count(*self, ids@[j])
                    &&& forall|j: int| 0 <= j < i && ids@[j] < t && 0 < #[trigger] table_count(*self, ids@[j]) ==> least < table_count(*self, ids@[j])
                },
            decreases ids@.len() - i,
        {
            let id = ids[i];
            let count = self.count_table_players(id);
            if count < least && count > 0 {
                proof {
                    assert forall|j: int| 0 <= j < i + 1 && ids@[j] < id && 0 < #[trigger] table_count(*self, ids@[j]) implies count < table_count(*self, ids@[j]) by {
                        if j == i {
                        } else {
                            if best is None {
                            } else {
                                assert(least <= table_count(*self, ids@[j]));
                            }
                        }
                    }
                }
                best = Some(id);
                least = count;
            } else {
                proof {
                    if let Some(t) = best {
                        let k = choose|k: int| 0 <= k < i && ids@[k] == t;
                        assert(ids@[k] < ids@[i as int]);
                    }
                }
            }
            i = i + 1;
        }
        proof {
            assert forall|u: usize| #[trigger] self.tables@.contains_key(u) implies exists|j: int| 0 <= j < ids@.len() && ids@[j] == u by {
                assert(ids@.to_set().contains(u));
            }
            if let Some(t) = best {
                let k = choose|k: int| 0 <= k < i && ids@[k] == t;
                assert(ids@.to_set().contains(t));
                assert forall|u: usize| #[trigger] self.tables@.contains_key(u) && u < t && 0 < table_count(*self, u) implies table_count(*self, t) < table_count(*self, u) by {
                    let j = choose|j: int| 0 <= j < ids@.len() && ids@[j] == u;
                }
                assert forall|u: usize| #[trigger] self.tables@.contains_key(u) && 0 < table_count(*self, u) implies table_count(*self, t) <= table_count(*self, u) by {
                    let j = choose|j: int| 0 <= j < ids@.len() && ids@[j] == u;
                }
            } else {
                assert forall|u: usize| #[trigger] self.tables@.contains_key(u) implies !(0 < table_count(*self, u) < self.table_size) by {
                    let j = choose|j: int| 0 <= j < ids@.len() && ids@[j] == u;
                }
            }
        }
        best
    }

    /// The ids of the tables with the fewest and with the most players;
    /// among tables of equal count the first by id, and table `prefer`
    /// (whose seated players are its count) unless another has fewer,
    /// or more.
    pub fn get_table_ids_with_least_most_players(&self, prefer: usize) -> (r: Result<(usize, usize), GameError>)
        ensures
            !self.tables@.contains_key(prefer) ==> r == Err::<(usize, usize), GameError>(GameError::InvalidTableId),
            self.tables@.contains_key(prefer) ==> (r matches Ok((l, m)) && least_ok(*self, prefer, l) && most_ok(*self, prefer, m)),
    {
        let plen = match self.tables.get(&prefer) {
            Some(t) => t.players.len(),
            None => {
                return Err(GameError::InvalidTableId);
            },
        };
        let ghost p = plen as int;
        let ids = sorted_index_keys(&self.tables);
        let mut least: (usize, usize) = (prefer, plen);
        let mut most: (usize, usize) = (prefer, plen);
        let mut i: usize = 0;
        while i < ids.len()
            invariant
                ids@ == index_key_seq(self.tables@),
                ids@.to_set() == self.tables@.dom(),
                strictly_increasing_ix(ids@),
                i <= ids@.len(),
                self.tables@.contains_key(prefer),
                p == self.tables@[prefer].players@.len(),
                least.1 <= p <= most.1,
                self.tables@.contains_key(least.0) && self.tables@.contains_key(most.0),
                least.0 == prefer && least.1 == p || (exists|k: int| 0 <= k < i && ids@[k] == least.0) && least.1 == table_count(*self, least.0) && least.1 < p,
                forall|j: int| 0 <= j < i ==> least.1 <= #[trigger] table_count(*self, ids@[j]),
                least.0 != prefer || least.1 < p ==> forall|j: int| 0 <= j < i && ids@[j] < least.0 ==> least.1 < #[trigger] table_count(*self, ids@[j]),
                most.0 == prefer && most.1 == p || (exists|k: int| 0 <= k < i && ids@[k] == most.0) && most.1 == table_count(*self, most.0) && most.1 > p,
                forall|j: int| 0 <= j < i ==> #[trigger] table_count(*self, ids@[j]) <= most.1,
                most.0 != prefer || most.1 > p ==> forall|j: int| 0 <= j < i && ids@[j] < most.0 ==> #[trigger] table_count(*self, ids@[j]) < most.1,
            decreases ids@.len() - i,
        {
            let id = ids[i];
            assert(ids@.to_set().contains(id));
            let count = self.count_table_players(id);
            if count < least.1 {
                least = (id, count);
            } else if count > most.1 {
                most = (id, count);
            }
            proof {
                if least.0 != prefer || least.1 < p {
                    let k = choose|k: int| 0 <= k < i + 1 && ids@[k] == least.0;
                    assert forall|j: int| 0 <= j < i + 1 && ids@[j] < least.0 implies least.1 < #[trigger] table_count(*self, ids@[j]) by {
                        if j < k {
                        } else if j > k {
                            assert(ids@[k] < ids@[j]);
                        }
                    }
                }
                if most.0 != prefer || most.1 > p {
                    let k = choose|k: int| 0 <= k < i + 1 && ids@[k] == most.0;
                    assert forall|j: int| 0 <= j < i + 1 && ids@[j] < most.0 implies #[trigger] table_count(*self, ids@[j]) < most.1 by {
                        if j < k {
                        } else if j > k {
                            assert(ids@[k] < ids@[j]);
                        }
                    }
                }
            }
            i = i + 1;
        }
        proof {
            assert forall|u: usize| #[trigger] self.tables@.contains_key(u) implies exists|j: int| 0 <= j < ids@.len() && ids@[j] == u by {
                assert(ids@.to_set().contains(u));
            }
            assert forall|u: usize| #[trigger] self.tables@.contains_key(u) implies least.1 <= table_count(*self, u) && table_count(*self, u) <= most.1 by {
                let j = choose|j: int| 0 <= j < ids@.len() && ids@[j] == u;
            }
            if least.0 != prefer || least.1 < p {
                assert forall|u: usize| #[trigger] self.tables@.contains_key(u) && u < least.0 implies least.1 < table_count(*self, u) by {
                    let j = choose|j: int| 0 <= j < ids@.len() && ids@[j] == u;
                }
            }
            if most.0 != prefer || most.1 > p {
                assert forall|u: usize| #[trigger] self.tables@.contains_key(u) && u < most.0 implies table_count(*self, u) < most.1 by {
                    let j = choose|j: int| 0 <= j < ids@.len() && ids@[j] == u;
                }
            }
        }
        Ok((least.0, most.0))
    }
}

/// The index of the first rank of player `id` from the `j`-th on; the
/// number of ranks when there is none.
pub open spec fn first_rank(rs: Seq<PlayerRank>, id: u64, j: int) -> int
    decreases rs.len() - j,
{
    if j < 0 || j >= rs.len() {
        rs.len() as int
    } else if rs[j].id == id {
        j
    } else {
        first_rank(rs, id, j + 1)
    }
}

proof fn lemma_first_rank(rs: Seq<PlayerRank>, id: u64, j: int, i: int)
    requires
        0 <= j <= i <= rs.len(),
        forall|l: int| j <= l < i ==> rs[l].id != id,
        i < rs.len() ==> rs[i].id == id,
    ensures
        first_rank(rs, id, j) == i,
    decreases i - j,
{
    if j < i {
        lemma_first_rank(rs, id, j + 1, i);
    }
}

/// The state of applying chips changes one by one.
pub struct ChipsRun {
    pub ranks: Seq<PlayerRank>,
    pub assigns: Map<u64, usize>,
    pub err: Option<GameError>,
}

/// A player's chips change: added, or taken, when the player is out of
/// chips, out and unseated; refused for an unknown player or chips that
/// would overflow or go negative.
pub open spec fn chips_step(st: ChipsRun, rst: PlayerResult) -> ChipsRun {
    if st.err is Some {
        st
    } else {
        let k = first_rank(st.ranks, rst.player_id, 0);
        if k >= st.ranks.len() {
            ChipsRun { err: Some(GameError::PlayerNotFound), ..st }
        } else {
            let r = st.ranks[k];
            match rst.chips_change {
                Some(ChipsChange::Add(a)) => if r.chips + a > u64::MAX {
                    ChipsRun { err: Some(GameError::InternalAmountOverflow), ..st }
                } else {
                    ChipsRun { ranks: st.ranks.update(k, PlayerRank { chips: (r.chips + a) as u64, ..r }), ..st }
                },
                Some(ChipsChange::Sub(a)) => if a > r.chips {
                    ChipsRun { err: Some(GameError::InternalAmountOverflow), ..st }
                } else if r.chips - a == 0 {
                    ChipsRun {
                        ranks: st.ranks.update(k, PlayerRank { chips: 0, status: PlayerRankStatus::Out, ..r }),
                        assigns: st.assigns.remove(r.id),
                        ..st
                    }
                } else {
                    ChipsRun { ranks: st.ranks.update(k, PlayerRank { chips: (r.chips - a) as u64, ..r }), ..st }
                },
                None => st,
            }
        }
    }
}

/// The chips changes applied one by one.
pub open spec fn chips_run(st: ChipsRun, rs: Seq<PlayerResult>) -> ChipsRun
    decreases rs.len(),
{
    if rs.len() == 0 {
        st
    } else {
        chips_step(chips_run(st, rs.drop_last()), rs.last())
    }
}

/// The ids of the results that satisfy `p`, in order.
pub open spec fn result_ids(rs: Seq<PlayerResult>, p: spec_fn(PlayerResult) -> bool) -> Seq<u64> {
    rs.filter(p).map_values(|r: PlayerResult| r.player_id)
}

/// The eliminated players.
pub open spec fn eliminated_pred() -> spec_fn(PlayerResult) -> bool {
    |r: PlayerResult| r.status == PlayerResultStatus::Eliminated
}

/// The players who won chips.
pub open spec fn winner_pred() -> spec_fn(PlayerResult) -> bool {
    |r: PlayerResult| r.chips_change matches Some(ChipsChange::Add(_))
}

/// The state of collecting the bounties of eliminated players.
pub struct BountyRun {
    pub ranks: Seq<PlayerRank>,
    pub reward: int,
    pub transfer: int,
    pub err: Option<GameError>,
}

/// An eliminated player's bounty is collected and cleared.
pub open spec fn elim_step(st: BountyRun, id: u64) -> BountyRun {
    if st.err is Some {
        st
    } else {
        let k = first_rank(st.ranks, id, 0);
        if k >= st.ranks.len() {
            BountyRun { err: Some(GameError::PlayerNotFound), ..st }
        } else {
            let r = st.ranks[k];
            if st.reward + r.bounty_reward > u64::MAX || st.transfer + r.bounty_transfer > u64::MAX {
                BountyRun { err: Some(GameError::InternalAmountOverflow), ..st }
            } else {
                BountyRun {
                    ranks: st.ranks.update(k, PlayerRank { bounty_reward: 0, bounty_transfer: 0, ..r }),
                    reward: st.reward + r.bounty_reward,
                    transfer: st.transfer + r.bounty_transfer,
                    err: None,
                }
            }
        }
    }
}

pub open spec fn elim_run(st: BountyRun, ids: Seq<u64>) -> BountyRun
    decreases ids.len(),
{
    if ids.len() == 0 {
        st
    } else {
        elim_step(elim_run(st, ids.drop_last()), ids.last())
    }
}

/// The state of paying the bounty shares to the winners.
pub struct WinRun {
    pub ranks: Seq<PlayerRank>,
    pub actions: Seq<EffectAction>,
    pub err: Option<GameError>,
}

/// A winner takes a share of the transferable bounties into its own
/// bounty, and is paid a share of the rewards.
pub open spec fn win_step(st: WinRun, id: u64, reward: u64, transfer: u64) -> WinRun {
    if st.err is Some {
        st
    } else {
        let k = first_rank(st.ranks, id, 0);
        if k >= st.ranks.len() {
            WinRun { err: Some(GameError::PlayerNotFound), ..st }
        } else {
            let r = st.ranks[k];
            if r.bounty_reward + transfer > u64::MAX {
                WinRun { err: Some(GameError::InternalAmountOverflow), ..st }
            } else {
                WinRun {
                    ranks: st.ranks.update(k, PlayerRank { bounty_reward: (r.bounty_reward + transfer) as u64, ..r }),
                    actions: st.actions.push(EffectAction::Withdraw { player_id: r.id, amount: reward }),
                    err: None,
                }
            }
        }
    }
}

pub open spec fn win_run(st: WinRun, ids: Seq<u64>, reward: u64, transfer: u64) -> WinRun
    decreases ids.len(),
{
    if ids.len() == 0 {
        st
    } else {
        win_step(win_run(st, ids.drop_last(), reward, transfer), ids.last(), reward, transfer)
    }
}

/// The bounties the ranks hold.
pub open spec fn bounty_sum(rs: Seq<PlayerRank>) -> nat
    decreases rs.len(),
{
    if rs.len() == 0 {
        0
    } else {
        (bounty_sum(rs.drop_last()) + rs.last().bounty_reward + rs.last().bounty_transfer) as nat
    }
}

/// The shares of the prize pool paid: those of the places the players
/// fill.
pub open spec fn paid_shares(m: Mtt) -> nat {
    shares_sum(m.prize_rules@, m.ranks@.len() as int)
}

/// The number of places paid.
pub open spec fn paid_places(m: Mtt) -> int {
    if m.ranks@.len() < m.prize_rules@.len() {
        m.ranks@.len() as int
    } else {
        m.prize_rules@.len() as int
    }
}

/// The prize of the `i`-th place.
pub open spec fn prize_of(m: Mtt, i: int) -> int {
    (m.total_prize / (paid_shares(m) as u64)) * m.prize_rules@[i]
}

/// What the `i`-th place is paid: the prize and the bounties held.
pub open spec fn payout_of(m: Mtt, i: int) -> int {
    prize_of(m, i) + m.ranks@[i].bounty_reward + m.ranks@[i].bounty_transfer
}

/// Whether some paid place's prize or payout overflows.
pub open spec fn prizes_overflow(m: Mtt) -> bool {
    exists|i: int| 0 <= i < paid_places(m) && (prize_of(m, i) > u64::MAX || payout_of(m, i) > u64::MAX)
}

impl Mtt {
    /// Apply the chips changes of a hand to the ranking: a player out of
    /// chips is out and unseated; then sort the ranking and count the
    /// players left.
    pub fn apply_chips_change(&mut self, player_results: &Vec<PlayerResult>) -> (r: Result<(), GameError>)
        ensures
            ({
                let st = chips_run(
                    ChipsRun { ranks: old(self).ranks@, assigns: old(self).table_assigns@, err: None },
                    player_results@,
                );
                &&& st.err matches Some(e) ==> r == Err::<(), GameError>(e)
                &&& st.err is None ==> {
                    &&& r is Ok
                    &&& final(self).ranks@ == sort_by_chips(st.ranks)
                    &&& final(self).table_assigns@ == st.assigns
                    &&& final(self).alives == sort_by_chips(st.ranks).filter(alive_pred()).len()
                    &&& *final(self) == (Mtt {
                        ranks: final(self).ranks,
                        table_assigns: final(self).table_assigns,
                        alives: final(self).alives,
                        ..*old(self)
                    })
                }
            }),
            chips_applied(*old(self), player_results@, r, *final(self)),
    {
        let ghost st0 = ChipsRun { ranks: old(self).ranks@, assigns: old(self).table_assigns@, err: None };
        let mut i: usize = 0;
        assert(player_results@.take(0) =~= Seq::<PlayerResult>::empty());
        while i < player_results.len()
            invariant
                i <= player_results@.len(),
                st0 == (ChipsRun { ranks: old(self).ranks@, assigns: old(self).table_assigns@, err: None }),
                ({
                    let st = chips_run(st0, player_results@.take(i as int));
                    st.err is None && st.ranks == self.ranks@ && st.assigns == self.table_assigns@
                }),
                *self == (Mtt { ranks: self.ranks, table_assigns: self.table_assigns, ..*old(self) }),
            decreases player_results@.len() - i,
        {
            let rst = player_results[i];
            proof {
                assert(player_results@.take(i + 1).drop_last() =~= player_results@.take(i as int));
                assert(player_results@.take(i + 1).last() == rst);
            }
            let k = match self.rank_index(rst.player_id) {
                Some(k) => k,
                None => {
                    proof {
                        lemma_first_rank(self.ranks@, rst.player_id, 0, self.ranks@.len() as int);
                        lemma_chips_err(st0, player_results@, i + 1);
                    }
                    return Err(GameError::PlayerNotFound);
                },
            };
            proof {
                lemma_first_rank(self.ranks@, rst.player_id, 0, k as int);
            }
            let mut rank = self.ranks[k];
            match rst.chips_change {
                Some(ChipsChange::Add(amount)) => {
                    if rank.chips > u64::MAX - amount {
                        proof {
                            lemma_chips_err(st0, player_results@, i + 1);
                        }
                        return Err(GameError::InternalAmountOverflow);
                    }
                    rank.chips = rank.chips + amount;
                    self.ranks.set(k, rank);
                },
                Some(ChipsChange::Sub(amount)) => {
                    if amount > rank.chips {
                        proof {
                            lemma_chips_err(st0, player_results@, i + 1);
                        }
                        return Err(GameError::InternalAmountOverflow);
                    }
                    rank.chips = rank.chips - amount;
                    if rank.chips == 0 {
                        rank.status = PlayerRankStatus::Out;
                        self.table_assigns.remove(&rank.id);
                    }
                    self.ranks.set(k, rank);
                },
                None => {},
            }
            i = i + 1;
        }
        assert(player_results@.take(i as int) =~= player_results@);
        self.sort_ranks();
        self.update_alives();
        Ok(())
    }
}

proof fn lemma_chips_err(st: ChipsRun, rs: Seq<PlayerResult>, n: int)
    requires
        0 < n <= rs.len(),
        chips_run(st, rs.take(n)).err is Some,
    ensures
        chips_run(st, rs).err == chips_run(st, rs.take(n)).err,
    decreases rs.len() - n,
{
    if n < rs.len() {
        assert(rs.take(n + 1).drop_last() =~= rs.take(n));
        lemma_chips_err(st, rs, n + 1);
    } else {
        assert(rs.take(n) =~= rs);
    }
}

/// Collect the ids of the results that satisfy the test, in order.
fn eliminated_ids(rs: &Vec<PlayerResult>) -> (r: Vec<u64>)
    ensures
        r@ == result_ids(rs@, eliminated_pred()),
{
    let mut out: Vec<u64> = Vec::new();
    let mut i: usize = 0;
    while i < rs.len()
        invariant
            i <= rs@.len(),
            out@ == result_ids(rs@.take(i as int), eliminated_pred()),
        decreases rs@.len() - i,
    {
        proof {
            crate::holdem_evaluator::lemma_filter_take_step(rs@, eliminated_pred(), i as int);
        }
        if rs[i].status == PlayerResultStatus::Eliminated {
            out.push(rs[i].player_id);
        }
        assert(out@ =~= result_ids(rs@.take(i + 1), eliminated_pred()));
        i = i + 1;
    }
    assert(rs@.take(i as int) =~= rs@);
    out
}

/// Collect the ids of the players who won chips, in order.
fn winner_ids(rs: &Vec<PlayerResult>) -> (r: Vec<u64>)
    ensures
        r@ == result_ids(rs@, winner_pred()),
{
    let mut out: Vec<u64> = Vec::new();
    let mut i: usize = 0;
    while i < rs.len()
        invariant
            i <= rs@.len(),
            out@ == result_ids(rs@.take(i as int), winner_pred()),
        decreases rs@.len() - i,
    {
        proof {
            crate::holdem_evaluator::lemma_filter_take_step(rs@, winner_pred(), i as int);
        }
        match rs[i].chips_change {
            Some(ChipsChange::Add(_)) => {
                out.push(rs[i].player_id);
            },
            _ => {},
        }
        assert(out@ =~= result_ids(rs@.take(i + 1), winner_pred()));
        i = i + 1;
    }
    assert(rs@.take(i as int) =~= rs@);
    out
}

proof fn lemma_elim_err(st: BountyRun, ids: Seq<u64>, n: int)
    requires
        0 < n <= ids.len(),
        elim_run(st, ids.take(n)).err is Some,
    ensures
        elim_run(st, ids).err == elim_run(st, ids.take(n)).err,
    decreases ids.len() - n,
{
    if n < ids.len() {
        assert(ids.take(n + 1).drop_last() =~= ids.take(n));
        lemma_elim_err(st, ids, n + 1);
    } else {
        assert(ids.take(n) =~= ids);
    }
}

proof fn lemma_win_err(st: WinRun, ids: Seq<u64>, reward: u64, transfer: u64, n: int)
    requires
        0 < n <= ids.len(),
        win_run(st, ids.take(n), reward, transfer).err is Some,
    ensures
        win_run(st, ids, reward, transfer).err == win_run(st, ids.take(n), reward, transfer).err,
    decreases ids.len() - n,
{
    if n < ids.len() {
        assert(ids.take(n + 1).drop_last() =~= ids.take(n));
        lemma_win_err(st, ids, reward, transfer, n + 1);
    } else {
        assert(ids.take(n) =~= ids);
    }
}

/// What handling the bounties of a hand gives, from tournament `m0` and
/// effect `e0`: the bounties of the eliminated players are shared by the
/// players who won chips; each takes an equal part of the transferable
/// bounties into its own, and is paid an equal part of the rewards; what
/// does not divide evenly goes to the prize pool.
pub open spec fn bounty_handled(
    m0: Mtt,
    e0: Effect,
    results: Seq<PlayerResult>,
    r: Result<(), GameError>,
    m1: Mtt,
    e1: Effect,
) -> bool {
    let elim = result_ids(results, eliminated_pred());
    let wins = result_ids(results, winner_pred());
    if elim.len() == 0 {
        r is Ok && m1 == m0 && e1 == e0
    } else if wins.len() == 0 {
        r == Err::<(), GameError>(GameError::BountyWinnerMissing)
    } else {
        let b = elim_run(BountyRun { ranks: m0.ranks@, reward: 0, transfer: 0, err: None }, elim);
        match b.err {
            Some(e) => r == Err::<(), GameError>(e),
            None => {
                let each_r = (b.reward / wins.len() as int) as u64;
                let each_t = (b.transfer / wins.len() as int) as u64;
                let w = win_run(WinRun { ranks: b.ranks, actions: e0.actions@, err: None }, wins, each_r, each_t);
                match w.err {
                    Some(e) => r == Err::<(), GameError>(e),
                    None => {
                        let remain = b.reward % (wins.len() as int) + b.transfer % (wins.len() as int);
                        let prize = m0.total_prize + remain;
                        let bounty = bounty_sum(w.ranks);
                        if prize > u64::MAX || bounty > u64::MAX || prize + m0.total_rake + bounty > u64::MAX {
                            r == Err::<(), GameError>(GameError::InternalAmountOverflow)
                        } else {
                            &&& r is Ok
                            &&& m1.ranks@ == w.ranks
                            &&& m1.total_prize == prize && m1.total_bounty == bounty
                            &&& m1.player_balances@ == m0.player_balances@.insert(0, (prize + m0.total_rake + bounty) as u64)
                            &&& m1 == (Mtt {
                                ranks: m1.ranks,
                                total_prize: m1.total_prize,
                                total_bounty: m1.total_bounty,
                                player_balances: m1.player_balances,
                                ..m0
                            })
                            &&& e1.actions@ == w.actions
                            &&& only_actions_changed(e0, e1)
                        }
                    },
                }
            },
        }
    }
}

impl Mtt {
    /// The bounties held by the ranking, when they fit in a `u64`.
    fn sum_bounties(&self) -> (r: Option<u64>)
        ensures
            bounty_sum(self.ranks@) <= u64::MAX ==> r == Some(bounty_sum(self.ranks@) as u64),
            bounty_sum(self.ranks@) > u64::MAX ==> r is None,
    {
        let mut sum: u64 = 0;
        let mut i: usize = 0;
        while i < self.ranks.len()
            invariant
                i <= self.ranks@.len(),
                sum == bounty_sum(self.ranks@.take(i as int)),
            decreases self.ranks@.len() - i,
        {
            let r = self.ranks[i];
            proof {
                assert(self.ranks@.take(i + 1).drop_last() =~= self.ranks@.take(i as int));
                assert(self.ranks@.take(i + 1).last() == r);
                lemma_bounty_sum_grows(self.ranks@, i + 1, self.ranks@.len() as int);
                assert(self.ranks@.take(self.ranks@.len() as int) =~= self.ranks@);
            }
            if r.bounty_reward > u64::MAX - sum || r.bounty_transfer > u64::MAX - sum - r.bounty_reward {
                return None;
            }
            sum = sum + r.bounty_reward + r.bounty_transfer;
            i = i + 1;
        }
        assert(self.ranks@.take(i as int) =~= self.ranks@);
        Some(sum)
    }

    /// Share the bounties of the players eliminated in a hand among the
    /// players who won chips in it.
    pub fn handle_bounty(&mut self, player_results: &Vec<PlayerResult>, effect: &mut Effect) -> (r: Result<(), GameError>)
        ensures
            bounty_handled(*old(self), *old(effect), player_results@, r, *final(self), *final(effect)),
    {
        let elim = eliminated_ids(player_results);
        if elim.len() == 0 {
            return Ok(());
        }
        let wins = winner_ids(player_results);
        if wins.len() == 0 {
            return Err(GameError::BountyWinnerMissing);
        }
        let ghost b0 = BountyRun { ranks: self.ranks@, reward: 0, transfer: 0, err: None };
        let mut total_r: u64 = 0;
        let mut total_t: u64 = 0;
        let mut i: usize = 0;
        assert(elim@.take(0) =~= Seq::<u64>::empty());
        while i < elim.len()
            invariant
                i <= elim@.len(),
                b0 == (BountyRun { ranks: old(self).ranks@, reward: 0, transfer: 0, err: None }),
                elim@ == result_ids(player_results@, eliminated_pred()),
                wins@ == result_ids(player_results@, winner_pred()),
                elim@.len() > 0 && wins@.len() > 0,
                ({
                    let b = elim_run(b0, elim@.take(i as int));
                    b.err is None && b.ranks == self.ranks@ && b.reward == total_r && b.transfer == total_t
                }),
                *self == (Mtt { ranks: self.ranks, ..*old(self) }),
            decreases elim@.len() - i,
        {
            let id = elim[i];
            proof {
                assert(elim@.take(i + 1).drop_last() =~= elim@.take(i as int));
                assert(elim@.take(i + 1).last() == id);
            }
            let k = match self.rank_index(id) {
                Some(k) => k,
                None => {
                    proof {
                        lemma_first_rank(self.ranks@, id, 0, self.ranks@.len() as int);
                        lemma_elim_err(b0, elim@, i + 1);
                    }
                    return Err(GameError::PlayerNotFound);
                },
            };
            proof {
                lemma_first_rank(self.ranks@, id, 0, k as int);
            }
            let mut rank = self.ranks[k];
            if rank.bounty_reward > u64::MAX - total_r || rank.bounty_transfer > u64::MAX - total_t {
                proof {
                    lemma_elim_err(b0, elim@, i + 1);
                }
                return Err(GameError::InternalAmountOverflow);
            }
            total_r = total_r + rank.bounty_reward;
            total_t = total_t + rank.bounty_transfer;
            rank.bounty_reward = 0;
            rank.bounty_transfer = 0;
            self.ranks.set(k, rank);
            i = i + 1;
        }
        assert(elim@.take(i as int) =~= elim@);
        let wc = wins.len() as u64;
        let each_r = total_r / wc;
        let each_t = total_t / wc;
        let ghost w0 = WinRun { ranks: self.ranks@, actions: effect.actions@, err: None };
        let mut j: usize = 0;
        assert(wins@.take(0) =~= Seq::<u64>::empty());
        while j < wins.len()
            invariant
                j <= wins@.len(),
                w0.err is None,
                elim@ == result_ids(player_results@, eliminated_pred()),
                wins@ == result_ids(player_results@, winner_pred()),
                elim@.len() > 0 && wins@.len() > 0,
                wc == wins@.len(),
                each_r == total_r / wc && each_t == total_t / wc,
                b0 == (BountyRun { ranks: old(self).ranks@, reward: 0, transfer: 0, err: None }),
                elim_run(b0, elim@) == (BountyRun { ranks: w0.ranks, reward: total_r as int, transfer: total_t as int, err: None }),
                w0.actions == old(effect).actions@,
                ({
                    let w = win_run(w0, wins@.take(j as int), each_r, each_t);
                    w.err is None && w.ranks == self.ranks@ && w.actions == effect.actions@
                }),
                *self == (Mtt { ranks: self.ranks, ..*old(self) }),
                only_actions_changed(*old(effect), *effect),
            decreases wins@.len() - j,
        {
            let id = wins[j];
            proof {
                assert(wins@.take(j + 1).drop_last() =~= wins@.take(j as int));
                assert(wins@.take(j + 1).last() == id);
            }
            let k = match self.rank_index(id) {
                Some(k) => k,
                None => {
                    proof {
                        lemma_first_rank(self.ranks@, id, 0, self.ranks@.len() as int);
                        lemma_win_err(w0, wins@, each_r, each_t, j + 1);
                    }
                    return Err(GameError::PlayerNotFound);
                },
            };
            proof {
                lemma_first_rank(self.ranks@, id, 0, k as int);
            }
            let mut rank = self.ranks[k];
            if rank.bounty_reward > u64::MAX - each_t {
                proof {
                    lemma_win_err(w0, wins@, each_r, each_t, j + 1);
                }
                return Err(GameError::InternalAmountOverflow);
            }
            rank.bounty_reward = rank.bounty_reward + each_t;
            self.ranks.set(k, rank);
            effect.push(EffectAction::Withdraw { player_id: rank.id, amount: each_r });
            j = j + 1;
        }
        assert(wins@.take(j as int) =~= wins@);
        let remain_r = total_r % wc;
        let remain_t = total_t % wc;
        if remain_r > u64::MAX - remain_t || remain_r + remain_t > u64::MAX - self.total_prize {
            return Err(GameError::InternalAmountOverflow);
        }
        let remain = remain_r + remain_t;
        if remain > 0 {
            self.total_prize = self.total_prize + remain;
        }
        proof {
            let b = elim_run(b0, elim@);
            let w = win_run(w0, wins@, each_r, each_t);
            assert(b.reward == total_r && b.transfer == total_t);
            assert(each_r == (b.reward / wins@.len() as int) as u64);
            assert(each_t == (b.transfer / wins@.len() as int) as u64);
            assert(remain == b.reward % (wins@.len() as int) + b.transfer % (wins@.len() as int));
            assert(self.total_prize == old(self).total_prize + remain);
            assert(w.ranks == self.ranks@);
        }
        let bounty = match self.sum_bounties() {
            Some(b) => b,
            None => {
                return Err(GameError::InternalAmountOverflow);
            },
        };
        if self.total_prize > u64::MAX - self.total_rake || bounty > u64::MAX - self.total_prize - self.total_rake {
            proof {
                let b = elim_run(b0, elim@);
                let w = win_run(w0, wins@, each_r, each_t);
                let w2 = win_run(WinRun { ranks: b.ranks, actions: old(effect).actions@, err: None }, result_ids(player_results@, winner_pred()), each_r, each_t);
                assert(w0 == WinRun { ranks: b.ranks, actions: old(effect).actions@, err: None });
                assert(w2 == w);
                assert(bounty == bounty_sum(w.ranks));
                assert(self.total_prize + self.total_rake + bounty > u64::MAX);
            }
            return Err(GameError::InternalAmountOverflow);
        }
        self.total_bounty = bounty;
        self.update_player_balances();
        Ok(())
    }
}

proof fn lemma_bounty_sum_grows(rs: Seq<PlayerRank>, m: int, n: int)
    requires
        0 <= m <= n <= rs.len(),
    ensures
        bounty_sum(rs.take(m)) <= bounty_sum(rs.take(n)),
    decreases n - m,
{
    if m < n {
        lemma_bounty_sum_grows(rs, m, n - 1);
        assert(rs.take(n).drop_last() =~= rs.take(n - 1));
    }
}

/// The prizes of the paid places.
pub open spec fn prize_winners(m: Mtt) -> Seq<MttWinner> {
    Seq::new(paid_places(m) as nat, |i: int| MttWinner { player_id: m.ranks@[i].id, prize: prize_of(m, i) as u64 })
}

/// The payouts of the paid places.
pub open spec fn payouts(m: Mtt) -> Seq<EffectAction> {
    Seq::new(
        paid_places(m) as nat,
        |i: int| EffectAction::Withdraw { player_id: m.ranks@[i].id, amount: payout_of(m, i) as u64 },
    )
}

pub proof fn lemma_shares_past_end(rules: Seq<u8>, n: int)
    requires
        n >= rules.len(),
    ensures
        shares_sum(rules, n) == shares_sum(rules, rules.len() as int),
{
}

impl Mtt {
    /// The shares of the paid places, when they fit in a `u8`.
    fn paid_share_count(&self) -> (r: Option<u8>)
        ensures
            paid_shares(*self) <= 255 ==> r == Some(paid_shares(*self) as u8),
            paid_shares(*self) > 255 ==> r is None,
    {
        let n = if self.ranks.len() < self.prize_rules.len() {
            self.ranks.len()
        } else {
            self.prize_rules.len()
        };
        proof {
            if self.ranks@.len() >= self.prize_rules@.len() {
                lemma_shares_past_end(self.prize_rules@, self.ranks@.len() as int);
            }
        }
        let mut sum: u64 = 0;
        let mut i: usize = 0;
        while i < n
            invariant
                n <= self.prize_rules@.len(),
                n == paid_places(*self),
                shares_sum(self.prize_rules@, n as int) == paid_shares(*self),
                i <= n,
                sum == shares_sum(self.prize_rules@, i as int),
                sum <= 255,
            decreases n - i,
        {
            sum = sum + self.prize_rules[i] as u64;
            if sum > 255 {
                proof {
                    lemma_shares_grow(self.prize_rules@, i + 1, n as int);
                }
                return None;
            }
            i = i + 1;
        }
        Some(sum as u8)
    }

    /// When one player is left, pay the prizes (each paid place its share
    /// of the prize pool and the bounties it holds) and mark the game as
    /// completed; a wait is scheduled and the rake is collected.
    pub fn apply_prizes(&mut self, effect: &mut Effect) -> (r: Result<(), GameError>)
        ensures
            old(self).ranks@.filter(alive_pred()).len() != 1 ==> r is Ok && *final(self) == *old(self) && *final(effect)
                == *old(effect),
            old(self).ranks@.filter(alive_pred()).len() == 1 ==> {
                &&& paid_shares(*old(self)) > 255 ==> r == Err::<(), GameError>(GameError::InternalAmountOverflow)
                &&& paid_shares(*old(self)) == 0 ==> r == Err::<(), GameError>(GameError::PrizeSharesMissing)
                &&& 0 < paid_shares(*old(self)) <= 255 && prizes_overflow(*old(self)) ==> r == Err::<(), GameError>(
                    GameError::InternalAmountOverflow,
                )
                &&& 0 < paid_shares(*old(self)) <= 255 && !prizes_overflow(*old(self)) ==> {
                    &&& r is Ok
                    &&& final(self).winners@ == old(self).winners@ + prize_winners(*old(self))
                    &&& final(self).stage == MttStage::Completed
                    &&& final(self).player_balances@ == old(self).player_balances@.insert(0, 0)
                    &&& *final(self) == (Mtt {
                        winners: final(self).winners,
                        stage: final(self).stage,
                        player_balances: final(self).player_balances,
                        ..*old(self)
                    })
                    &&& only_actions_changed(*old(effect), *final(effect))
                    &&& final(effect).actions@ == old(effect).actions@ + payouts(*old(self)) + seq![
                        EffectAction::WaitTimeout { timeout: BONUS_DISTRIBUTION_DELAY },
                        EffectAction::Transfer { amount: old(self).total_rake },
                    ]
                }
            },
            prizes_applied(*old(self), *old(effect), r, *final(self), *final(effect)),
    {
        if !self.has_winner() {
            return Ok(());
        }
        let shares = match self.paid_share_count() {
            Some(s) => s,
            None => {
                return Err(GameError::InternalAmountOverflow);
            },
        };
        if shares == 0 {
            return Err(GameError::PrizeSharesMissing);
        }
        let prize_share: u64 = self.total_prize / (shares as u64);
        self.player_balances.insert(0, 0);
        let ghost m0 = *old(self);
        let n = if self.ranks.len() < self.prize_rules.len() {
            self.ranks.len()
        } else {
            self.prize_rules.len()
        };
        let mut i: usize = 0;
        while i < n
            invariant
                n == paid_places(m0),
                n <= self.ranks@.len() && n <= self.prize_rules@.len(),
                i <= n,
                prize_share == m0.total_prize / (paid_shares(m0) as u64),
                0 < paid_shares(m0) <= 255,
                m0.ranks@.filter(alive_pred()).len() == 1,
                m0 == *old(self),
                self.ranks@ == m0.ranks@ && self.prize_rules@ == m0.prize_rules@,
                self.winners@ == m0.winners@ + prize_winners(m0).take(i as int),
                self.player_balances@ == m0.player_balances@.insert(0, 0),
                *self == (Mtt { winners: self.winners, player_balances: self.player_balances, ..m0 }),
                only_actions_changed(*old(effect), *effect),
                effect.actions@ == old(effect).actions@ + payouts(m0).take(i as int),
                forall|j: int| 0 <= j < i ==> !(prize_of(m0, j) > u64::MAX || payout_of(m0, j) > u64::MAX),
            decreases n - i,
        {
            let rank = self.ranks[i];
            let rule = self.prize_rules[i];
            assert(prize_of(m0, i as int) == prize_share * rule);
            assert((prize_share as u128) * (rule as u128) <= 0xffff_ffff_ffff_ffff_ffff_u128) by (nonlinear_arith)
                requires
                    prize_share <= 0xffff_ffff_ffff_ffff_u64,
                    rule <= 255u8,
            ;
            if (prize_share as u128) * (rule as u128) > u64::MAX as u128 {
                assert(prize_of(m0, i as int) > u64::MAX);
                return Err(GameError::InternalAmountOverflow);
            }
            let prize: u64 = prize_share * (rule as u64);
            if rank.bounty_reward > u64::MAX - prize || rank.bounty_transfer > u64::MAX - prize - rank.bounty_reward {
                assert(payout_of(m0, i as int) > u64::MAX);
                return Err(GameError::InternalAmountOverflow);
            }
            self.winners.push(MttWinner { player_id: rank.id, prize });
            effect.push(
                EffectAction::Withdraw {
                    player_id: rank.id,
                    amount: prize + rank.bounty_reward + rank.bounty_transfer,
                },
            );
            assert(self.winners@ =~= m0.winners@ + prize_winners(m0).take(i + 1));
            assert(effect.actions@ =~= old(effect).actions@ + payouts(m0).take(i + 1));
            i = i + 1;
        }
        assert(prize_winners(m0).take(i as int) =~= prize_winners(m0));
        assert(payouts(m0).take(i as int) =~= payouts(m0));
        self.stage = MttStage::Completed;
        effect.push(EffectAction::WaitTimeout { timeout: BONUS_DISTRIBUTION_DELAY });
        effect.push(EffectAction::Transfer { amount: self.total_rake });
        assert(effect.actions@ =~= old(effect).actions@ + payouts(m0) + seq![
            EffectAction::WaitTimeout { timeout: BONUS_DISTRIBUTION_DELAY },
            EffectAction::Transfer { amount: old(self).total_rake },
        ]);
        Ok(())
    }
}

/// Whether a player has a rank.
pub open spec fn has_rank(rs: Seq<PlayerRank>, id: u64) -> bool {
    exists|i: int| 0 <= i < rs.len() && rs[i].id == id
}

/// Whether some table launched by `actions` seats player `id`.
pub open spec fn launched_with(actions: Seq<EffectAction>, id: u64) -> bool {
    exists|k: int|
        0 <= k < actions.len() && (#[trigger] actions[k] matches EffectAction::LaunchSubGame { table } && exists|q: int|
            0 <= q < table.players@.len() && table.players@[q].id == id)
}

/// A command that seating players gives: players sit in at an existing
/// table, or a new table with the blinds of the level and between one
/// player and a full table is launched.
pub open spec fn seating_action(a: EffectAction, tables: Map<usize, MttTableState>, sb: u64, bb: u64, table_size: u8) -> bool {
    match a {
        EffectAction::Bridge { dest, event } => tables.contains_key(dest) && event is SitinPlayers,
        EffectAction::LaunchSubGame { table } => {
            &&& table.sb == sb && table.bb == bb
            &&& 1 <= table.players@.len()
            &&& table.players@.len() <= table_size || table.players@.len() == 1
        },
        _ => false,
    }
}

/// The chips changes of a hand applied to the ranks, which are then
/// sorted; busted players are out and unseated.
pub open spec fn chips_applied(m0: Mtt, results: Seq<PlayerResult>, r: Result<(), GameError>, m1: Mtt) -> bool {
    let st = chips_run(ChipsRun { ranks: m0.ranks@, assigns: m0.table_assigns@, err: None }, results);
    match st.err {
        Some(e) => r == Err::<(), GameError>(e),
        None => {
            &&& r is Ok
            &&& m1.ranks@ == sort_by_chips(st.ranks)
            &&& m1.table_assigns@ == st.assigns
            &&& m1.alives == sort_by_chips(st.ranks).filter(alive_pred()).len()
            &&& m1 == (Mtt { ranks: m1.ranks, table_assigns: m1.table_assigns, alives: m1.alives, ..m0 })
        },
    }
}

/// Paying the prizes once one player is left: each paid place its share
/// of the prize pool and its bounties, then the bonuses are scheduled and
/// the rake collected; nothing while more players are left.
pub open spec fn prizes_applied(m0: Mtt, e0: Effect, r: Result<(), GameError>, m1: Mtt, e1: Effect) -> bool {
    if m0.ranks@.filter(alive_pred()).len() != 1 {
        r is Ok && m1 == m0 && e1 == e0
    } else if paid_shares(m0) > 255 {
        r == Err::<(), GameError>(GameError::InternalAmountOverflow)
    } else if paid_shares(m0) == 0 {
        r == Err::<(), GameError>(GameError::PrizeSharesMissing)
    } else if prizes_overflow(m0) {
        r == Err::<(), GameError>(GameError::InternalAmountOverflow)
    } else {
        &&& r is Ok
        &&& m1.winners@ == m0.winners@ + prize_winners(m0)
        &&& m1.stage == MttStage::Completed
        &&& m1.player_balances@ == m0.player_balances@.insert(0, 0)
        &&& m1 == (Mtt { winners: m1.winners, stage: m1.stage, player_balances: m1.player_balances, ..m0 })
        &&& only_actions_changed(e0, e1)
        &&& e1.actions@ == e0.actions@ + payouts(m0) + seq![
            EffectAction::WaitTimeout { timeout: BONUS_DISTRIBUTION_DELAY },
            EffectAction::Transfer { amount: m0.total_rake },
        ]
    }
}

/// The players of a table's result are seated at it: no longer sent
/// anywhere, and assigned to the table.
pub open spec fn result_seated(m0: Mtt, m1: Mtt, players: Seq<MttTablePlayer>, tid: usize) -> bool {
    let ids = players.map_values(|p: MttTablePlayer| p.id);
    &&& m1.table_assigns_pending@ == m0.table_assigns_pending@.remove_keys(ids.to_set())
    &&& m1.table_assigns@ == m0.table_assigns@.union_prefer_right(Map::new(|k: u64| ids.contains(k), |k: u64| tid))
    &&& m1 == (Mtt { table_assigns_pending: m1.table_assigns_pending, table_assigns: m1.table_assigns, ..m0 })
}

/// The steps of a hand's result at table `tid`, each on the state the one
/// before left: its players are seated there, the bounties of the
/// eliminated players are handled, the table's state is recorded, the
/// chips changes are applied, the tables are updated, the prizes are paid
/// when one player is left; then the entry closes when its time is over
/// and a checkpoint is taken.  The first refusal is the answer.
pub open spec fn result_steps(
    m0: Mtt,
    e0: Effect,
    tid: usize,
    results: Seq<PlayerResult>,
    table: MttTableState,
    r: Result<(), GameError>,
    mf: Mtt,
    ef: Effect,
    m1: Mtt,
    rb: Result<(), GameError>,
    m2: Mtt,
    e2: Effect,
    m3: Mtt,
    rc: Result<(), GameError>,
    m4: Mtt,
    ru: Result<(), GameError>,
    m5: Mtt,
    e5: Effect,
    rp: Result<(), GameError>,
    m6: Mtt,
    e6: Effect,
) -> bool {
    &&& result_seated(m0, m1, table.players@, table.table_id)
    &&& bounty_handled(m1, e0, results, rb, m2, e2)
    &&& if rb is Err {
        r == rb
    } else {
        &&& m3.tables@ == m2.tables@.insert(tid, table) && m3 == (Mtt { tables: m3.tables, ..m2 })
        &&& chips_applied(m3, results, rc, m4)
        &&& if rc is Err {
            r == rc
        } else {
            &&& tables_updated(m4, e2, tid, ru, m5, e5)
            &&& if ru is Err {
                r == ru
            } else {
                &&& prizes_applied(m5, e5, rp, m6, e6)
                &&& if rp is Err {
                    r == rp
                } else {
                    &&& r is Ok && mf == m6
                    &&& only_actions_changed(e6, ef)
                    &&& ef.actions@ == e6.actions@ + (if e6.timestamp > m6.entry_close_time {
                        seq![EffectAction::CloseEntry]
                    } else {
                        Seq::empty()
                    }).push(EffectAction::Checkpoint)
                }
            }
        }
    }
}

/// Table `t` has a free seat and some players, and the fewest players of
/// such tables; the first by id among those with as few.
pub open spec fn is_sparsest(tables: Map<usize, MttTableState>, pending: Map<u64, usize>, size: u8, t: usize) -> bool {
    &&& tables.contains_key(t)
    &&& 0 < count_in(tables, pending, t) < size
    &&& forall|u: usize| #[trigger] tables.contains_key(u) && 0 < count_in(tables, pending, u)
        ==> count_in(tables, pending, t) <= count_in(tables, pending, u)
    &&& forall|u: usize| #[trigger] tables.contains_key(u) && u < t && 0 < count_in(tables, pending, u)
        ==> count_in(tables, pending, t) < count_in(tables, pending, u)
}

/// The sparsest table with a free seat and some players, if any.
pub open spec fn sparsest(tables: Map<usize, MttTableState>, pending: Map<u64, usize>, size: u8) -> Option<usize> {
    if exists|t: usize| is_sparsest(tables, pending, size, t) {
        Some(choose|t: usize| is_sparsest(tables, pending, size, t))
    } else {
        None
    }
}

/// There is at most one sparsest table.
proof fn lemma_sparsest_unique(tables: Map<usize, MttTableState>, pending: Map<u64, usize>, size: u8, a: usize, b: usize)
    requires
        is_sparsest(tables, pending, size, a),
        is_sparsest(tables, pending, size, b),
    ensures
        a == b,
{
    if a < b {
        assert(tables.contains_key(a));
    } else if b < a {
        assert(tables.contains_key(b));
    }
}

/// The state of seating players one by one: where the players sent to
/// tables go, the players sitting in at each existing table, the new
/// tables (id and players), the id of the next new table.
pub struct SeatRun {
    pub pend: Map<u64, usize>,
    pub groups: Map<usize, Seq<MttTableSitin>>,
    pub launch: Seq<(usize, Seq<MttTablePlayer>)>,
    pub next_id: usize,
    pub err: Option<GameError>,
}

/// How rank `r` sits in at an existing table.
pub open spec fn rank_sitin(r: PlayerRank) -> MttTableSitin {
    MttTableSitin { id: r.id, chips: r.chips, time_cards: crate::mtt_base::MTT_DEFAULT_TIME_CARDS, first_time_sit: true }
}

/// The players sitting in at table `t` so far.
pub open spec fn group_of(groups: Map<usize, Seq<MttTableSitin>>, t: usize) -> Seq<MttTableSitin> {
    if groups.contains_key(t) {
        groups[t]
    } else {
        Seq::empty()
    }
}

/// Seating one player: sent to the sparsest table with a free seat, else
/// added to the last new table while it has a free seat, else at a new
/// table of its own; refused for a player without a rank.
pub open spec fn seat_step(tables: Map<usize, MttTableState>, ranks: Seq<PlayerRank>, size: u8, st: SeatRun, pid: u64) -> SeatRun {
    let k = first_rank(ranks, pid, 0);
    if st.err is Some {
        st
    } else if k >= ranks.len() {
        SeatRun { err: Some(GameError::PlayerIdNotFound), ..st }
    } else {
        let rank = ranks[k];
        match sparsest(tables, st.pend, size) {
            Some(tid) => SeatRun {
                groups: st.groups.insert(tid, group_of(st.groups, tid).push(rank_sitin(rank))),
                pend: st.pend.insert(rank.id, tid),
                ..st
            },
            None => if st.launch.len() > 0 && st.launch.last().1.len() < size {
                let last = st.launch.last();
                let seat = MttTablePlayer {
                    id: rank.id,
                    chips: rank.chips,
                    position: last.1.len() as u8,
                    time_cards: crate::mtt_base::MTT_DEFAULT_TIME_CARDS,
                };
                SeatRun { launch: st.launch.update(st.launch.len() - 1, (last.0, last.1.push(seat))), ..st }
            } else if st.next_id == usize::MAX {
                SeatRun { err: Some(GameError::InternalAmountOverflow), ..st }
            } else {
                let seat = MttTablePlayer {
                    id: rank.id,
                    chips: rank.chips,
                    position: 0,
                    time_cards: crate::mtt_base::MTT_DEFAULT_TIME_CARDS,
                };
                SeatRun { launch: st.launch.push((st.next_id, seq![seat])), next_id: (st.next_id + 1) as usize, ..st }
            },
        }
    }
}

/// Seating the players `ids` one after the other.
pub open spec fn seat_run(tables: Map<usize, MttTableState>, ranks: Seq<PlayerRank>, size: u8, st: SeatRun, ids: Seq<u64>) -> SeatRun
    decreases ids.len(),
{
    if ids.len() == 0 {
        st
    } else {
        seat_step(tables, ranks, size, seat_run(tables, ranks, size, st, ids.drop_last()), ids.last())
    }
}

/// Once refused, seating more players keeps the refusal.
proof fn lemma_seat_run_err(tables: Map<usize, MttTableState>, ranks: Seq<PlayerRank>, size: u8, st: SeatRun, ids: Seq<u64>, n: int)
    requires
        0 < n <= ids.len(),
        seat_run(tables, ranks, size, st, ids.take(n)).err is Some,
    ensures
        seat_run(tables, ranks, size, st, ids) == seat_run(tables, ranks, size, st, ids.take(n)),
    decreases ids.len() - n,
{
    if n < ids.len() {
        assert(ids.take(n + 1).drop_last() =~= ids.take(n));
        lemma_seat_run_err(tables, ranks, size, st, ids, n + 1);
    } else {
        assert(ids.take(n) =~= ids);
    }
}

/// The command seats the players `group` at table `t`.
pub open spec fn sits_group(a: EffectAction, t: usize, group: Seq<MttTableSitin>) -> bool {
    a matches EffectAction::Bridge { dest, event: HoldemBridgeEvent::SitinPlayers { sitins } } && dest == t && sitins@ == group
}

/// The command launches the new table `nt` with blinds `sb`/`bb`.
pub open spec fn launches_seated(a: EffectAction, nt: (usize, Seq<MttTablePlayer>), sb: u64, bb: u64) -> bool {
    a matches EffectAction::LaunchSubGame { table } && {
        &&& table.table_id == nt.0 && table.players@ == nt.1
        &&& table.sb == sb && table.bb == bb && table.ante == 0
        &&& table.btn == 0 && table.hand_id == 0 && table.next_game_start == 0
    }
}

/// Seating players once the tournament has started, with the blinds of
/// the level: refused without them, or when seating refuses a player;
/// otherwise the players sent to existing tables wait for their seats,
/// one event per such table is sent, by table id, with its players in the
/// order they were seated, then the new tables are launched in the order
/// they were made.
pub open spec fn seated_as_run(m0: Mtt, e0: Effect, ids: Seq<u64>, r: Result<(), GameError>, m1: Mtt, e1: Effect) -> bool {
    match level_blinds(m0.blind_info, m0.time_elapsed) {
        None => r == Err::<(), GameError>(
            if blind_level(m0.blind_info, m0.time_elapsed) is None {
                GameError::EmptyBlindRules
            } else {
                GameError::InternalAmountOverflow
            },
        ),
        Some((sb, bb)) => {
            let st0 = SeatRun {
                pend: m0.table_assigns_pending@,
                groups: Map::empty(),
                launch: Seq::empty(),
                next_id: e0.next_sub_game_id,
                err: None,
            };
            let st = seat_run(m0.tables@, m0.ranks@, m0.table_size, st0, ids);
            match st.err {
                Some(e) => r == Err::<(), GameError>(e),
                None => {
                    let tids = index_key_seq(st.groups);
                    let n0 = e0.actions@.len() as int;
                    let nb = tids.len() as int;
                    &&& r is Ok
                    &&& m1.table_assigns_pending@ == st.pend
                    &&& m1 == (Mtt { table_assigns_pending: m1.table_assigns_pending, ..m0 })
                    &&& crate::effect::same_context(e0, e1) && e1.next_sub_game_id == st.next_id
                    &&& e1.actions@.len() == n0 + nb + st.launch.len()
                    &&& e1.actions@.take(n0) == e0.actions@
                    &&& forall|q: int| 0 <= q < nb ==> sits_group(#[trigger] e1.actions@[n0 + q], tids[q], st.groups[tids[q]])
                    &&& forall|k: int| 0 <= k < st.launch.len() ==> launches_seated(#[trigger] e1.actions@[n0 + nb + k], st.launch[k], sb, bb)
                },
            }
        },
    }
}

impl Mtt {
    /// Seat players once the tournament has started: each goes to the
    /// sparsest table that has a free seat, else to the table just
    /// created for the players seated before, else to a new table.  The
    /// players sitting in at each table are sent in one event, by table id;
    /// then the new tables are launched.
    #[verifier::rlimit(40)]
    pub fn sit_players(&mut self, effect: &mut Effect, player_ids: &Vec<u64>) -> (r: Result<(), GameError>)
        requires
            old(self).stage != MttStage::Init ==> old(self).blind_info.blind_interval > 0,
        ensures
            old(self).stage == MttStage::Init ==> r is Ok && *final(self) == *old(self) && *final(effect) == *old(effect),
            old(self).stage != MttStage::Init ==> {
                &&& blind_level(old(self).blind_info, old(self).time_elapsed) is None ==> r == Err::<(), GameError>(GameError::EmptyBlindRules)
                &&& (exists|j: int| 0 <= j < player_ids@.len() && !has_rank(old(self).ranks@, #[trigger] player_ids@[j]))
                    && blind_level(old(self).blind_info, old(self).time_elapsed) is Some ==> r is Err
                &&& r is Ok ==> {
                    &&& *final(self) == (Mtt { table_assigns_pending: final(self).table_assigns_pending, ..*old(self) })
                    &&& final(effect).timestamp == old(effect).timestamp
                    &&& final(effect).nodes_count == old(effect).nodes_count
                    &&& final(effect).revealed@ == old(effect).revealed@
                    &&& final(effect).next_random_id == old(effect).next_random_id
                    &&& final(effect).actions@.len() >= old(effect).actions@.len()
                    &&& final(effect).actions@.take(old(effect).actions@.len() as int) == old(effect).actions@
                    &&& forall|k: u64| #[trigger] old(self).table_assigns_pending@.contains_key(k) ==> final(self).table_assigns_pending@.contains_key(k)
                    &&& forall|j: int| 0 <= j < player_ids@.len() ==> final(self).table_assigns_pending@.contains_key(#[trigger] player_ids@[j])
                        || launched_with(final(effect).actions@, player_ids@[j])
                    &&& exists|sb: u64, bb: u64| level_blinds(old(self).blind_info, old(self).time_elapsed) == Some((sb, bb)) && forall|k: int|
                        old(effect).actions@.len() <= k < final(effect).actions@.len() ==> seating_action(
                            #[trigger] final(effect).actions@[k], old(self).tables@, sb, bb, old(self).table_size)
                }
            },
            old(self).stage != MttStage::Init ==> seated_as_run(*old(self), *old(effect), player_ids@, r, *final(self), *final(effect)),
    {
        if self.stage == MttStage::Init {
            return Ok(());
        }
        let (sb, bb) = match self.calc_blinds() {
            Ok(b) => b,
            Err(e) => {
                return Err(e);
            },
        };
        let mut sitins_by_table: BTreeMap<usize, Vec<MttTableSitin>> = BTreeMap::new();
        let mut to_launch: Vec<MttTableState> = Vec::new();
        let ghost m0 = *self;
        let ghost e0 = *effect;
        let ghost st0 = SeatRun {
            pend: m0.table_assigns_pending@,
            groups: Map::empty(),
            launch: Seq::empty(),
            next_id: e0.next_sub_game_id,
            err: None,
        };
        proof {
            assert(player_ids@.take(0) =~= Seq::<u64>::empty());
            assert(sitins_by_table@.dom() =~= st0.groups.dom());
        }
        let mut i: usize = 0;
        while i < player_ids.len()
            invariant
                m0 == *old(self),
                e0 == *old(effect),
                old(self).stage != MttStage::Init,
                level_blinds(old(self).blind_info, old(self).time_elapsed) == Some((sb, bb)),
                i <= player_ids@.len(),
                *self == (Mtt { table_assigns_pending: self.table_assigns_pending, ..m0 }),
                *effect == (Effect { next_sub_game_id: effect.next_sub_game_id, ..e0 }),
                forall|k: u64| #[trigger] m0.table_assigns_pending@.contains_key(k) ==> self.table_assigns_pending@.contains_key(k),
                forall|t: usize| #[trigger] sitins_by_table@.contains_key(t) ==> m0.tables@.contains_key(t),
                forall|q: int| 0 <= q < to_launch@.len() ==> {
                    let t = #[trigger] to_launch@[q];
                    &&& t.sb == sb && t.bb == bb
                    &&& 1 <= t.players@.len()
                    &&& t.players@.len() <= m0.table_size || t.players@.len() == 1
                },
                forall|j: int| 0 <= j < i ==> self.table_assigns_pending@.contains_key(#[trigger] player_ids@[j])
                    || exists|q: int, p: int| 0 <= q < to_launch@.len() && 0 <= p < to_launch@[q].players@.len()
                        && to_launch@[q].players@[p].id == player_ids@[j],
                forall|j: int| 0 <= j < i ==> has_rank(m0.ranks@, #[trigger] player_ids@[j]),
                st0 == (SeatRun {
                    pend: m0.table_assigns_pending@,
                    groups: Map::empty(),
                    launch: Seq::empty(),
                    next_id: e0.next_sub_game_id,
                    err: None,
                }),
                ({
                    let st = seat_run(m0.tables@, m0.ranks@, m0.table_size, st0, player_ids@.take(i as int));
                    &&& st.err is None
                    &&& self.table_assigns_pending@ == st.pend
                    &&& sitins_by_table@.dom() == st.groups.dom()
                    &&& forall|t: usize| #[trigger] sitins_by_table@.contains_key(t) ==> sitins_by_table@[t]@ == st.groups[t]
                    &&& to_launch@.len() == st.launch.len()
                    &&& forall|q: int| 0 <= q < to_launch@.len() ==> {
                        &&& (#[trigger] to_launch@[q]).table_id == st.launch[q].0 && to_launch@[q].players@ == st.launch[q].1
                        &&& to_launch@[q].ante == 0 && to_launch@[q].btn == 0 && to_launch@[q].hand_id == 0
                        &&& to_launch@[q].next_game_start == 0
                    }
                    &&& effect.next_sub_game_id == st.next_id
                }),
            decreases player_ids@.len() - i,
        {
            let pid = player_ids[i];
            let ghost st_i = seat_run(m0.tables@, m0.ranks@, m0.table_size, st0, player_ids@.take(i as int));
            proof {
                assert(player_ids@.take(i + 1).drop_last() =~= player_ids@.take(i as int));
                assert(player_ids@.take(i + 1).last() == pid);
            }
            let table_to_sit = self.find_sparse_non_empty_table();
            proof {
                match table_to_sit {
                    Some(t) => {
                        assert(is_sparsest(m0.tables@, self.table_assigns_pending@, m0.table_size, t));
                        let c = choose|c: usize| is_sparsest(m0.tables@, self.table_assigns_pending@, m0.table_size, c);
                        lemma_sparsest_unique(m0.tables@, self.table_assigns_pending@, m0.table_size, c, t);
                        assert(sparsest(m0.tables@, st_i.pend, m0.table_size) == Some(t));
                    },
                    None => {
                        assert forall|c: usize| !is_sparsest(m0.tables@, self.table_assigns_pending@, m0.table_size, c) by {
                            if is_sparsest(m0.tables@, self.table_assigns_pending@, m0.table_size, c) {
                                assert(self.tables@.contains_key(c));
                            }
                        }
                        assert(sparsest(m0.tables@, st_i.pend, m0.table_size) is None);
                    },
                }
            }
            let k = match self.rank_index(pid) {
                Some(k) => k,
                None => {
                    proof {
                        lemma_first_rank(m0.ranks@, pid, 0, m0.ranks@.len() as int);
                        lemma_seat_run_err(m0.tables@, m0.ranks@, m0.table_size, st0, player_ids@, i + 1);
                    }
                    return Err(GameError::PlayerIdNotFound);
                },
            };
            proof {
                lemma_first_rank(m0.ranks@, pid, 0, k as int);
            }
            let rank = self.ranks[k];
            let ghost tl0 = to_launch@;
            let ghost pend0 = self.table_assigns_pending@;
            let n_launch = to_launch.len();
            let fits_last = n_launch > 0 && to_launch[n_launch - 1].players.len() < self.table_size as usize;
            match table_to_sit {
                Some(tid) => {
                    let sitin = MttTableSitin::new_with_defaults(rank.id, rank.chips);
                    let mut list = match sitins_by_table.remove(&tid) {
                        Some(l) => l,
                        None => Vec::new(),
                    };
                    list.push(sitin);
                    sitins_by_table.insert(tid, list);
                    self.table_assigns_pending.insert(rank.id, tid);
                    proof {
                        let st1 = seat_run(m0.tables@, m0.ranks@, m0.table_size, st0, player_ids@.take(i + 1));
                        assert(sitins_by_table@.dom() =~= st1.groups.dom());
                        assert forall|t: usize| #[trigger] sitins_by_table@.contains_key(t) implies sitins_by_table@[t]@ == st1.groups[t] by {
                            if t == tid {
                                assert(sitins_by_table@[t]@ =~= group_of(st_i.groups, tid).push(rank_sitin(rank)));
                            }
                        }
                    }
                },
                None => {
                    if fits_last {
                        let mut t = to_launch.pop().unwrap();
                        let ghost tp0 = t.players@;
                        let position = t.players.len() as u8;
                        t.players.push(MttTablePlayer::new_with_defaults(rank.id, rank.chips, position));
                        to_launch.push(t);
                        proof {
                            let st1 = seat_run(m0.tables@, m0.ranks@, m0.table_size, st0, player_ids@.take(i + 1));
                            let lastq = tl0.len() - 1;
                            assert(to_launch@[lastq].players@ =~= st1.launch[lastq].1);
                            assert forall|q: int| 0 <= q < to_launch@.len() implies {
                                &&& (#[trigger] to_launch@[q]).table_id == st1.launch[q].0 && to_launch@[q].players@ == st1.launch[q].1
                                &&& to_launch@[q].ante == 0 && to_launch@[q].btn == 0 && to_launch@[q].hand_id == 0
                                &&& to_launch@[q].next_game_start == 0
                            } by {
                                if q < lastq {
                                    assert(to_launch@[q] == tl0[q]);
                                }
                            }
                            let last = tl0.len() - 1;
                            assert(tl0[last].players@ == tp0);
                            assert(to_launch@[last].players@.len() == tp0.len() + 1);
                            assert(forall|p: int| 0 <= p < tp0.len() ==> to_launch@[last].players@[p] == tp0[p]);
                            assert(to_launch@[last].players@[tp0.len() as int].id == rank.id);
                            assert forall|j: int| 0 <= j < i + 1 implies self.table_assigns_pending@.contains_key(#[trigger] player_ids@[j])
                                || exists|q: int, p: int| 0 <= q < to_launch@.len() && 0 <= p < to_launch@[q].players@.len()
                                    && to_launch@[q].players@[p].id == player_ids@[j] by {
                                if j == i {
                                    assert(to_launch@[last].players@[tp0.len() as int].id == player_ids@[j]);
                                } else if !self.table_assigns_pending@.contains_key(player_ids@[j]) {
                                    let (q, p) = choose|q: int, p: int| 0 <= q < tl0.len() && 0 <= p < tl0[q].players@.len()
                                        && tl0[q].players@[p].id == player_ids@[j];
                                    if q == last {
                                        assert(to_launch@[q].players@[p] == tl0[q].players@[p]);
                                    } else {
                                        assert(to_launch@[q] == tl0[q]);
                                    }
                                }
                            }
                        }
                    } else {
                        if effect.next_sub_game_id == usize::MAX {
                            proof {
                                if tl0.len() > 0 {
                                    assert(tl0[tl0.len() - 1].players@ == st_i.launch.last().1);
                                }
                                lemma_seat_run_err(m0.tables@, m0.ranks@, m0.table_size, st0, player_ids@, i + 1);
                            }
                            return Err(GameError::InternalAmountOverflow);
                        }
                        let table_id = effect.next_sub_game_id();
                        let mut players: Vec<MttTablePlayer> = Vec::new();
                        players.push(MttTablePlayer::new_with_defaults(rank.id, rank.chips, 0));
                        let nt = MttTableState::new(table_id, sb, bb, 0, players);
                        to_launch.push(nt);
                        proof {
                            let st1 = seat_run(m0.tables@, m0.ranks@, m0.table_size, st0, player_ids@.take(i + 1));
                            assert(to_launch@[tl0.len() as int].players@ =~= st1.launch[tl0.len() as int].1);
                            assert forall|q: int| 0 <= q < to_launch@.len() implies {
                                &&& (#[trigger] to_launch@[q]).table_id == st1.launch[q].0 && to_launch@[q].players@ == st1.launch[q].1
                                &&& to_launch@[q].ante == 0 && to_launch@[q].btn == 0 && to_launch@[q].hand_id == 0
                                &&& to_launch@[q].next_game_start == 0
                            } by {
                                if q < tl0.len() {
                                    assert(to_launch@[q] == tl0[q]);
                                }
                            }
                            assert forall|j: int| 0 <= j < i + 1 implies self.table_assigns_pending@.contains_key(#[trigger] player_ids@[j])
                                || exists|q: int, p: int| 0 <= q < to_launch@.len() && 0 <= p < to_launch@[q].players@.len()
                                    && to_launch@[q].players@[p].id == player_ids@[j] by {
                                if j == i {
                                    assert(to_launch@[tl0.len() as int].players@[0].id == player_ids@[j]);
                                } else if !self.table_assigns_pending@.contains_key(player_ids@[j]) {
                                    let (q, p) = choose|q: int, p: int| 0 <= q < tl0.len() && 0 <= p < tl0[q].players@.len()
                                        && tl0[q].players@[p].id == player_ids@[j];
                                    assert(to_launch@[q] == tl0[q]);
                                }
                            }
                        }
                    }
                },
            }
            i = i + 1;
        }
        let ghost mid_pending = self.table_assigns_pending@;
        let ghost a0 = effect.actions@;
        let ghost stf = seat_run(m0.tables@, m0.ranks@, m0.table_size, st0, player_ids@);
        proof {
            assert(player_ids@.take(player_ids@.len() as int) =~= player_ids@);
        }
        let ghost g0 = sitins_by_table@;
        let ghost launch0 = to_launch@;
        let tids = sorted_index_keys(&sitins_by_table);
        proof {
            crate::keys::lemma_index_key_seq(stf.groups, tids@);
        }
        assert forall|j: int| 0 <= j < tids@.len() implies m0.tables@.contains_key(#[trigger] tids@[j]) by {
            assert(tids@.to_set().contains(tids@[j]));
        }
        let mut t: usize = 0;
        while t < tids.len()
            invariant
                m0 == *old(self),
                e0 == *old(effect),
                level_blinds(old(self).blind_info, old(self).time_elapsed) == Some((sb, bb)),
                *self == (Mtt { table_assigns_pending: self.table_assigns_pending, ..m0 }),
                self.table_assigns_pending@ == mid_pending,
                effect.timestamp == e0.timestamp && effect.nodes_count == e0.nodes_count,
                effect.revealed@ == e0.revealed@ && effect.next_random_id == e0.next_random_id,
                a0 == e0.actions@,
                effect.actions@.len() == a0.len() + t,
                effect.actions@.take(a0.len() as int) == a0,
                forall|k: int| a0.len() <= k < effect.actions@.len() ==> seating_action(
                    #[trigger] effect.actions@[k], m0.tables@, sb, bb, m0.table_size),
                forall|u: usize| #[trigger] sitins_by_table@.contains_key(u) ==> m0.tables@.contains_key(u),
                tids@.to_set() == sitins_by_table@.dom() || t > 0,
                t <= tids@.len(),
                forall|j: int| 0 <= j < tids@.len() ==> m0.tables@.contains_key(#[trigger] tids@[j]),
                stf == seat_run(m0.tables@, m0.ranks@, m0.table_size, st0, player_ids@),
                stf.err is None,
                tids@ == index_key_seq(stf.groups),
                tids@.to_set() == g0.dom(),
                strictly_increasing_ix(tids@),
                g0.dom() == stf.groups.dom(),
                forall|u: usize| #[trigger] g0.contains_key(u) ==> g0[u]@ == stf.groups[u],
                forall|q: int| t <= q < tids@.len() ==> sitins_by_table@.contains_key(#[trigger] tids@[q])
                    && sitins_by_table@[tids@[q]] == g0[tids@[q]],
                forall|q: int| 0 <= q < t ==> sits_group(#[trigger] effect.actions@[a0.len() + q], tids@[q], stf.groups[tids@[q]]),
                effect.next_sub_game_id == stf.next_id,
                to_launch@ == launch0,
            decreases tids@.len() - t,
        {
            let tid = tids[t];
            assert(tids@.to_set().contains(tid));
            let ghost sb0 = sitins_by_table@;
            let list = match sitins_by_table.remove(&tid) {
                Some(l) => l,
                None => Vec::new(),
            };
            let ghost before = effect.actions@;
            effect.push(EffectAction::Bridge { dest: tid, event: HoldemBridgeEvent::SitinPlayers { sitins: list } });
            assert(effect.actions@.take(a0.len() as int) =~= a0);
            proof {
                assert forall|q: int| 0 <= q < t + 1 implies sits_group(#[trigger] effect.actions@[a0.len() + q], tids@[q], stf.groups[tids@[q]]) by {
                    if q < t {
                        assert(effect.actions@[a0.len() + q] == before[a0.len() + q]);
                    }
                }
                assert forall|q: int| t + 1 <= q < tids@.len() implies sitins_by_table@.contains_key(#[trigger] tids@[q])
                    && sitins_by_table@[tids@[q]] == g0[tids@[q]] by {
                    assert(tids@[q] != tid);
                    assert(sb0.contains_key(tids@[q]));
                }
            }
            t = t + 1;
        }
        let ghost a1 = effect.actions@;
        let ghost launch = to_launch@;
        let n = to_launch.len();
        let mut q: usize = 0;
        while q < n
            invariant
                m0 == *old(self),
                e0 == *old(effect),
                level_blinds(old(self).blind_info, old(self).time_elapsed) == Some((sb, bb)),
                *self == (Mtt { table_assigns_pending: self.table_assigns_pending, ..m0 }),
                effect.timestamp == e0.timestamp && effect.nodes_count == e0.nodes_count,
                effect.revealed@ == e0.revealed@ && effect.next_random_id == e0.next_random_id,
                effect.actions@.take(e0.actions@.len() as int) == e0.actions@,
                a1.len() >= e0.actions@.len(),
                effect.actions@.len() == a1.len() + q,
                effect.actions@.take(a1.len() as int) == a1,
                forall|k: int| e0.actions@.len() <= k < effect.actions@.len() ==> seating_action(
                    #[trigger] effect.actions@[k], m0.tables@, sb, bb, m0.table_size),
                n == launch.len(),
                q <= n,
                to_launch@ == launch.skip(q as int),
                forall|k: int| 0 <= k < q ==> effect.actions@[a1.len() + k] == (EffectAction::LaunchSubGame { table: #[trigger] launch[k] }),
                forall|k: int| 0 <= k < launch.len() ==> {
                    let tb = #[trigger] launch[k];
                    &&& tb.sb == sb && tb.bb == bb
                    &&& 1 <= tb.players@.len()
                    &&& tb.players@.len() <= m0.table_size || tb.players@.len() == 1
                },
                stf == seat_run(m0.tables@, m0.ranks@, m0.table_size, st0, player_ids@),
                stf.err is None,
                launch == launch0,
                launch.len() == stf.launch.len(),
                forall|k: int| 0 <= k < launch.len() ==> {
                    &&& (#[trigger] launch[k]).table_id == stf.launch[k].0 && launch[k].players@ == stf.launch[k].1
                    &&& launch[k].ante == 0 && launch[k].btn == 0 && launch[k].hand_id == 0 && launch[k].next_game_start == 0
                },
                effect.next_sub_game_id == stf.next_id,
                a1.len() == a0.len() + tids@.len(),
                a1.take(a0.len() as int) == a0,
                a0 == e0.actions@,
                tids@ == index_key_seq(stf.groups),
                forall|q: int| 0 <= q < tids@.len() ==> sits_group(#[trigger] a1[a0.len() + q], tids@[q], stf.groups[tids@[q]]),
            decreases n - q,
        {
            let table = to_launch.remove(0);
            assert(table == launch[q as int]);
            self.launch_table(effect, table);
            assert(to_launch@ =~= launch.skip(q + 1));
            assert(effect.actions@.take(a1.len() as int) =~= a1);
            assert(effect.actions@.take(e0.actions@.len() as int) =~= e0.actions@);
            q = q + 1;
        }
        proof {
            let e1 = effect.actions@;
            assert forall|qq: int| 0 <= qq < tids@.len() implies sits_group(#[trigger] e1[a0.len() + qq], tids@[qq], stf.groups[tids@[qq]]) by {
                assert(e1[a0.len() + qq] == e1.take(a1.len() as int)[a0.len() + qq]);
            }
            assert forall|k: int| 0 <= k < stf.launch.len() implies launches_seated(#[trigger] e1[a0.len() + tids@.len() + k], stf.launch[k], sb, bb) by {
                assert(e1[a1.len() + k] == (EffectAction::LaunchSubGame { table: launch[k] }));
            }
            assert(e1.take(a0.len() as int) =~= e1.take(a1.len() as int).take(a0.len() as int));
        }
        Ok(())
    }
}

/// The players of a new table from the `j`-th rank on, taking every
/// `nt`-th: seated from seat `q` on, in that order.
pub open spec fn spread_from(rs: Seq<PlayerRank>, nt: int, j: int, q: int) -> Seq<MttTablePlayer>
    decreases rs.len() - j,
{
    if nt <= 0 || j < 0 || j >= rs.len() {
        Seq::empty()
    } else {
        seq![
            MttTablePlayer {
                id: rs[j].id,
                chips: rs[j].chips,
                position: q as u8,
                time_cards: crate::mtt_base::MTT_DEFAULT_TIME_CARDS,
            },
        ] + if j + nt < rs.len() {
            spread_from(rs, nt, j + nt, q + 1)
        } else {
            Seq::empty()
        }
    }
}

/// The players of the `i`-th of `nt` new tables: every `nt`-th rank from
/// the `i`-th on.
pub open spec fn spread(rs: Seq<PlayerRank>, nt: int, i: int) -> Seq<MttTablePlayer> {
    spread_from(rs, nt, i, 0)
}

/// The number of tables for `n` players at tables of `table_size` seats.
pub open spec fn tables_needed(n: int, table_size: int) -> int {
    (table_size + n - 1) / table_size
}

/// The command launches the `i`-th new table of the tournament's start:
/// the next table id, the blinds of the level, the `i`-th spread of the
/// ranking.
pub open spec fn launches_start_table(a: EffectAction, m: Mtt, first_id: int, nt: int, i: int, sb: u64, bb: u64) -> bool {
    a matches EffectAction::LaunchSubGame { table } && {
        &&& table.table_id == first_id + i
        &&& table.sb == sb && table.bb == bb && table.ante == 0
        &&& table.btn == 0 && table.hand_id == 0 && table.next_game_start == 0
        &&& table.players@ == spread(m.ranks@, nt, i)
    }
}

impl Mtt {
    /// Spread the players over new tables at the start: every `n`-th
    /// player of the ranking at the same table, `n` being the number of
    /// tables needed; then launch the tables.
    #[verifier::rlimit(40)]
    pub fn create_tables(&mut self, effect: &mut Effect) -> (r: Result<(), GameError>)
        requires
            old(self).table_size > 0,
            old(self).blind_info.blind_interval > 0,
        ensures
            ({
                let n = old(self).ranks@.len() as int;
                let nt = tables_needed(n, old(self).table_size as int);
                &&& level_blinds(old(self).blind_info, old(self).time_elapsed) is None && nt > 0 ==> r is Err
                &&& n + old(self).table_size > usize::MAX ==> r == Err::<(), GameError>(GameError::InternalAmountOverflow)
                &&& n + old(self).table_size <= usize::MAX && nt > 0 && old(effect).next_sub_game_id + nt > usize::MAX
                    ==> r == Err::<(), GameError>(GameError::InternalAmountOverflow)
                &&& n + old(self).table_size <= usize::MAX && (nt > 0 ==> old(effect).next_sub_game_id + nt <= usize::MAX)
                    ==> (r is Ok <==> (nt == 0 || level_blinds(old(self).blind_info, old(self).time_elapsed) is Some))
                &&& r is Err && n + old(self).table_size <= usize::MAX && (nt > 0 ==> old(effect).next_sub_game_id + nt <= usize::MAX)
                    ==> r == Err::<(), GameError>(match blind_level(old(self).blind_info, old(self).time_elapsed) {
                        None => GameError::EmptyBlindRules,
                        Some(_) => GameError::InternalAmountOverflow,
                    })
                &&& r is Ok ==> {
                    &&& final(self).ranks@ == old(self).ranks@
                    &&& final(self).tables@ == old(self).tables@
                    &&& final(self).in_the_money == (old(self).in_the_money || old(self).alives <= old(self).prize_rules@.len())
                    &&& *final(self) == (Mtt { table_assigns: final(self).table_assigns, in_the_money: final(self).in_the_money, ..*old(self) })
                    &&& forall|i: int, p: int| 0 <= i < nt && 0 <= p < spread(old(self).ranks@, nt, i).len()
                        ==> final(self).table_assigns@.contains_key(#[trigger] spread(old(self).ranks@, nt, i)[p].id)
                    &&& forall|id: u64| #[trigger] final(self).table_assigns@.contains_key(id) ==> old(self).table_assigns@.contains_key(id) || has_rank(old(self).ranks@, id)
                    &&& final(effect).timestamp == old(effect).timestamp && final(effect).nodes_count == old(effect).nodes_count
                    &&& final(effect).revealed@ == old(effect).revealed@ && final(effect).next_random_id == old(effect).next_random_id
                    &&& final(effect).next_sub_game_id == old(effect).next_sub_game_id + nt
                    &&& final(effect).actions@.len() == old(effect).actions@.len() + nt
                    &&& final(effect).actions@.take(old(effect).actions@.len() as int) == old(effect).actions@
                    &&& nt > 0 ==> exists|sb: u64, bb: u64| level_blinds(old(self).blind_info, old(self).time_elapsed) == Some((sb, bb))
                        && forall|i: int| 0 <= i < nt ==> launches_start_table(
                            #[trigger] final(effect).actions@[old(effect).actions@.len() + i], *old(self),
                            old(effect).next_sub_game_id as int, nt, i, sb, bb)
                }
            }),
    {
        let n = self.ranks.len();
        let ts = self.table_size as usize;
        if n > usize::MAX - ts {
            return Err(GameError::InternalAmountOverflow);
        }
        let nt: usize = (ts + n - 1) / ts;
        if nt > 0 && effect.next_sub_game_id > usize::MAX - nt {
            return Err(GameError::InternalAmountOverflow);
        }
        let ghost m0 = *self;
        let ghost e0 = *effect;
        let mut blinds: (u64, u64) = (0, 0);
        let mut i: usize = 0;
        while i < nt
            invariant
                m0 == *old(self),
                e0 == *old(effect),
                n == m0.ranks@.len(),
                ts == m0.table_size && ts > 0,
                nt == tables_needed(n as int, ts as int),
                nt > 0 ==> e0.next_sub_game_id + nt <= usize::MAX,
                n + ts <= usize::MAX,
                m0.blind_info.blind_interval > 0,
                i <= nt,
                i > 0 ==> level_blinds(m0.blind_info, m0.time_elapsed) == Some(blinds),
                *self == (Mtt { table_assigns: self.table_assigns, ..m0 }),
                effect.timestamp == e0.timestamp && effect.nodes_count == e0.nodes_count,
                effect.revealed@ == e0.revealed@ && effect.next_random_id == e0.next_random_id,
                effect.next_sub_game_id == e0.next_sub_game_id + i,
                effect.actions@.len() == e0.actions@.len() + i,
                effect.actions@.take(e0.actions@.len() as int) == e0.actions@,
                forall|q: int| 0 <= q < i ==> launches_start_table(
                    #[trigger] effect.actions@[e0.actions@.len() + q], m0, e0.next_sub_game_id as int, nt as int, q, blinds.0, blinds.1),
                forall|q: int, p: int| 0 <= q < i && 0 <= p < spread(m0.ranks@, nt as int, q).len()
                    ==> self.table_assigns@.contains_key(#[trigger] spread(m0.ranks@, nt as int, q)[p].id),
                forall|id: u64| #[trigger] self.table_assigns@.contains_key(id) ==> m0.table_assigns@.contains_key(id) || has_rank(m0.ranks@, id),
            decreases nt - i,
        {
            let mut players: Vec<MttTablePlayer> = Vec::new();
            let mut j: usize = i;
            let mut q: usize = 0;
            let table_id = i + 1;
            let ghost sp = spread(m0.ranks@, nt as int, i as int);
            let ghost assigns0 = self.table_assigns@;
            while j < n
                invariant
                    m0 == *old(self),
                    n == m0.ranks@.len(),
                    nt > 0,
                    i < nt,
                    table_id == i + 1,
                    q <= j,
                    sp == spread(m0.ranks@, nt as int, i as int),
                    players@ + spread_from(m0.ranks@, nt as int, j as int, q as int) == sp,
                    players@.len() == q,
                    *self == (Mtt { table_assigns: self.table_assigns, ..m0 }),
                    forall|p: int| 0 <= p < q ==> self.table_assigns@.contains_key(#[trigger] sp[p].id),
                    forall|id: u64| #[trigger] assigns0.contains_key(id) ==> self.table_assigns@.contains_key(id),
                    forall|id: u64| #[trigger] self.table_assigns@.contains_key(id) ==> assigns0.contains_key(id) || has_rank(m0.ranks@, id),
                decreases n - j,
            {
                let r = self.ranks[j];
                let position = q as u8;
                proof {
                    assert(spread_from(m0.ranks@, nt as int, j as int, q as int) == seq![
                        MttTablePlayer { id: r.id, chips: r.chips, position, time_cards: crate::mtt_base::MTT_DEFAULT_TIME_CARDS },
                    ] + spread_from(m0.ranks@, nt as int, j + nt, q + 1));
                    assert(j + nt >= n ==> spread_from(m0.ranks@, nt as int, j + nt, q + 1) == Seq::<MttTablePlayer>::empty());
                }
                players.push(MttTablePlayer::new_with_defaults(r.id, r.chips, position));
                self.table_assigns.insert(r.id, table_id);
                assert(players@ + spread_from(m0.ranks@, nt as int, j + nt, q + 1) =~= sp);
                if nt >= n || j >= n - nt {
                    j = n;
                } else {
                    j = j + nt;
                }
                q = q + 1;
            }
            assert(players@ =~= sp);
            let (sb, bb) = match self.calc_blinds() {
                Ok(b) => b,
                Err(e) => {
                    return Err(e);
                },
            };
            blinds = (sb, bb);
            let id = effect.next_sub_game_id();
            let table = MttTableState {
                table_id: id,
                hand_id: 0,
                btn: 0,
                sb,
                bb,
                ante: 0,
                players,
                next_game_start: 0,
            };
            self.launch_table(effect, table);
            assert(effect.actions@.take(e0.actions@.len() as int) =~= e0.actions@);
            i = i + 1;
        }
        self.maybe_set_in_the_money();
        Ok(())
    }
}

/// The ids of a table's players, in seat order of the table state.
pub open spec fn player_ids_of(ps: Seq<MttTablePlayer>) -> Seq<u64> {
    ps.map_values(|p: MttTablePlayer| p.id)
}

/// The free seats of the tables other than `tid`, when no table is
/// overfull.
pub open spec fn free_seats(tables: Map<usize, MttTableState>, ids: Seq<usize>, tid: usize, table_size: u8) -> int
    decreases ids.len(),
{
    if ids.len() == 0 {
        0
    } else {
        let id = ids.last();
        free_seats(tables, ids.drop_last(), tid, table_size) + if id == tid {
            0
        } else {
            table_size - tables[id].players@.len()
        }
    }
}

/// Without an overfull table, the free seats of some of the tables are no
/// more than those of all of them.
proof fn lemma_free_seats_prefix(tables: Map<usize, MttTableState>, ids: Seq<usize>, tid: usize, table_size: u8, k: int)
    requires
        !overfull(tables, tid, table_size),
        0 <= k <= ids.len(),
        forall|j: int| 0 <= j < ids.len() ==> tables.contains_key(#[trigger] ids[j]),
    ensures
        free_seats(tables, ids.take(k), tid, table_size) <= free_seats(tables, ids, tid, table_size),
    decreases ids.len(),
{
    if k < ids.len() {
        let d = ids.drop_last();
        assert(d.take(k) =~= ids.take(k));
        assert forall|j: int| 0 <= j < d.len() implies tables.contains_key(#[trigger] d[j]) by {
            assert(d[j] == ids[j]);
        }
        lemma_free_seats_prefix(tables, d, tid, table_size, k);
        let id = ids.last();
        assert(tables.contains_key(ids[ids.len() - 1]));
        if id != tid {
            assert(!(tables[id].players@.len() > table_size));
        }
    } else {
        assert(ids.take(k) =~= ids);
    }
}

/// Some table other than `tid` holds more players than seats.
pub open spec fn overfull(tables: Map<usize, MttTableState>, tid: usize, table_size: u8) -> bool {
    exists|id: usize| #[trigger] tables.contains_key(id) && id != tid && tables[id].players@.len() > table_size
}

impl Mtt {
    /// Close a table and seat its players at the other tables.
    pub fn close_table_and_move_players_to_other_tables(&mut self, effect: &mut Effect, close_table_id: usize) -> (r: Result<(), GameError>)
        requires
            old(self).blind_info.blind_interval > 0,
        ensures
            !old(self).tables@.contains_key(close_table_id) ==> r == Err::<(), GameError>(GameError::TableNotFound),
            old(self).tables@.contains_key(close_table_id) && old(self).stage == MttStage::Init ==> r is Ok,
            old(self).tables@.contains_key(close_table_id) && old(self).stage != MttStage::Init ==> exists|mc: Mtt, ec: Effect|
                #[trigger] table_closed(*old(self), *old(effect), close_table_id, mc, ec) && seated_as_run(
                    mc,
                    ec,
                    player_ids_of(old(self).tables@[close_table_id].players@),
                    r,
                    *final(self),
                    *final(effect),
                ),
            r is Ok ==> {
                let moved = player_ids_of(old(self).tables@[close_table_id].players@);
                &&& final(self).tables@ == old(self).tables@.remove(close_table_id)
                &&& forall|id: u64| #[trigger] final(self).table_assigns@.contains_key(id) <==> old(self).table_assigns@.contains_key(id) && !moved.contains(id)
                &&& final(self).ranks@ == old(self).ranks@
                &&& final(self).alives == old(self).alives && final(self).in_the_money == old(self).in_the_money
                &&& final(self).prize_rules@ == old(self).prize_rules@
                &&& final(effect).actions@.len() > old(effect).actions@.len()
                &&& final(effect).actions@[old(effect).actions@.len() as int] == (EffectAction::Bridge { dest: close_table_id, event: HoldemBridgeEvent::CloseTable })
                &&& old(self).stage != MttStage::Init ==> forall|j: int| 0 <= j < moved.len() ==> final(self).table_assigns_pending@.contains_key(#[trigger] moved[j])
                    || launched_with(final(effect).actions@, moved[j])
            },
    {
        let ids: Vec<u64> = match self.tables.get(&close_table_id) {
            Some(t) => {
                let mut v: Vec<u64> = Vec::new();
                let mut i: usize = 0;
                while i < t.players.len()
                    invariant
                        i <= t.players@.len(),
                        v@ == player_ids_of(t.players@.take(i as int)),
                    decreases t.players@.len() - i,
                {
                    v.push(t.players[i].id);
                    assert(v@ =~= player_ids_of(t.players@.take(i + 1)));
                    i = i + 1;
                }
                assert(t.players@.take(i as int) =~= t.players@);
                v
            },
            None => {
                return Err(GameError::TableNotFound);
            },
        };
        let ghost a0 = self.table_assigns@;
        let mut i: usize = 0;
        while i < ids.len()
            invariant
                i <= ids@.len(),
                *self == (Mtt { table_assigns: self.table_assigns, ..*old(self) }),
                forall|id: u64| #[trigger] self.table_assigns@.contains_key(id) <==> a0.contains_key(id) && !ids@.take(i as int).contains(id),
            decreases ids@.len() - i,
        {
            let pid = ids[i];
            self.table_assigns.remove(&pid);
            proof {
                assert forall|id: u64| #[trigger] self.table_assigns@.contains_key(id) <==> a0.contains_key(id) && !ids@.take(i + 1).contains(id) by {
                    assert(ids@.take(i + 1) =~= ids@.take(i as int).push(pid));
                    if ids@.take(i + 1).contains(id) && id != pid {
                        let k = choose|k: int| 0 <= k < i + 1 && #[trigger] ids@.take(i + 1)[k] == id;
                        assert(k < i);
                        assert(ids@.take(i as int)[k] == id);
                    }
                    if ids@.take(i as int).contains(id) {
                        let k = choose|k: int| 0 <= k < i && #[trigger] ids@.take(i as int)[k] == id;
                        assert(ids@.take(i + 1)[k] == id);
                    }
                    if id == pid {
                        assert(ids@.take(i + 1)[i as int] == id);
                    }
                }
            }
            i = i + 1;
        }
        assert(ids@.take(i as int) =~= ids@);
        effect.push(EffectAction::Bridge { dest: close_table_id, event: HoldemBridgeEvent::CloseTable });
        let ghost e1 = *effect;
        self.tables.remove(&close_table_id);
        assert(table_closed(*old(self), *old(effect), close_table_id, *self, *effect));
        let r = self.sit_players(effect, &ids);
        proof {
            if r is Ok && self.stage != MttStage::Init {
                assert(effect.actions@.take(e1.actions@.len() as int)[old(effect).actions@.len() as int] == effect.actions@[old(effect).actions@.len() as int]);
            }
        }
        r
    }
}

/// `mc` is `m0` with table `tid` closed and its players' assignments
/// dropped; `ec` is `e0` with the table told to close.
pub open spec fn table_closed(m0: Mtt, e0: Effect, tid: usize, mc: Mtt, ec: Effect) -> bool {
    let moved = player_ids_of(m0.tables@[tid].players@);
    &&& mc.tables@ == m0.tables@.remove(tid)
    &&& forall|id: u64| #[trigger] mc.table_assigns@.contains_key(id) <==> m0.table_assigns@.contains_key(id) && !moved.contains(id)
    &&& mc == (Mtt { tables: mc.tables, table_assigns: mc.table_assigns, ..m0 })
    &&& only_actions_changed(e0, ec)
    &&& ec.actions@ == e0.actions@.push(EffectAction::Bridge { dest: tid, event: HoldemBridgeEvent::CloseTable })
}

/// The command starts a hand at table `dest` with the blinds of the
/// level, without the players `sitout`.
pub open spec fn starts_hand(a: EffectAction, dest: usize, sb: u64, bb: u64, sitout: Seq<u64>) -> bool {
    a matches EffectAction::Bridge { dest: d, event: HoldemBridgeEvent::StartGame { sb: s, bb: b, ante, sitout_players } }
        && d == dest && s == sb && b == bb && ante == 0 && sitout_players@ == sitout
}

/// The command seats the players `ps` at table `dest`, as first-time
/// players with full time cards.
pub open spec fn sits_in(a: EffectAction, dest: usize, ps: Seq<MttTablePlayer>) -> bool {
    a matches EffectAction::Bridge { dest: d, event: HoldemBridgeEvent::SitinPlayers { sitins } } && d == dest
        && sitins@.len() == ps.len() && forall|k: int| 0 <= k < ps.len() ==> #[trigger] sitins@[k] == (MttTableSitin {
            id: ps[k].id,
            chips: ps[k].chips,
            time_cards: crate::mtt_base::MTT_DEFAULT_TIME_CARDS,
            first_time_sit: true,
        })
}

impl Mtt {
    /// Move the first `num_to_move` players of table `from_table_id` to
    /// table `to_table_id`: the first table starts its next hand without
    /// them, the second seats them.
    pub fn balance_players_between_tables(
        &mut self,
        effect: &mut Effect,
        from_table_id: usize,
        to_table_id: usize,
        num_to_move: usize,
    ) -> (r: Result<(), GameError>)
        requires
            old(self).blind_info.blind_interval > 0,
            old(self).tables@.contains_key(from_table_id) ==> num_to_move <= old(self).tables@[from_table_id].players@.len(),
        ensures
            !old(self).tables@.contains_key(from_table_id) ==> r == Err::<(), GameError>(GameError::InvalidIndexUsage),
            old(self).tables@.contains_key(from_table_id) && level_blinds(old(self).blind_info, old(self).time_elapsed) is None ==> r is Err,
            old(self).tables@.contains_key(from_table_id) && level_blinds(old(self).blind_info, old(self).time_elapsed) is Some ==> r is Ok,
            r is Ok ==> {
                let ps = old(self).tables@[from_table_id].players@;
                let moved = ps.take(num_to_move as int);
                &&& final(self).tables@.dom() == old(self).tables@.dom()
                &&& forall|t: usize| #[trigger] old(self).tables@.contains_key(t) && t != from_table_id ==> final(self).tables@[t] == old(self).tables@[t]
                &&& final(self).tables@[from_table_id].players@ == ps.skip(num_to_move as int)
                &&& final(self).tables@[from_table_id].table_id == old(self).tables@[from_table_id].table_id
                &&& forall|k: int| 0 <= k < moved.len() ==> !final(self).table_assigns@.contains_key(#[trigger] moved[k].id)
                    && final(self).table_assigns_pending@.contains_key(moved[k].id)
                    && final(self).table_assigns_pending@[moved[k].id] == to_table_id
                &&& final(self).ranks@ == old(self).ranks@
                &&& final(self).alives == old(self).alives && final(self).in_the_money == old(self).in_the_money
                &&& final(self).prize_rules@ == old(self).prize_rules@
                &&& only_actions_changed(*old(effect), *final(effect))
                &&& final(effect).actions@.len() == old(effect).actions@.len() + 2
                &&& final(effect).actions@.take(old(effect).actions@.len() as int) == old(effect).actions@
                &&& exists|sb: u64, bb: u64| level_blinds(old(self).blind_info, old(self).time_elapsed) == Some((sb, bb))
                    && starts_hand(final(effect).actions@[old(effect).actions@.len() as int], from_table_id, sb, bb, player_ids_of(moved))
                &&& sits_in(final(effect).actions@[old(effect).actions@.len() as int + 1], to_table_id, moved)
            },
    {
        let mut table = match self.tables.remove(&from_table_id) {
            Some(t) => t,
            None => {
                return Err(GameError::InvalidIndexUsage);
            },
        };
        let ghost ps = table.players@;
        let mut moved: Vec<MttTablePlayer> = Vec::new();
        let mut rest: Vec<MttTablePlayer> = Vec::new();
        let mut i: usize = 0;
        while i < table.players.len()
            invariant
                table.players@ == ps,
                num_to_move <= ps.len(),
                i <= ps.len(),
                moved@ == ps.take(if i < num_to_move { i as int } else { num_to_move as int }),
                rest@ == if i < num_to_move { Seq::<MttTablePlayer>::empty() } else { ps.subrange(num_to_move as int, i as int) },
            decreases ps.len() - i,
        {
            if i < num_to_move {
                moved.push(table.players[i]);
                assert(moved@ =~= ps.take(i + 1));
            } else {
                rest.push(table.players[i]);
                assert(rest@ =~= ps.subrange(num_to_move as int, i + 1));
            }
            proof {
                if i + 1 == num_to_move {
                    assert(rest@ =~= ps.subrange(num_to_move as int, i + 1));
                }
            }
            i = i + 1;
        }
        assert(rest@ =~= ps.skip(num_to_move as int));
        table.players = rest;
        self.tables.insert(from_table_id, table);
        let (sb, bb) = match self.calc_blinds() {
            Ok(b) => b,
            Err(e) => {
                return Err(e);
            },
        };
        let mut sitout: Vec<u64> = Vec::new();
        let mut sitins: Vec<MttTableSitin> = Vec::new();
        let ghost m1 = *self;
        let mut k: usize = 0;
        while k < moved.len()
            invariant
                moved@ == ps.take(num_to_move as int),
                k <= moved@.len(),
                sitout@ == player_ids_of(moved@.take(k as int)),
                sitins@.len() == k,
                forall|q: int| 0 <= q < k ==> #[trigger] sitins@[q] == (MttTableSitin {
                    id: moved@[q].id,
                    chips: moved@[q].chips,
                    time_cards: crate::mtt_base::MTT_DEFAULT_TIME_CARDS,
                    first_time_sit: true,
                }),
                *self == (Mtt { table_assigns: self.table_assigns, table_assigns_pending: self.table_assigns_pending, ..m1 }),
                forall|q: int| 0 <= q < k ==> !self.table_assigns@.contains_key(#[trigger] moved@[q].id)
                    && self.table_assigns_pending@.contains_key(moved@[q].id)
                    && self.table_assigns_pending@[moved@[q].id] == to_table_id,
            decreases moved@.len() - k,
        {
            let p = moved[k];
            self.table_assigns.remove(&p.id);
            self.table_assigns_pending.insert(p.id, to_table_id);
            sitout.push(p.id);
            sitins.push(MttTableSitin::new_with_defaults(p.id, p.chips));
            assert(sitout@ =~= player_ids_of(moved@.take(k + 1)));
            k = k + 1;
        }
        assert(moved@.take(k as int) =~= moved@);
        effect.push(
            EffectAction::Bridge {
                dest: from_table_id,
                event: HoldemBridgeEvent::StartGame { sb, bb, ante: 0, sitout_players: sitout },
            },
        );
        effect.push(EffectAction::Bridge { dest: to_table_id, event: HoldemBridgeEvent::SitinPlayers { sitins } });
        assert(effect.actions@.take(old(effect).actions@.len() as int) =~= old(effect).actions@);
        assert(self.tables@.dom() =~= old(self).tables@.dom());
        assert(ps == old(self).tables@[from_table_id].players@);
        assert(starts_hand(effect.actions@[old(effect).actions@.len() as int], from_table_id, sb, bb, player_ids_of(moved@)));
        assert(sits_in(effect.actions@[old(effect).actions@.len() as int + 1], to_table_id, moved@));
        Ok(())
    }
}

/// What the final table `t` does after a hand: it starts its next hand
/// when it has players to play.
pub open spec fn single_table_outcome(
    m0: Mtt,
    e0: Effect,
    tid: usize,
    r: Result<(), GameError>,
    m1: Mtt,
    e1: Effect,
    t: MttTableState,
) -> bool {
    let n0 = e0.actions@.len() as int;
    let blinds = level_blinds(m0.blind_info, m0.time_elapsed);
    &&& t.players@.len() > 1 && blinds is None ==> r is Err
    &&& (t.players@.len() <= 1 || blinds is Some) ==> r is Ok
    &&& r is Ok ==> {
        &&& m1 == m0
        &&& only_actions_changed(e0, e1)
        &&& t.players@.len() <= 1 ==> e1.actions@ == e0.actions@
        &&& t.players@.len() > 1 ==> {
            &&& e1.actions@.len() == n0 + 1
            &&& e1.actions@.take(n0) == e0.actions@
            &&& exists|sb: u64, bb: u64| blinds == Some((sb, bb)) && starts_hand(e1.actions@[n0], tid, sb, bb, Seq::empty())
        }
    }
}

/// How the tables are updated after a hand at table `tid`, from
/// tournament `m0` and effect `e0`: a final table starts its next hand
/// when it has players to play; otherwise the table closes when the other
/// tables have seats for its players; when it is the table with the most
/// players and has at least two more than the table with the fewest, it
/// sends half the difference there; else it starts its next hand when it
/// has players to play.
pub open spec fn tables_updated(m0: Mtt, e0: Effect, tid: usize, r: Result<(), GameError>, m1: Mtt, e1: Effect) -> bool {
    let n0 = e0.actions@.len() as int;
    let blinds = level_blinds(m0.blind_info, m0.time_elapsed);
    if m0.tables@.len() == 1 {
        exists|k: usize| #[trigger] m0.tables@.contains_key(k) && single_table_outcome(m0, e0, tid, r, m1, e1, m0.tables@[k])
    } else if !m0.tables@.contains_key(tid) {
        r == Err::<(), GameError>(GameError::InvalidTableId)
    } else if overfull(m0.tables@, tid, m0.table_size) {
        r == Err::<(), GameError>(GameError::InternalAmountOverflow)
    } else {
        &&& r is Ok ==> m1.in_the_money == (m0.in_the_money || m0.alives <= m0.prize_rules@.len())
        &&& exists|l: usize, mo: usize| least_ok(m0, tid, l) && most_ok(m0, tid, mo) && update_outcome(m0, e0, tid, r, m1, e1, l, mo)
    }
}

/// What updating the tables after a hand at table `tid` gives, with `l`
/// the table with the fewest players and `mo` the one with the most.
pub open spec fn update_outcome(
    m0: Mtt,
    e0: Effect,
    tid: usize,
    r: Result<(), GameError>,
    m1: Mtt,
    e1: Effect,
    l: usize,
    mo: usize,
) -> bool {
    let n0 = e0.actions@.len() as int;
    let blinds = level_blinds(m0.blind_info, m0.time_elapsed);
    let free = free_seats(m0.tables@, index_key_seq(m0.tables@), tid, m0.table_size);
    let c = m0.tables@[tid].players@.len() as int;
    let small = m0.tables@[l].players@.len() as int;
    let large = m0.tables@[mo].players@.len() as int;
    if overfull(m0.tables@, tid, m0.table_size) || free > usize::MAX {
        r == Err::<(), GameError>(GameError::InternalAmountOverflow)
    } else if c <= free {
        &&& m0.stage == MttStage::Init ==> r is Ok
        &&& m0.stage != MttStage::Init ==> exists|mc: Mtt, ec: Effect, m2: Mtt, e2: Effect|
            #![trigger table_closed(m0, e0, tid, mc, ec), seated_as_run(mc, ec, player_ids_of(m0.tables@[tid].players@), r, m2, e2)]
            table_closed(m0, e0, tid, mc, ec) && seated_as_run(mc, ec, player_ids_of(m0.tables@[tid].players@), r, m2, e2)
        &&& r is Ok ==> {
            &&& m1.tables@ == m0.tables@.remove(tid)
            &&& e1.actions@.len() > n0
            &&& e1.actions@[n0] == (EffectAction::Bridge { dest: tid, event: HoldemBridgeEvent::CloseTable })
        }
    } else if tid == mo && large > small + 1 {
        let moved = m0.tables@[mo].players@.take((large - small) / 2);
        &&& blinds is None ==> r is Err
        &&& blinds is Some ==> r is Ok
        &&& r is Ok ==> {
            &&& m1.tables@[mo].players@ == m0.tables@[mo].players@.skip((large - small) / 2)
            &&& e1.actions@.len() == n0 + 2
            &&& e1.actions@.take(n0) == e0.actions@
            &&& exists|sb: u64, bb: u64| blinds == Some((sb, bb)) && starts_hand(e1.actions@[n0], mo, sb, bb, player_ids_of(moved))
            &&& sits_in(e1.actions@[n0 + 1], l, moved)
        }
    } else {
        &&& c > 1 && blinds is None ==> r is Err
        &&& (c <= 1 || blinds is Some) ==> r is Ok
        &&& r is Ok ==> {
            &&& m1 == (Mtt { in_the_money: m1.in_the_money, ..m0 })
            &&& only_actions_changed(e0, e1)
            &&& c <= 1 ==> e1.actions@ == e0.actions@
            &&& c > 1 ==> e1.actions@.len() == n0 + 1 && e1.actions@.take(n0) == e0.actions@ && exists|sb: u64, bb: u64|
                blinds == Some((sb, bb)) && starts_hand(e1.actions@[n0], tid, sb, bb, Seq::empty())
        }
    }
}

impl Mtt {
    /// The free seats of the tables other than `table_id`; None when one
    /// of them holds more players than seats, or the count overflows.
    fn count_free_seats(&self, table_id: usize) -> (r: Option<usize>)
        ensures
            overfull(self.tables@, table_id, self.table_size) ==> r is None,
            r matches Some(n) ==> n == free_seats(self.tables@, index_key_seq(self.tables@), table_id, self.table_size),
            r is None <==> overfull(self.tables@, table_id, self.table_size) || free_seats(
                self.tables@,
                index_key_seq(self.tables@),
                table_id,
                self.table_size,
            ) > usize::MAX,
    {
        let ids = sorted_index_keys(&self.tables);
        let ts = self.table_size as usize;
        let mut total: usize = 0;
        let mut i: usize = 0;
        while i < ids.len()
            invariant
                ids@ == index_key_seq(self.tables@),
                ids@.to_set() == self.tables@.dom(),
                ts == self.table_size,
                i <= ids@.len(),
                total == free_seats(self.tables@, ids@.take(i as int), table_id, self.table_size),
                forall|j: int| 0 <= j < i && ids@[j] != table_id ==> self.tables@[#[trigger] ids@[j]].players@.len() <= ts,
            decreases ids@.len() - i,
        {
            let id = ids[i];
            assert(ids@.to_set().contains(id));
            assert(ids@.take(i + 1).drop_last() =~= ids@.take(i as int));
            if id != table_id {
                let len = match self.tables.get(&id) {
                    Some(t) => t.players.len(),
                    None => 0,
                };
                if len > ts {
                    assert(self.tables@.contains_key(id));
                    return None;
                }
                if ts - len > usize::MAX - total {
                    proof {
                        if !overfull(self.tables@, table_id, self.table_size) {
                            lemma_free_seats_prefix(self.tables@, ids@, table_id, self.table_size, i + 1);
                            assert(free_seats(self.tables@, ids@.take(i + 1), table_id, self.table_size) == total + (ts - len));
                        }
                    }
                    return None;
                }
                total = total + (ts - len);
            }
            i = i + 1;
        }
        assert(ids@.take(i as int) =~= ids@);
        proof {
            assert forall|u: usize| #[trigger] self.tables@.contains_key(u) && u != table_id implies self.tables@[u].players@.len() <= ts by {
                assert(ids@.to_set().contains(u));
                let j = choose|j: int| 0 <= j < ids@.len() && ids@[j] == u;
            }
        }
        Some(total)
    }

    /// Update the tables after a hand at table `table_id`.
    #[verifier::rlimit(40)]
    pub fn update_tables(&mut self, effect: &mut Effect, table_id: usize) -> (r: Result<(), GameError>)
        requires
            old(self).blind_info.blind_interval > 0,
        ensures
            tables_updated(*old(self), *old(effect), table_id, r, *final(self), *final(effect)),
    {
        if self.tables.len() == 1 {
            let ids = sorted_index_keys(&self.tables);
            proof {
                if ids@.len() == 0 {
                    assert(ids@.to_set() =~= Set::<usize>::empty());
                }
            }
            let only = ids[0];
            assert(ids@.to_set().contains(only));
            let count = match self.tables.get(&only) {
                Some(t) => t.players.len(),
                None => 0,
            };
            if count > 1 {
                let (sb, bb) = match self.calc_blinds() {
                    Ok(b) => b,
                    Err(e) => {
                        assert(single_table_outcome(*old(self), *old(effect), table_id, Err(e), *self, *effect, self.tables@[only]));
                        return Err(e);
                    },
                };
                effect.push(
                    EffectAction::Bridge {
                        dest: table_id,
                        event: HoldemBridgeEvent::StartGame { sb, bb, ante: 0, sitout_players: Vec::new() },
                    },
                );
                assert(effect.actions@.take(old(effect).actions@.len() as int) =~= old(effect).actions@);
                assert(starts_hand(effect.actions@[old(effect).actions@.len() as int], table_id, sb, bb, Seq::empty()));
            }
            assert(single_table_outcome(*old(self), *old(effect), table_id, Ok(()), *self, *effect, self.tables@[only]));
            return Ok(());
        }
        let current_count = match self.tables.get(&table_id) {
            Some(t) => t.players.len(),
            None => {
                return Err(GameError::InvalidTableId);
            },
        };
        let (smallest, largest) = match self.get_table_ids_with_least_most_players(table_id) {
            Ok(p) => p,
            Err(e) => {
                return Err(e);
            },
        };
        let small = match self.tables.get(&smallest) {
            Some(t) => t.players.len(),
            None => 0,
        };
        let large = match self.tables.get(&largest) {
            Some(t) => t.players.len(),
            None => 0,
        };
        let free = match self.count_free_seats(table_id) {
            Some(f) => f,
            None => {
                assert(update_outcome(*old(self), *old(effect), table_id, Err(GameError::InternalAmountOverflow), *self, *effect, smallest, largest));
                return Err(GameError::InternalAmountOverflow);
            },
        };
        let ghost m0 = *self;
        let ghost e0 = *effect;
        assert(least_ok(m0, table_id, smallest) && most_ok(m0, table_id, largest));
        if current_count <= free {
            let rc = self.close_table_and_move_players_to_other_tables(effect, table_id);
            proof {
                if m0.stage != MttStage::Init {
                    let (mc, ec) = choose|mc: Mtt, ec: Effect| #[trigger] table_closed(m0, e0, table_id, mc, ec) && seated_as_run(
                        mc,
                        ec,
                        player_ids_of(m0.tables@[table_id].players@),
                        rc,
                        *self,
                        *effect,
                    );
                    assert(table_closed(m0, e0, table_id, mc, ec) && seated_as_run(mc, ec, player_ids_of(m0.tables@[table_id].players@), rc, *self, *effect));
                }
            }
            match rc {
                Ok(()) => {
                    proof {
                        crate::errors::lemma_ok_unit(rc);
                    }
                },
                Err(e) => {
                    assert(update_outcome(m0, e0, table_id, Err(e), *self, *effect, smallest, largest));
                    return Err(e);
                },
            }
        } else if table_id == largest && large > small && large - small > 1 {
            match self.balance_players_between_tables(effect, largest, smallest, (large - small) / 2) {
                Ok(()) => {},
                Err(e) => {
                    assert(update_outcome(m0, e0, table_id, Err(e), *self, *effect, smallest, largest));
                    return Err(e);
                },
            }
        } else {
            if current_count > 1 {
                let (sb, bb) = match self.calc_blinds() {
                    Ok(b) => b,
                    Err(e) => {
                        assert(update_outcome(m0, e0, table_id, Err(e), *self, *effect, smallest, largest));
                        return Err(e);
                    },
                };
                effect.push(
                    EffectAction::Bridge {
                        dest: table_id,
                        event: HoldemBridgeEvent::StartGame { sb, bb, ante: 0, sitout_players: Vec::new() },
                    },
                );
                assert(effect.actions@.take(old(effect).actions@.len() as int) =~= old(effect).actions@);
                assert(starts_hand(effect.actions@[old(effect).actions@.len() as int], table_id, sb, bb, Seq::empty()));
            }
        }
        self.maybe_set_in_the_money();
        assert(update_outcome(m0, e0, table_id, Ok(()), *self, *effect, smallest, largest));
        Ok(())
    }
}

/// The state of taking deposits one by one.
pub struct DepositRun {
    pub ranks: Seq<PlayerRank>,
    pub prize: int,
    pub rake: int,
    pub bounty: int,
    pub balances: Map<u64, u64>,
    pub actions: Seq<EffectAction>,
    pub pids: Seq<u64>,
    pub err: Option<GameError>,
}

/// A deposit is a ticket: refused for an unknown player or one who still
/// has chips; otherwise the player gets the starting chips and waits for
/// a seat, the rake and the bounty are taken from the amount, the bounty
/// split in halves between the player's own reward and what passes to
/// whoever eliminates the player, and the rest goes to the prize pool.
pub open spec fn deposit_step(st: DepositRun, m: Mtt, d: PlayerDeposit) -> DepositRun {
    if st.err is Some {
        st
    } else {
        let k = first_rank(st.ranks, d.id, 0);
        if k >= st.ranks.len() || st.ranks[k].chips != 0 || d.balance != m.ticket {
            DepositRun { actions: st.actions.push(EffectAction::RejectDeposit { player_id: d.id, amount: d.balance }), ..st }
        } else {
            let a = d.balance as int;
            let to_rake = a * m.rake / 1000;
            let to_bounty = a * m.bounty / 1000;
            let reward = to_bounty * 500 / 1000;
            let transfer = to_bounty - reward;
            let r = st.ranks[k];
            if a * m.rake > u64::MAX || a * m.bounty > u64::MAX || to_rake + to_bounty > a
                || r.bounty_reward + reward > u64::MAX || r.bounty_transfer + transfer > u64::MAX
                || st.prize + (a - to_rake - to_bounty) > u64::MAX || st.rake + to_rake > u64::MAX
                || st.bounty + to_bounty > u64::MAX
                || st.prize + (a - to_rake - to_bounty) + st.rake + to_rake + st.bounty + to_bounty > u64::MAX {
                DepositRun { err: Some(GameError::InternalAmountOverflow), ..st }
            } else {
                let prize = st.prize + (a - to_rake - to_bounty);
                let rake = st.rake + to_rake;
                let bounty = st.bounty + to_bounty;
                DepositRun {
                    ranks: st.ranks.update(
                        k,
                        PlayerRank {
                            chips: m.start_chips,
                            status: PlayerRankStatus::Pending,
                            bounty_reward: (r.bounty_reward + reward) as u64,
                            bounty_transfer: (r.bounty_transfer + transfer) as u64,
                            ..r
                        },
                    ),
                    prize,
                    rake,
                    bounty,
                    balances: st.balances.insert(0, (prize + rake + bounty) as u64),
                    actions: st.actions.push(EffectAction::AcceptDeposit { player_id: d.id, amount: d.balance }),
                    pids: st.pids.push(d.id),
                    err: None,
                }
            }
        }
    }
}

pub open spec fn deposit_run(st: DepositRun, m: Mtt, ds: Seq<PlayerDeposit>) -> DepositRun
    decreases ds.len(),
{
    if ds.len() == 0 {
        st
    } else {
        deposit_step(deposit_run(st, m, ds.drop_last()), m, ds.last())
    }
}

/// The state before taking deposits.
pub open spec fn deposit_start(m: Mtt, e: Effect) -> DepositRun {
    DepositRun {
        ranks: m.ranks@,
        prize: m.total_prize as int,
        rake: m.total_rake as int,
        bounty: m.total_bounty as int,
        balances: m.player_balances@,
        actions: e.actions@,
        pids: Seq::empty(),
        err: None,
    }
}

proof fn lemma_deposit_err(st: DepositRun, m: Mtt, ds: Seq<PlayerDeposit>, n: int)
    requires
        0 < n <= ds.len(),
        deposit_run(st, m, ds.take(n)).err is Some,
    ensures
        deposit_run(st, m, ds).err == deposit_run(st, m, ds.take(n)).err,
    decreases ds.len() - n,
{
    if n < ds.len() {
        assert(ds.take(n + 1).drop_last() =~= ds.take(n));
        lemma_deposit_err(st, m, ds, n + 1);
    } else {
        assert(ds.take(n) =~= ds);
    }
}

/// The rejections of deposits, in order.
pub open spec fn rejections(ds: Seq<PlayerDeposit>) -> Seq<EffectAction> {
    ds.map_values(|d: PlayerDeposit| EffectAction::RejectDeposit { player_id: d.id, amount: d.balance })
}

impl Mtt {
    /// Reject every deposit.
    fn reject_all(&self, effect: &mut Effect, deposits: &Vec<PlayerDeposit>)
        ensures
            only_actions_changed(*old(effect), *final(effect)),
            final(effect).actions@ == old(effect).actions@ + rejections(deposits@),
    {
        let mut i: usize = 0;
        while i < deposits.len()
            invariant
                i <= deposits@.len(),
                only_actions_changed(*old(effect), *effect),
                effect.actions@ == old(effect).actions@ + rejections(deposits@.take(i as int)),
            decreases deposits@.len() - i,
        {
            let d = deposits[i];
            effect.push(EffectAction::RejectDeposit { player_id: d.id, amount: d.balance });
            assert(rejections(deposits@.take(i + 1)) =~= rejections(deposits@.take(i as int)).push(
                EffectAction::RejectDeposit { player_id: d.id, amount: d.balance },
            ));
            i = i + 1;
        }
        assert(deposits@.take(i as int) =~= deposits@);
    }

    /// Take the deposits one by one, as tickets.
    fn take_deposits(&mut self, effect: &mut Effect, deposits: &Vec<PlayerDeposit>) -> (r: Result<Vec<u64>, GameError>)
        ensures
            ({
                let st = deposit_run(deposit_start(*old(self), *old(effect)), *old(self), deposits@);
                &&& st.err matches Some(e) ==> r == Err::<Vec<u64>, GameError>(e)
                &&& st.err is None ==> (r matches Ok(pids) && {
                    &&& pids@ == st.pids
                    &&& final(self).ranks@ == st.ranks
                    &&& final(self).total_prize == st.prize && final(self).total_rake == st.rake && final(self).total_bounty == st.bounty
                    &&& final(self).player_balances@ == st.balances
                    &&& *final(self) == (Mtt {
                        ranks: final(self).ranks,
                        total_prize: final(self).total_prize,
                        total_rake: final(self).total_rake,
                        total_bounty: final(self).total_bounty,
                        player_balances: final(self).player_balances,
                        ..*old(self)
                    })
                    &&& final(effect).actions@ == st.actions
                    &&& only_actions_changed(*old(effect), *final(effect))
                })
            }),
    {
        let ghost m0 = *self;
        let ghost st0 = deposit_start(*self, *effect);
        let mut pids: Vec<u64> = Vec::new();
        let mut i: usize = 0;
        assert(deposits@.take(0) =~= Seq::<PlayerDeposit>::empty());
        while i < deposits.len()
            invariant
                m0 == *old(self),
                st0 == deposit_start(*old(self), *old(effect)),
                i <= deposits@.len(),
                ({
                    let st = deposit_run(st0, m0, deposits@.take(i as int));
                    &&& st.err is None
                    &&& st.ranks == self.ranks@ && st.prize == self.total_prize && st.rake == self.total_rake
                    &&& st.bounty == self.total_bounty && st.balances == self.player_balances@
                    &&& st.actions == effect.actions@ && st.pids == pids@
                }),
                *self == (Mtt {
                    ranks: self.ranks,
                    total_prize: self.total_prize,
                    total_rake: self.total_rake,
                    total_bounty: self.total_bounty,
                    player_balances: self.player_balances,
                    ..m0
                }),
                only_actions_changed(*old(effect), *effect),
            decreases deposits@.len() - i,
        {
            let d = deposits[i];
            proof {
                assert(deposits@.take(i + 1).drop_last() =~= deposits@.take(i as int));
                assert(deposits@.take(i + 1).last() == d);
            }
            let found = self.rank_index(d.id);
            proof {
                match found {
                    Some(k) => lemma_first_rank(self.ranks@, d.id, 0, k as int),
                    None => lemma_first_rank(self.ranks@, d.id, 0, self.ranks@.len() as int),
                }
            }
            match found {
                Some(k) if self.ranks[k].chips == 0 && d.balance == self.ticket => {
                    let mut rank = self.ranks[k];
                    let amount = d.balance;
                    assert((amount as u128) * (self.rake as u128) <= 0xffff_ffff_ffff_ffff_ffff_u128) by (nonlinear_arith)
                        requires
                            amount <= 0xffff_ffff_ffff_ffff_u64,
                            self.rake <= 0xffff_u16,
                    ;
                    assert((amount as u128) * (self.bounty as u128) <= 0xffff_ffff_ffff_ffff_ffff_u128) by (nonlinear_arith)
                        requires
                            amount <= 0xffff_ffff_ffff_ffff_u64,
                            self.bounty <= 0xffff_u16,
                    ;
                    if (amount as u128) * (self.rake as u128) > u64::MAX as u128 || (amount as u128) * (self.bounty as u128) > u64::MAX as u128 {
                        proof { lemma_deposit_err(st0, m0, deposits@, i + 1); }
                        return Err(GameError::InternalAmountOverflow);
                    }
                    let to_rake = take_amount_by_portion(amount, self.rake);
                    let to_bounty = take_amount_by_portion(amount, self.bounty);
                    if to_rake > amount || to_bounty > amount - to_rake {
                        proof { lemma_deposit_err(st0, m0, deposits@, i + 1); }
                        return Err(GameError::InternalAmountOverflow);
                    }
                    let to_prize = amount - to_rake - to_bounty;
                    assert(to_bounty * 500 <= u64::MAX) by (nonlinear_arith)
                        requires
                            to_bounty <= amount,
                            amount * (m0.bounty as int) <= u64::MAX,
                            to_bounty == amount * m0.bounty / 1000,
                    ;
                    let reward = take_amount_by_portion(to_bounty, 500);
                    assert(reward <= to_bounty) by (nonlinear_arith)
                        requires
                            reward == to_bounty * 500 / 1000,
                    ;
                    let transfer = to_bounty - reward;
                    if rank.bounty_reward > u64::MAX - reward || rank.bounty_transfer > u64::MAX - transfer
                        || to_prize > u64::MAX - self.total_prize || to_rake > u64::MAX - self.total_rake
                        || to_bounty > u64::MAX - self.total_bounty {
                        proof { lemma_deposit_err(st0, m0, deposits@, i + 1); }
                        return Err(GameError::InternalAmountOverflow);
                    }
                    if self.total_prize + to_prize > u64::MAX - (self.total_rake + to_rake)
                        || self.total_prize + to_prize + self.total_rake + to_rake > u64::MAX - (self.total_bounty + to_bounty) {
                        proof { lemma_deposit_err(st0, m0, deposits@, i + 1); }
                        return Err(GameError::InternalAmountOverflow);
                    }
                    rank.chips = self.start_chips;
                    rank.status = PlayerRankStatus::Pending;
                    rank.bounty_reward = rank.bounty_reward + reward;
                    rank.bounty_transfer = rank.bounty_transfer + transfer;
                    self.ranks.set(k, rank);
                    effect.push(EffectAction::AcceptDeposit { player_id: d.id, amount: d.balance });
                    self.total_prize = self.total_prize + to_prize;
                    self.total_rake = self.total_rake + to_rake;
                    self.total_bounty = self.total_bounty + to_bounty;
                    pids.push(d.id);
                    self.update_player_balances();
                },
                _ => {
                    effect.push(EffectAction::RejectDeposit { player_id: d.id, amount: d.balance });
                },
            }
            i = i + 1;
        }
        assert(deposits@.take(i as int) =~= deposits@);
        Ok(pids)
    }
}

/// The tournament's clock after an event at time `ts`: while playing, the
/// time played grows by the time since the last event.
pub open spec fn clocked(m: Mtt, ts: u64) -> Mtt {
    if m.stage == MttStage::Playing {
        Mtt {
            time_elapsed: (if m.time_elapsed + ts >= m.timestamp {
                m.time_elapsed + ts - m.timestamp
            } else {
                0
            }) as u64,
            timestamp: ts,
            ..m
        }
    } else {
        m
    }
}

/// Whether the clock overflows at time `ts`.
pub open spec fn clock_overflows(m: Mtt, ts: u64) -> bool {
    m.stage == MttStage::Playing && m.time_elapsed + ts > u64::MAX
}

/// Whether players may still join at time `ts`: before the start, or
/// while playing, before the entry closes and before every player left
/// is paid.
pub open spec fn join_open(m: Mtt, ts: u64) -> bool {
    m.stage == MttStage::Init || (m.stage == MttStage::Playing && !m.in_the_money && ts <= m.entry_close_time)
}

/// The ranks of joining players: no chips yet, waiting for a seat.
pub open spec fn joined_ranks(ps: Seq<JoinedPlayer>) -> Seq<PlayerRank> {
    ps.map_values(
        |p: JoinedPlayer|
            PlayerRank {
                id: p.id,
                chips: 0,
                status: PlayerRankStatus::Pending,
                position: p.position as u16,
                bounty_reward: 0,
                bounty_transfer: 0,
            },
    )
}

/// Whether deposits are taken at time `ts`: before the entry closes and
/// before every player left is paid.
pub open spec fn deposits_open(m: Mtt, ts: u64) -> bool {
    !m.in_the_money && ts <= m.entry_close_time
}

/// The events for which the tournament needs its blind levels or its
/// table size, and which they must allow.
pub open spec fn event_inputs_ok(m: Mtt, ts: u64, event: Event) -> bool {
    &&& event is Bridge ==> m.blind_info.blind_interval > 0
    &&& (event is Deposit && deposits_open(m, ts) && m.stage != MttStage::Init) ==> m.blind_info.blind_interval > 0
    &&& (event is GameStart && m.ranks@.len() >= 2) ==> m.table_size > 0 && m.blind_info.blind_interval > 0
}

impl Mtt {
    fn advance_clock(&mut self, ts: u64) -> (r: Result<(), GameError>)
        ensures
            clock_overflows(*old(self), ts) ==> r == Err::<(), GameError>(GameError::InternalAmountOverflow),
            !clock_overflows(*old(self), ts) ==> r is Ok && *final(self) == clocked(*old(self), ts),
    {
        if self.stage == MttStage::Playing {
            if self.time_elapsed > u64::MAX - ts {
                return Err(GameError::InternalAmountOverflow);
            }
            let sum = self.time_elapsed + ts;
            self.time_elapsed = if sum >= self.timestamp {
                sum - self.timestamp
            } else {
                0
            };
            self.timestamp = ts;
        }
        Ok(())
    }

    fn add_ranks(&mut self, players: &Vec<JoinedPlayer>)
        ensures
            final(self).ranks@ == old(self).ranks@ + joined_ranks(players@),
            *final(self) == (Mtt { ranks: final(self).ranks, ..*old(self) }),
    {
        let mut i: usize = 0;
        while i < players.len()
            invariant
                i <= players@.len(),
                self.ranks@ == old(self).ranks@ + joined_ranks(players@.take(i as int)),
                *self == (Mtt { ranks: self.ranks, ..*old(self) }),
            decreases players@.len() - i,
        {
            self.add_player_rank(players[i]);
            assert(joined_ranks(players@.take(i + 1)) =~= joined_ranks(players@.take(i as int)).push(
                PlayerRank {
                    id: players@[i as int].id,
                    chips: 0,
                    status: PlayerRankStatus::Pending,
                    position: players@[i as int].position as u16,
                    bounty_reward: 0,
                    bounty_transfer: 0,
                },
            ));
            i = i + 1;
        }
        assert(players@.take(i as int) =~= players@);
    }

    /// A hand's result at table `table_id`, in the steps of
    /// `result_steps`.
    #[verifier::rlimit(40)]
    fn handle_game_result(
        &mut self,
        effect: &mut Effect,
        table_id: usize,
        player_results: &Vec<PlayerResult>,
        table: MttTableState,
    ) -> (r: Result<(), GameError>)
        requires
            old(self).blind_info.blind_interval > 0,
        ensures
            r is Ok ==> final(effect).actions@.len() > 0 && final(effect).actions@.last() == EffectAction::Checkpoint,
            exists|
                m1: Mtt,
                rb: Result<(), GameError>,
                m2: Mtt,
                e2: Effect,
                m3: Mtt,
                rc: Result<(), GameError>,
                m4: Mtt,
                ru: Result<(), GameError>,
                m5: Mtt,
                e5: Effect,
                rp: Result<(), GameError>,
                m6: Mtt,
                e6: Effect,
            |
                #[trigger] result_steps(
                    *old(self),
                    *old(effect),
                    table_id,
                    player_results@,
                    table,
                    r,
                    *final(self),
                    *final(effect),
                    m1,
                    rb,
                    m2,
                    e2,
                    m3,
                    rc,
                    m4,
                    ru,
                    m5,
                    e5,
                    rp,
                    m6,
                    e6,
                ),
    {
        let ghost m = *self;
        let ghost e0 = *effect;
        let ghost ids = table.players@.map_values(|p: MttTablePlayer| p.id);
        let tt = table.table_id;
        let mut i: usize = 0;
        while i < table.players.len()
            invariant
                i <= table.players@.len(),
                self.blind_info.blind_interval > 0,
                ids == table.players@.map_values(|p: MttTablePlayer| p.id),
                tt == table.table_id,
                self.table_assigns_pending@ == m.table_assigns_pending@.remove_keys(ids.take(i as int).to_set()),
                self.table_assigns@ == m.table_assigns@.union_prefer_right(
                    Map::new(|k: u64| ids.take(i as int).contains(k), |k: u64| tt),
                ),
                *self == (Mtt { table_assigns_pending: self.table_assigns_pending, table_assigns: self.table_assigns, ..m }),
                *effect == e0,
            decreases table.players@.len() - i,
        {
            let pid = table.players[i].id;
            proof {
                assert(ids.take(i + 1) =~= ids.take(i as int).push(pid));
            }
            self.table_assigns_pending.remove(&pid);
            self.table_assigns.insert(pid, tt);
            proof {
                let s1 = ids.take(i + 1);
                let s0 = ids.take(i as int);
                assert forall|k: u64| s1.contains(k) <==> (s0.contains(k) || k == pid) by {
                    if s1.contains(k) {
                        let j = choose|j: int| 0 <= j < s1.len() && s1[j] == k;
                        if j < i {
                            assert(s0[j] == k);
                        }
                    }
                    if s0.contains(k) {
                        let j = choose|j: int| 0 <= j < s0.len() && s0[j] == k;
                        assert(s1[j] == k);
                    }
                    if k == pid {
                        assert(s1[i as int] == k);
                    }
                }
                assert(s1.to_set() =~= s0.to_set().insert(pid));
                assert(self.table_assigns_pending@ =~= m.table_assigns_pending@.remove_keys(s1.to_set()));
                assert(self.table_assigns@ =~= m.table_assigns@.union_prefer_right(
                    Map::new(|k: u64| ids.take(i + 1).contains(k), |k: u64| tt),
                ));
            }
            i = i + 1;
        }
        proof {
            assert(ids.take(ids.len() as int) =~= ids);
        }
        let ghost m1 = *self;
        assert(result_seated(m, m1, table.players@, table.table_id));
        let rb = self.handle_bounty(player_results, effect);
        let ghost m2 = *self;
        let ghost e2 = *effect;
        match rb {
            Ok(()) => {},
            Err(e) => {
                assert(result_steps(m, e0, table_id, player_results@, table, rb, *self, *effect, m1, rb, m2, e2, m2, rb, m2, rb, m2, e2, rb, m2, e2));
                return Err(e);
            },
        }
        self.tables.insert(table_id, table);
        let ghost m3 = *self;
        let rc = self.apply_chips_change(player_results);
        let ghost m4 = *self;
        match rc {
            Ok(()) => {},
            Err(e) => {
                assert(result_steps(m, e0, table_id, player_results@, table, rc, *self, *effect, m1, rb, m2, e2, m3, rc, m4, rc, m4, e2, rc, m4, e2));
                return Err(e);
            },
        }
        let ru = self.update_tables(effect, table_id);
        let ghost m5 = *self;
        let ghost e5 = *effect;
        match ru {
            Ok(()) => {},
            Err(e) => {
                assert(result_steps(m, e0, table_id, player_results@, table, ru, *self, *effect, m1, rb, m2, e2, m3, rc, m4, ru, m5, e5, ru, m5, e5));
                return Err(e);
            },
        }
        let rp = self.apply_prizes(effect);
        let ghost m6 = *self;
        let ghost e6 = *effect;
        match rp {
            Ok(()) => {},
            Err(e) => {
                assert(result_steps(m, e0, table_id, player_results@, table, rp, *self, *effect, m1, rb, m2, e2, m3, rc, m4, ru, m5, e5, rp, m6, e6));
                return Err(e);
            },
        }
        self.maybe_set_entry_close(effect);
        effect.push(EffectAction::Checkpoint);
        proof {
            assert(effect.actions@ =~= e6.actions@ + (if e6.timestamp > m6.entry_close_time {
                seq![EffectAction::CloseEntry]
            } else {
                Seq::empty()
            }).push(EffectAction::Checkpoint));
        }
        assert(result_steps(m, e0, table_id, player_results@, table, Ok::<(), GameError>(()), *self, *effect, m1, rb, m2, e2, m3, rc, m4, ru, m5, e5, rp, m6, e6));
        Ok(())
    }

    /// Handle an event of the tournament.
    #[verifier::rlimit(40)]
    pub fn handle_event(&mut self, effect: &mut Effect, event: Event) -> (r: Result<(), GameError>)
        requires
            event_inputs_ok(clocked(*old(self), old(effect).timestamp), old(effect).timestamp, event),
        ensures
            clock_overflows(*old(self), old(effect).timestamp) ==> r == Err::<(), GameError>(GameError::InternalAmountOverflow),
            !clock_overflows(*old(self), old(effect).timestamp) ==> ({
                let ts = old(effect).timestamp;
                let m = clocked(*old(self), ts);
                let n0 = old(effect).actions@.len() as int;
                match event {
                    Event::Custom { .. } | Event::Client { .. } => r == Err::<(), GameError>(GameError::CustomEventNotAllowed),
                    Event::Leave { .. } => r == Err::<(), GameError>(GameError::LeaveNotAllowed),
                    Event::Ready => {
                        &&& r is Ok && *final(self) == m && only_actions_changed(*old(effect), *final(effect))
                        &&& final(effect).actions@ == old(effect).actions@ + if m.stage == MttStage::Init {
                            if m.start_time > ts {
                                seq![EffectAction::WaitTimeout { timeout: (m.start_time - ts) as u64 }]
                            } else {
                                seq![EffectAction::StartGame]
                            }
                        } else {
                            Seq::empty()
                        }
                    },
                    Event::Join { players } => {
                        &&& r is Ok && *final(effect) == *old(effect)
                        &&& final(self).ranks@ == m.ranks@ + if join_open(m, ts) {
                            joined_ranks(players@)
                        } else {
                            Seq::empty()
                        }
                        &&& *final(self) == (Mtt { ranks: final(self).ranks, ..m })
                    },
                    Event::Deposit { deposits } => if !deposits_open(m, ts) {
                        &&& r is Ok && *final(self) == m
                        &&& only_actions_changed(*old(effect), *final(effect))
                        &&& final(effect).actions@ == old(effect).actions@ + rejections(deposits@)
                    } else {
                        let st = deposit_run(deposit_start(m, *old(effect)), m, deposits@);
                        &&& st.err matches Some(e) ==> r == Err::<(), GameError>(e)
                        &&& st.err is None && m.stage == MttStage::Init ==> r is Ok
                        &&& r is Ok ==> {
                            &&& st.err is None
                            &&& final(self).ranks@ == sort_by_chips(st.ranks)
                            &&& final(self).alives == sort_by_chips(st.ranks).filter(alive_pred()).len()
                            &&& final(self).total_prize == st.prize && final(self).total_rake == st.rake
                            &&& final(self).total_bounty == st.bounty && final(self).player_balances@ == st.balances
                            &&& final(effect).actions@.len() >= st.actions.len()
                            &&& final(effect).actions@.take(st.actions.len() as int) == st.actions
                            &&& m.stage != MttStage::Init ==> forall|j: int| 0 <= j < st.pids.len() ==>
                                final(self).table_assigns_pending@.contains_key(#[trigger] st.pids[j])
                                || launched_with(final(effect).actions@, st.pids[j])
                        }
                        &&& st.err is None && m.stage != MttStage::Init ==> exists|m_mid: Mtt, e_mid: Effect, m_seat: Mtt| {
                            &&& m_mid.ranks@ == st.ranks && m_mid.total_prize == st.prize && m_mid.total_rake == st.rake
                            &&& m_mid.total_bounty == st.bounty && m_mid.player_balances@ == st.balances
                            &&& m_mid == (Mtt {
                                ranks: m_mid.ranks,
                                total_prize: m_mid.total_prize,
                                total_rake: m_mid.total_rake,
                                total_bounty: m_mid.total_bounty,
                                player_balances: m_mid.player_balances,
                                ..m
                            })
                            &&& e_mid.actions@ == st.actions && only_actions_changed(*old(effect), e_mid)
                            &&& #[trigger] seated_as_run(m_mid, e_mid, st.pids, r, m_seat, *final(effect))
                            &&& r is Ok ==> *final(self) == (Mtt { ranks: final(self).ranks, alives: final(self).alives, ..m_seat })
                        }
                    },
                    Event::GameStart => {
                        let n = m.ranks@.len();
                        &&& n == 0 ==> r is Ok && *final(self) == (Mtt { timestamp: ts, stage: MttStage::Completed, ..m })
                            && final(effect).actions@ == old(effect).actions@.push(EffectAction::Checkpoint)
                        &&& r is Ok ==> final(effect).actions@.len() > 0 && final(effect).actions@.last() == EffectAction::Checkpoint
                        &&& n == 1 ==> exists|rp: Result<(), GameError>, m1: Mtt, e1: Effect| {
                            &&& #[trigger] prizes_applied(Mtt { timestamp: ts, ..m }, *old(effect), rp, m1, e1)
                            &&& rp is Err ==> r == rp
                            &&& rp is Ok ==> r is Ok && *final(self) == m1 && only_actions_changed(e1, *final(effect))
                                && final(effect).actions@ == e1.actions@.push(EffectAction::Checkpoint)
                        }
                        &&& n >= 2 ==> (r is Ok <==> (n + m.table_size <= usize::MAX && old(effect).next_sub_game_id
                            + tables_needed(n as int, m.table_size as int) <= usize::MAX && level_blinds(m.blind_info, m.time_elapsed) is Some))
                        &&& n >= 2 && r is Ok ==> {
                            &&& final(self).stage == MttStage::Playing && final(self).timestamp == ts
                            &&& final(self).alives == m.ranks@.filter(alive_pred()).len()
                            &&& final(effect).actions@.len() == n0 + tables_needed(n as int, m.table_size as int) + 1
                            &&& forall|i: int, p: int| 0 <= i < tables_needed(n as int, m.table_size as int)
                                && 0 <= p < spread(m.ranks@, tables_needed(n as int, m.table_size as int), i).len()
                                ==> final(self).table_assigns@.contains_key(#[trigger] spread(m.ranks@, tables_needed(n as int, m.table_size as int), i)[p].id)
                        }
                    },
                    Event::Bridge { event: be, .. } => match be {
                        HoldemBridgeEvent::GameResult { table_id, player_results, table, .. } => {
                            &&& r is Ok ==> final(effect).actions@.len() > 0 && final(effect).actions@.last() == EffectAction::Checkpoint
                            &&& exists|
                                m1: Mtt,
                                rb: Result<(), GameError>,
                                m2: Mtt,
                                e2: Effect,
                                m3: Mtt,
                                rc: Result<(), GameError>,
                                m4: Mtt,
                                ru: Result<(), GameError>,
                                m5: Mtt,
                                e5: Effect,
                                rp: Result<(), GameError>,
                                m6: Mtt,
                                e6: Effect,
                            |
                                #[trigger] result_steps(
                                    m,
                                    *old(effect),
                                    table_id,
                                    player_results@,
                                    table,
                                    r,
                                    *final(self),
                                    *final(effect),
                                    m1,
                                    rb,
                                    m2,
                                    e2,
                                    m3,
                                    rc,
                                    m4,
                                    ru,
                                    m5,
                                    e5,
                                    rp,
                                    m6,
                                    e6,
                                )
                        },
                        _ => r == Err::<(), GameError>(GameError::InvalidBridgeEvent),
                    },
                    Event::SubGameReady { game_id, table } => {
                        &&& r is Ok
                        &&& final(self).launched_table_ids@ == m.launched_table_ids@.push(game_id)
                        &&& final(self).tables@ == m.tables@.insert(table.table_id, table)
                        &&& *final(self) == (Mtt { launched_table_ids: final(self).launched_table_ids, tables: final(self).tables, ..m })
                        &&& only_actions_changed(*old(effect), *final(effect))
                        &&& final(effect).actions@ == old(effect).actions@.push(EffectAction::Checkpoint)
                    },
                    Event::WaitingTimeout => {
                        &&& r is Ok && only_actions_changed(*old(effect), *final(effect))
                        &&& m.stage == MttStage::Init ==> *final(self) == m && final(effect).actions@ == old(effect).actions@.push(EffectAction::StartGame)
                        &&& m.stage == MttStage::DistributingPrize ==> *final(self) == (Mtt { stage: MttStage::Completed, ..m })
                            && final(effect).actions@ == old(effect).actions@ + awards(m.ranks@)
                        &&& (m.stage == MttStage::Playing || m.stage == MttStage::Completed) ==> *final(self) == m && final(effect).actions@ == old(effect).actions@
                    },
                    _ => r is Ok && *final(self) == m && *final(effect) == *old(effect),
                }
            }),
    {
        let ts = effect.timestamp();
        match self.advance_clock(ts) {
            Ok(()) => {},
            Err(e) => {
                return Err(e);
            },
        }
        match event {
            Event::Custom { .. } | Event::Client { .. } => Err(GameError::CustomEventNotAllowed),
            Event::Leave { .. } => Err(GameError::LeaveNotAllowed),
            Event::Ready => {
                let ghost a0 = effect.actions@;
                if self.stage == MttStage::Init {
                    if self.start_time > ts {
                        effect.push(EffectAction::WaitTimeout { timeout: self.start_time - ts });
                    } else {
                        effect.push(EffectAction::StartGame);
                    }
                }
                assert(effect.actions@ =~= a0 + if self.stage == MttStage::Init {
                    if self.start_time > ts {
                        seq![EffectAction::WaitTimeout { timeout: (self.start_time - ts) as u64 }]
                    } else {
                        seq![EffectAction::StartGame]
                    }
                } else {
                    Seq::empty()
                });
                Ok(())
            },
            Event::Join { players } => {
                if self.stage == MttStage::Init || (self.stage == MttStage::Playing && !self.in_the_money && ts
                    <= self.entry_close_time) {
                    self.add_ranks(&players);
                } else {
                    assert(self.ranks@ =~= self.ranks@ + Seq::<PlayerRank>::empty());
                }
                Ok(())
            },
            Event::Deposit { deposits } => {
                if self.in_the_money || ts > self.entry_close_time {
                    self.reject_all(effect, &deposits);
                    return Ok(());
                }
                let pids = match self.take_deposits(effect, &deposits) {
                    Ok(p) => p,
                    Err(e) => {
                        return Err(e);
                    },
                };
                let ghost a1 = effect.actions@;
                let ghost m_mid = *self;
                let ghost e_mid = *effect;
                match self.sit_players(effect, &pids) {
                    Ok(()) => {},
                    Err(e) => {
                        proof {
                            if m_mid.stage != MttStage::Init {
                                assert(seated_as_run(m_mid, e_mid, pids@, Err::<(), GameError>(e), *self, *effect));
                            }
                        }
                        return Err(e);
                    },
                }
                let ghost m_seat = *self;
                self.sort_ranks();
                self.update_alives();
                proof {
                    if m_mid.stage != MttStage::Init {
                        assert(seated_as_run(m_mid, e_mid, pids@, Ok::<(), GameError>(()), m_seat, *effect));
                    }
                }
                Ok(())
            },
            Event::GameStart => {
                self.timestamp = ts;
                if self.ranks.len() == 0 {
                    self.stage = MttStage::Completed;
                } else if self.ranks.len() == 1 {
                    let ghost mt = *self;
                    let ghost et = *effect;
                    let rp = self.apply_prizes(effect);
                    proof {
                        assert(prizes_applied(mt, et, rp, *self, *effect));
                    }
                    match rp {
                        Ok(()) => {},
                        Err(e) => {
                            return Err(e);
                        },
                    }
                } else {
                    self.stage = MttStage::Playing;
                    proof {
                        let n: int = self.ranks@.len() as int;
                        let z: int = self.table_size as int;
                        assert((z + n - 1) / z >= 1) by (nonlinear_arith)
                            requires
                                z > 0,
                                n >= 2,
                        ;
                    }
                    match self.create_tables(effect) {
                        Ok(()) => {},
                        Err(e) => {
                            return Err(e);
                        },
                    }
                    self.update_alives();
                }
                effect.push(EffectAction::Checkpoint);
                Ok(())
            },
            Event::Bridge { event: be, .. } => match be {
                HoldemBridgeEvent::GameResult { table_id, player_results, table, .. } => {
                    self.handle_game_result(effect, table_id, &player_results, table)
                },
                _ => Err(GameError::InvalidBridgeEvent),
            },
            Event::SubGameReady { game_id, table } => {
                self.launched_table_ids.push(game_id);
                self.tables.insert(table.table_id, table);
                effect.push(EffectAction::Checkpoint);
                Ok(())
            },
            Event::WaitingTimeout => {
                match self.stage {
                    MttStage::Init => {
                        effect.push(EffectAction::StartGame);
                    },
                    MttStage::DistributingPrize => {
                        self.distribute_awards(effect);
                    },
                    _ => {},
                }
                Ok(())
            },
            _ => Ok(()),
        }
    }
}

/// The bonuses of the first eight players, by place from 1.
pub open spec fn awards(rs: Seq<PlayerRank>) -> Seq<EffectAction> {
    let n = if rs.len() < 8 { rs.len() as int } else { 8 };
    Seq::new(n as nat, |i: int| EffectAction::Award { player_id: rs[i].id, rank: (i + 1) as usize })
}

} // verus!
