//! Laws of the tournaments: how the rankings are ordered and how the
//! players are spread over the tables at the start.

use vstd::prelude::*;
use crate::ltmtt::{
    chips_pos as lt_chips_pos, first_fit, level_for, no_table_fits, paid_count, settle_done, sort_by_chips as lt_sort_by_chips,
    table_found, LtMtt, LtMttPlayer,
};
use crate::errors::GameError;
use crate::effect::{Effect, EffectAction};
use crate::mtt::{
    bounty_handled, bounty_sum, chips_pos, elim_run, first_rank, lemma_shares_past_end, paid_places, paid_shares, prize_of,
    shares_sum, sort_by_chips, spread, spread_from, tables_needed, win_run, BountyRun, Mtt, PlayerRank, WinRun,
};
use crate::mtt_base::PlayerResult;
use crate::mtt_base::{MttTablePlayer, MTT_DEFAULT_TIME_CARDS};

verus! {

broadcast use vstd::seq_lib::group_seq_properties;

/// Ranks by decreasing chips.
pub open spec fn by_decreasing_chips(s: Seq<PlayerRank>) -> bool {
    forall|i: int, j: int| 0 <= i < j < s.len() ==> s[i].chips >= s[j].chips
}

/// Players by decreasing chips.
pub open spec fn players_by_decreasing_chips(s: Seq<LtMttPlayer>) -> bool {
    forall|i: int, j: int| 0 <= i < j < s.len() ==> s[i].chips >= s[j].chips
}

/// Before the insertion point every rank has at least `c` chips; after it,
/// in a sorted ranking, fewer.
proof fn lemma_chips_pos_splits(s: Seq<PlayerRank>, c: u64, j: int)
    requires
        0 <= j <= s.len(),
        by_decreasing_chips(s),
    ensures
        j <= chips_pos(s, c, j) <= s.len(),
        forall|k: int| j <= k < chips_pos(s, c, j) ==> s[k].chips >= c,
        forall|k: int| chips_pos(s, c, j) <= k < s.len() ==> s[k].chips < c,
    decreases s.len() - j,
{
    if j < s.len() && s[j].chips >= c {
        lemma_chips_pos_splits(s, c, j + 1);
    }
}

/// Sorting the ranking by chips gives the same ranks from the most chips
/// to the fewest.
pub proof fn law_ranking_sorted_by_chips(rs: Seq<PlayerRank>)
    ensures
        sort_by_chips(rs).to_multiset() == rs.to_multiset(),
        by_decreasing_chips(sort_by_chips(rs)),
    decreases rs.len(),
{
    if rs.len() > 0 {
        let s = sort_by_chips(rs.drop_last());
        let x = rs.last();
        law_ranking_sorted_by_chips(rs.drop_last());
        lemma_chips_pos_splits(s, x.chips, 0);
        let p = chips_pos(s, x.chips, 0);
        let t = s.insert(p, x);
        assert(t.to_multiset() == s.to_multiset().insert(x)) by {
            vstd::seq_lib::to_multiset_insert(s, p, x);
        }
        assert(rs =~= rs.drop_last().push(x));
        assert(rs.to_multiset() == rs.drop_last().to_multiset().insert(x)) by {
            vstd::seq_lib::to_multiset_build(rs.drop_last(), x);
        }
        assert forall|i: int, j: int| 0 <= i < j < t.len() implies t[i].chips >= t[j].chips by {
            if j < p {
            } else if j == p {
            } else if i < p {
                assert(t[j] == s[j - 1]);
            } else if i == p {
                assert(t[j] == s[j - 1]);
            } else {
                assert(t[i] == s[i - 1] && t[j] == s[j - 1]);
            }
        }
    }
}

/// Before the insertion point every player has at least `c` chips; after
/// it, in a sorted ranking, fewer.
proof fn lemma_lt_chips_pos_splits(s: Seq<LtMttPlayer>, c: u64, j: int)
    requires
        0 <= j <= s.len(),
        players_by_decreasing_chips(s),
    ensures
        j <= lt_chips_pos(s, c, j) <= s.len(),
        forall|k: int| j <= k < lt_chips_pos(s, c, j) ==> s[k].chips >= c,
        forall|k: int| lt_chips_pos(s, c, j) <= k < s.len() ==> s[k].chips < c,
    decreases s.len() - j,
{
    if j < s.len() && s[j].chips >= c {
        lemma_lt_chips_pos_splits(s, c, j + 1);
    }
}

/// Sorting a long-term tournament's ranking gives the same players from
/// the most chips to the fewest.
pub proof fn law_long_term_ranking_sorted_by_chips(rs: Seq<LtMttPlayer>)
    ensures
        lt_sort_by_chips(rs).to_multiset() == rs.to_multiset(),
        players_by_decreasing_chips(lt_sort_by_chips(rs)),
    decreases rs.len(),
{
    if rs.len() > 0 {
        let s = lt_sort_by_chips(rs.drop_last());
        let x = rs.last();
        law_long_term_ranking_sorted_by_chips(rs.drop_last());
        lemma_lt_chips_pos_splits(s, x.chips, 0);
        let p = lt_chips_pos(s, x.chips, 0);
        let t = s.insert(p, x);
        assert(t.to_multiset() == s.to_multiset().insert(x)) by {
            vstd::seq_lib::to_multiset_insert(s, p, x);
        }
        assert(rs =~= rs.drop_last().push(x));
        assert(rs.to_multiset() == rs.drop_last().to_multiset().insert(x)) by {
            vstd::seq_lib::to_multiset_build(rs.drop_last(), x);
        }
        assert forall|i: int, j: int| 0 <= i < j < t.len() implies t[i].chips >= t[j].chips by {
            if j < p {
            } else if j == p {
            } else if i < p {
                assert(t[j] == s[j - 1]);
            } else if i == p {
                assert(t[j] == s[j - 1]);
            } else {
                assert(t[i] == s[i - 1] && t[j] == s[j - 1]);
            }
        }
    }
}

/// The seat of rank `r` at position `q` of a new table.
pub open spec fn seat_of(r: PlayerRank, q: int) -> MttTablePlayer {
    MttTablePlayer { id: r.id, chips: r.chips, position: q as u8, time_cards: MTT_DEFAULT_TIME_CARDS }
}

/// `seat` is rank `k` of the ranking, seated at position `pos`.
pub open spec fn holds_rank(rs: Seq<PlayerRank>, k: int, seat: MttTablePlayer, pos: int) -> bool {
    0 <= k < rs.len() && seat == seat_of(rs[k], pos)
}

/// Rank `j` sits at table `j % nt` of the start, as its `j / nt`-th
/// player.
pub open spec fn rank_seated(rs: Seq<PlayerRank>, nt: int, j: int) -> bool {
    let t = spread(rs, nt, j % nt);
    j / nt < t.len() && holds_rank(rs, j, t[j / nt], j / nt)
}

/// The players of a new table from the `j`-th rank on, every `nt`-th: as
/// many as there are such ranks, the `p`-th being rank `j + p * nt` at
/// position `q + p`.
proof fn lemma_spread_from(rs: Seq<PlayerRank>, nt: int, j: int, q: int)
    requires
        nt > 0,
        0 <= j,
    ensures
        j < rs.len() ==> spread_from(rs, nt, j, q).len() == (rs.len() - j + nt - 1) / nt,
        j >= rs.len() ==> spread_from(rs, nt, j, q).len() == 0,
        forall|p: int| 0 <= p < spread_from(rs, nt, j, q).len() ==> holds_rank(rs, j + p * nt, #[trigger] spread_from(rs, nt, j, q)[p], q + p),
    decreases rs.len() - j,
{
    if j < rs.len() {
        let s = spread_from(rs, nt, j, q);
        let n = rs.len() - j;
        assert((n + nt - 1) / nt == 1 + (n - 1) / nt) by (nonlinear_arith)
            requires
                nt > 0,
                n > 0,
        {
            assert(n + nt - 1 == nt + (n - 1));
        }
        if j + nt < rs.len() {
            let rest = spread_from(rs, nt, j + nt, q + 1);
            lemma_spread_from(rs, nt, j + nt, q + 1);
            assert(s == seq![seat_of(rs[j], q)] + rest);
            assert forall|p: int| 0 <= p < s.len() implies holds_rank(rs, j + p * nt, #[trigger] s[p], q + p) by {
                if p == 0 {
                    assert(p * nt == 0) by (nonlinear_arith)
                        requires
                            p == 0,
                    ;
                } else {
                    assert(s[p] == rest[p - 1]);
                    assert(j + nt + (p - 1) * nt < rs.len());
                    assert(j + nt + (p - 1) * nt == j + p * nt) by (nonlinear_arith);
                    assert(j + p * nt < rs.len());
                    assert(q + 1 + (p - 1) == q + p);
                }
            }
        } else {
            assert((n - 1) / nt == 0) by (nonlinear_arith)
                requires
                    nt > 0,
                    0 < n <= nt,
            ;
            assert(s == seq![seat_of(rs[j], q)]);
            assert forall|p: int| 0 <= p < s.len() implies holds_rank(rs, j + p * nt, #[trigger] s[p], q + p) by {
                assert(p * nt == 0) by (nonlinear_arith)
                    requires
                        p == 0,
                ;
            }
        }
    } else {
        assert(spread_from(rs, nt, j, q) =~= Seq::<MttTablePlayer>::empty());
    }
}

/// At the start the ranking is spread over `tables_needed` new tables,
/// every `nt`-th rank at the same table: each table has at most
/// `table_size` players, the `p`-th player of table `i` is rank
/// `i + p * nt` at position `p`, and every rank sits at exactly one table,
/// rank `j` at table `j % nt` as its `j / nt`-th player.
pub proof fn law_start_tables_seat_everyone_once(rs: Seq<PlayerRank>, table_size: int)
    requires
        table_size > 0,
    ensures
        ({
            let n = rs.len() as int;
            let nt = tables_needed(n, table_size);
            &&& forall|i: int| 0 <= i < nt ==> #[trigger] spread(rs, nt, i).len() <= table_size
            &&& forall|i: int, p: int| 0 <= i < nt && 0 <= p < spread(rs, nt, i).len() ==> holds_rank(rs, i + p * nt, #[trigger] spread(rs, nt, i)[p], p)
            &&& forall|j: int| 0 <= j < n ==> #[trigger] rank_seated(rs, nt, j)
        }),
{
    let n = rs.len() as int;
    let nt = tables_needed(n, table_size);
    if n > 0 {
        assert(nt > 0 && n <= nt * table_size) by (nonlinear_arith)
            requires
                nt == (table_size + n - 1) / table_size,
                table_size > 0,
                n > 0,
        {
            assert(table_size + n - 1 >= table_size);
        }
        assert forall|i: int| 0 <= i < nt implies #[trigger] spread(rs, nt, i).len() <= table_size by {
            lemma_spread_from(rs, nt, i, 0);
            if i < n {
                assert((n - i + nt - 1) / nt <= table_size) by (nonlinear_arith)
                    requires
                        nt > 0,
                        0 <= i < n,
                        n <= nt * table_size,
                {
                    assert(n - i + nt - 1 < nt * table_size + nt);
                    assert(n - i + nt - 1 < nt * (table_size + 1));
                }
            }
        }
        assert forall|i: int, p: int| 0 <= i < nt && 0 <= p < spread(rs, nt, i).len() implies holds_rank(rs, i + p * nt, #[trigger] spread(rs, nt, i)[p], p) by {
            lemma_spread_from(rs, nt, i, 0);
        }
        assert forall|j: int| 0 <= j < n implies #[trigger] rank_seated(rs, nt, j) by {
            let i = j % nt;
            let p = j / nt;
            assert(j == i + p * nt && 0 <= i < nt && 0 <= p) by (nonlinear_arith)
                requires
                    nt > 0,
                    j >= 0,
                    i == j % nt,
                    p == j / nt,
            ;
            lemma_spread_from(rs, nt, i, 0);
            assert(p < (n - i + nt - 1) / nt) by (nonlinear_arith)
                requires
                    nt > 0,
                    0 <= i < nt,
                    p >= 0,
                    i + p * nt < n,
            {
                assert(n - i + nt - 1 >= p * nt + nt);
                assert(p * nt + nt == (p + 1) * nt);
            }
        }
    }
}

/// What the commands pay out to players.
pub open spec fn paid_out(actions: Seq<EffectAction>) -> int
    decreases actions.len(),
{
    if actions.len() == 0 {
        0
    } else {
        paid_out(actions.drop_last()) + match actions.last() {
            EffectAction::Withdraw { amount, .. } => amount as int,
            _ => 0,
        }
    }
}

/// Changing one rank changes the bounties held by the difference.
proof fn lemma_bounty_sum_update(s: Seq<PlayerRank>, k: int, r: PlayerRank)
    requires
        0 <= k < s.len(),
    ensures
        bounty_sum(s.update(k, r)) == bounty_sum(s) - s[k].bounty_reward - s[k].bounty_transfer + r.bounty_reward
            + r.bounty_transfer,
    decreases s.len(),
{
    let t = s.update(k, r);
    if k == s.len() - 1 {
        assert(t.drop_last() =~= s.drop_last());
    } else {
        assert(t.drop_last() =~= s.drop_last().update(k, r));
        lemma_bounty_sum_update(s.drop_last(), k, r);
    }
}

/// Looking for a rank from a valid index gives a valid index or the end.
proof fn lemma_first_rank_from(rs: Seq<PlayerRank>, id: u64, j: int)
    requires
        0 <= j,
    ensures
        first_rank(rs, id, j) >= 0,
    decreases rs.len() - j,
{
    if j < rs.len() && rs[j].id != id {
        lemma_first_rank_from(rs, id, j + 1);
    }
}

/// Collecting the bounties of eliminated players moves them from the
/// ranks to the collected amounts, which stay within `u64`.
proof fn lemma_elim_run_keeps(st: BountyRun, ids: Seq<u64>)
    requires
        st.err is None,
        0 <= st.reward <= u64::MAX,
        0 <= st.transfer <= u64::MAX,
        elim_run(st, ids).err is None,
    ensures
        bounty_sum(elim_run(st, ids).ranks) + elim_run(st, ids).reward + elim_run(st, ids).transfer == bounty_sum(st.ranks)
            + st.reward + st.transfer,
        0 <= elim_run(st, ids).reward <= u64::MAX,
        0 <= elim_run(st, ids).transfer <= u64::MAX,
    decreases ids.len(),
{
    if ids.len() > 0 {
        let prev = elim_run(st, ids.drop_last());
        assert(prev.err is None);
        lemma_elim_run_keeps(st, ids.drop_last());
        let k = first_rank(prev.ranks, ids.last(), 0);
        lemma_first_rank_from(prev.ranks, ids.last(), 0);
        let r = prev.ranks[k];
        lemma_bounty_sum_update(prev.ranks, k, PlayerRank { bounty_reward: 0, bounty_transfer: 0, ..r });
    }
}

/// Paying the winners their shares adds each one's transfer share to the
/// bounties held and pays each one's reward share out.
proof fn lemma_win_run_pays(st: WinRun, ids: Seq<u64>, reward: u64, transfer: u64)
    requires
        st.err is None,
        win_run(st, ids, reward, transfer).err is None,
    ensures
        bounty_sum(win_run(st, ids, reward, transfer).ranks) == bounty_sum(st.ranks) + ids.len() * transfer,
        paid_out(win_run(st, ids, reward, transfer).actions) == paid_out(st.actions) + ids.len() * reward,
    decreases ids.len(),
{
    if ids.len() > 0 {
        let prev = win_run(st, ids.drop_last(), reward, transfer);
        assert(prev.err is None);
        lemma_win_run_pays(st, ids.drop_last(), reward, transfer);
        let k = first_rank(prev.ranks, ids.last(), 0);
        lemma_first_rank_from(prev.ranks, ids.last(), 0);
        let r = prev.ranks[k];
        lemma_bounty_sum_update(prev.ranks, k, PlayerRank { bounty_reward: (r.bounty_reward + transfer) as u64, ..r });
        let next = win_run(st, ids, reward, transfer);
        assert(next.actions.drop_last() =~= prev.actions);
        let n = ids.len() as int;
        assert((n - 1) * transfer + transfer == n * transfer) by (nonlinear_arith);
        assert((n - 1) * reward + reward == n * reward) by (nonlinear_arith);
    }
}

/// Handling the bounties of a hand loses no chip and makes none: what the
/// ranks hold in bounties, plus the prize pool, plus what was paid out,
/// is the same before and after.
pub proof fn law_bounties_kept(m0: Mtt, e0: Effect, results: Seq<PlayerResult>, m1: Mtt, e1: Effect)
    requires
        bounty_handled(m0, e0, results, Ok::<(), crate::errors::GameError>(()), m1, e1),
    ensures
        bounty_sum(m0.ranks@) + m0.total_prize + paid_out(e0.actions@) == bounty_sum(m1.ranks@) + m1.total_prize
            + paid_out(e1.actions@),
{
    let elim = crate::mtt::result_ids(results, crate::mtt::eliminated_pred());
    let wins = crate::mtt::result_ids(results, crate::mtt::winner_pred());
    if elim.len() > 0 {
        let st0 = BountyRun { ranks: m0.ranks@, reward: 0, transfer: 0, err: None };
        let b = elim_run(st0, elim);
        lemma_elim_run_keeps(st0, elim);
        let n = wins.len() as int;
        let each_r = (b.reward / n) as u64;
        let each_t = (b.transfer / n) as u64;
        let w0 = WinRun { ranks: b.ranks, actions: e0.actions@, err: None };
        lemma_win_run_pays(w0, wins, each_r, each_t);
        vstd::arithmetic::div_mod::lemma_fundamental_div_mod(b.reward, n);
        vstd::arithmetic::div_mod::lemma_fundamental_div_mod(b.transfer, n);
        assert(0 <= b.reward / n <= b.reward) by {
            vstd::arithmetic::div_mod::lemma_div_pos_is_pos(b.reward, n);
            vstd::arithmetic::div_mod::lemma_div_is_ordered_by_denominator(b.reward, 1, n);
        }
        assert(0 <= b.transfer / n <= b.transfer) by {
            vstd::arithmetic::div_mod::lemma_div_pos_is_pos(b.transfer, n);
            vstd::arithmetic::div_mod::lemma_div_is_ordered_by_denominator(b.transfer, 1, n);
        }
        assert(n * (b.reward / n) == n * each_r);
        assert(n * (b.transfer / n) == n * each_t);
        assert(n * each_r == each_r * n) by (nonlinear_arith);
        assert(n * each_t == each_t * n) by (nonlinear_arith);
    }
}

/// The prizes of the first `n` places of a tournament.
pub open spec fn prizes_total(m: Mtt, n: int) -> int
    decreases n,
{
    if n <= 0 {
        0
    } else {
        prizes_total(m, n - 1) + prize_of(m, n - 1)
    }
}

/// The first `n` prizes are the share's value times their shares.
proof fn lemma_prizes_total(m: Mtt, n: int)
    requires
        0 <= n <= m.prize_rules@.len(),
    ensures
        prizes_total(m, n) == (m.total_prize / (paid_shares(m) as u64)) * shares_sum(m.prize_rules@, n),
    decreases n,
{
    if n > 0 {
        lemma_prizes_total(m, n - 1);
        let each = m.total_prize / (paid_shares(m) as u64);
        let a = shares_sum(m.prize_rules@, n - 1);
        let b = m.prize_rules@[n - 1];
        assert(each * a + each * b == each * (a + b)) by (nonlinear_arith);
        assert(shares_sum(m.prize_rules@, n) == a + b);
    } else {
        let each = m.total_prize / (paid_shares(m) as u64);
        let z = shares_sum(m.prize_rules@, n);
        assert(each * z == 0) by (nonlinear_arith)
            requires
                z == 0,
        ;
    }
}

/// The prizes of a tournament never take more than the prize pool, and
/// leave less of it than one share's worth per share.
pub proof fn law_prizes_within_pool(m: Mtt)
    requires
        0 < paid_shares(m) <= 255,
    ensures
        prizes_total(m, paid_places(m)) <= m.total_prize,
        m.total_prize - prizes_total(m, paid_places(m)) < paid_shares(m),
{
    let n = paid_places(m);
    lemma_prizes_total(m, n);
    if m.ranks@.len() >= m.prize_rules@.len() {
        lemma_shares_past_end(m.prize_rules@, m.ranks@.len() as int);
    }
    let sh = paid_shares(m) as int;
    let total = m.total_prize as int;
    assert(sh as u64 == sh);
    vstd::arithmetic::div_mod::lemma_fundamental_div_mod(total, sh);
    vstd::arithmetic::div_mod::lemma_mod_pos_bound(total, sh);
    assert((total / sh) * sh == sh * (total / sh)) by (nonlinear_arith);
}

/// What the commands pay out, split at any point.
proof fn lemma_paid_out_add(a: Seq<EffectAction>, b: Seq<EffectAction>)
    ensures
        paid_out(a + b) == paid_out(a) + paid_out(b),
    decreases b.len(),
{
    if b.len() > 0 {
        lemma_paid_out_add(a, b.drop_last());
        assert((a + b).drop_last() =~= a + b.drop_last());
    }
}

/// What the first `n` places of a long-term tournament are paid.
proof fn lemma_lt_paid(m0: LtMtt, each: u64, n: int)
    requires
        0 <= n <= m0.prize_rules@.len(),
        n <= m0.rankings@.len(),
        forall|i: int| 0 <= i < n ==> each * m0.prize_rules@[i] <= u64::MAX,
    ensures
        paid_out(Seq::new(
            n as nat,
            |i: int| EffectAction::Withdraw { player_id: m0.rankings@[i].player_id, amount: (each * m0.prize_rules@[i]) as u64 },
        )) == each * shares_sum(m0.prize_rules@, n),
    decreases n,
{
    if n > 0 {
        let f = |i: int| EffectAction::Withdraw { player_id: m0.rankings@[i].player_id, amount: (each * m0.prize_rules@[i]) as u64 };
        assert(Seq::new(n as nat, f).drop_last() =~= Seq::new((n - 1) as nat, f));
        lemma_lt_paid(m0, each, n - 1);
        let a = shares_sum(m0.prize_rules@, n - 1);
        let b = m0.prize_rules@[n - 1];
        assert(each * a + each * b == each * (a + b)) by (nonlinear_arith);
        assert(shares_sum(m0.prize_rules@, n) == a + b);
        assert(Seq::new(n as nat, f).last() == f(n - 1));
        assert(each * b <= u64::MAX);
    } else {
        let z = shares_sum(m0.prize_rules@, n);
        assert(each * z == 0) by (nonlinear_arith)
            requires
                z == 0,
        ;
    }
}

/// Settling a long-term tournament pays out no more than the prize pool,
/// and leaves less of it than one share's worth per share.
pub proof fn law_long_term_prizes_within_pool(m0: LtMtt, e0: Effect, m1: LtMtt, e1: Effect)
    requires
        settle_done(m0, e0, Ok::<(), crate::errors::GameError>(()), m1, e1),
        m0.rankings@.len() > 0,
    ensures
        paid_out(e1.actions@) - paid_out(e0.actions@) <= m0.total_prize,
        m0.total_prize - (paid_out(e1.actions@) - paid_out(e0.actions@)) < shares_sum(m0.prize_rules@, m0.rankings@.len() as int),
{
    let sh = shares_sum(m0.prize_rules@, m0.rankings@.len() as int) as int;
    let total = m0.total_prize as int;
    let each = m0.total_prize / (sh as u64);
    let n = paid_count(m0);
    if m0.rankings@.len() >= m0.prize_rules@.len() {
        lemma_shares_past_end(m0.prize_rules@, m0.rankings@.len() as int);
    }
    assert(sh as u64 == sh);
    vstd::arithmetic::div_mod::lemma_fundamental_div_mod(total, sh);
    vstd::arithmetic::div_mod::lemma_mod_pos_bound(total, sh);
    assert forall|i: int| 0 <= i < n implies each * m0.prize_rules@[i] <= u64::MAX by {
        crate::mtt::lemma_shares_grow(m0.prize_rules@, i + 1, n);
        assert(m0.prize_rules@[i] <= sh);
        assert(each * m0.prize_rules@[i] <= each * sh) by (nonlinear_arith)
            requires
                m0.prize_rules@[i] <= sh,
                each >= 0,
        ;
        assert(each * sh == sh * (total / sh)) by (nonlinear_arith)
            requires
                each == total / sh,
        ;
    }
    lemma_lt_paid(m0, each, n);
    lemma_paid_out_add(
        e0.actions@,
        Seq::new(
            n as nat,
            |i: int| EffectAction::Withdraw { player_id: m0.rankings@[i].player_id, amount: (each * m0.prize_rules@[i]) as u64 },
        ),
    );
    assert(each * sh == sh * (total / sh)) by (nonlinear_arith)
        requires
            each == total / sh,
    ;
}

/// A table a player holding `chips` may take `seats` seats at: its small
/// blind is at least that of the level the chips call for, and it has the
/// seats free.
pub open spec fn table_can_seat(m: LtMtt, u: usize, seats: usize, chips: u64) -> bool {
    &&& m.tables@.contains_key(u)
    &&& level_for(m, chips).sb <= m.tables@[u].sb
    &&& m.tables@[u].players@.len() + seats <= m.table_size
}

/// Looking for a table to sit at (a long-running tournament) succeeds
/// whenever the chips call for a level and some table can seat the
/// players; what it finds can seat them, with the lowest small blind of
/// those that can and, among those, the most players; it reports no table
/// only when none can.
pub proof fn law_table_found_whenever_one_can_seat(m: LtMtt, seats: usize, chips: u64, r: Result<usize, GameError>)
    requires
        table_found(m, seats, chips, r),
    ensures
        first_fit(m.blind_rules@, chips, 0) < m.blind_rules@.len() && (exists|u: usize| #[trigger] table_can_seat(m, u, seats, chips))
            ==> r is Ok,
        r matches Ok(t) ==> table_can_seat(m, t, seats, chips),
        r matches Ok(t) ==> forall|u: usize| #[trigger] table_can_seat(m, u, seats, chips) ==> m.tables@[t].sb <= m.tables@[u].sb
            && (m.tables@[t].sb == m.tables@[u].sb ==> m.tables@[u].players@.len() <= m.tables@[t].players@.len()),
        r == Err::<usize, GameError>(GameError::TableNotFound) ==> forall|u: usize| !#[trigger] table_can_seat(m, u, seats, chips),
{
    if let Ok(t) = r {
        assert forall|u: usize| #[trigger] table_can_seat(m, u, seats, chips) implies m.tables@[t].sb <= m.tables@[u].sb
            && (m.tables@[t].sb == m.tables@[u].sb ==> m.tables@[u].players@.len() <= m.tables@[t].players@.len()) by {
            assert(m.tables@.contains_key(u));
        }
    }
    if first_fit(m.blind_rules@, chips, 0) < m.blind_rules@.len() {
        if exists|u: usize| #[trigger] table_can_seat(m, u, seats, chips) {
            let u = choose|u: usize| #[trigger] table_can_seat(m, u, seats, chips);
            assert(m.tables@.contains_key(u));
            assert(!no_table_fits(m, seats, chips));
        }
        if r == Err::<usize, GameError>(GameError::TableNotFound) {
            assert forall|u: usize| !#[trigger] table_can_seat(m, u, seats, chips) by {
                if table_can_seat(m, u, seats, chips) {
                    assert(m.tables@.contains_key(u));
                }
            }
        }
    }
}

} // verus!
