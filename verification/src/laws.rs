//! Laws of the game: what holds of every hand value, every ranking and
//! every split of the pots.

use std::cmp::Ordering;
use vstd::prelude::*;
use crate::essential::{pots_total, PotView};
use crate::game::Holdem;
use crate::holdem_evaluator::{compare_values, value_sign_from};
use crate::settle::{all_have_winners, odd_of, odd_sum, rake_fails, rake_of, share};
use crate::showdown::{rank_hands, rank_pos, tiers};
use crate::omaha_evaluator::{
    best_candidate, candidates, combos, drawn_from, lemma_best_candidate_in_range, lemma_candidate_parts,
    lemma_candidates_exist, lemma_combos, omaha_best,
};

verus! {

/// Swapping two values reverses their comparison.
proof fn lemma_sign_swap(a: Seq<u8>, b: Seq<u8>, i: int)
    ensures
        value_sign_from(a, b, i) == -value_sign_from(b, a, i),
    decreases a.len() - i,
{
    if 0 <= i < a.len() && i < b.len() && a[i] == b[i] {
        lemma_sign_swap(a, b, i + 1);
    }
}

/// A value compares equal to itself.
proof fn lemma_sign_refl(a: Seq<u8>, i: int)
    ensures
        value_sign_from(a, a, i) == 0,
    decreases a.len() - i,
{
    if 0 <= i < a.len() {
        lemma_sign_refl(a, i + 1);
    }
}

/// Values of one length compare transitively.
proof fn lemma_sign_trans(a: Seq<u8>, b: Seq<u8>, c: Seq<u8>, i: int)
    requires
        a.len() == b.len(),
        b.len() == c.len(),
        value_sign_from(a, b, i) >= 0,
        value_sign_from(b, c, i) >= 0,
    ensures
        value_sign_from(a, c, i) >= 0,
    decreases a.len() - i,
{
    if 0 <= i < a.len() && a[i] == b[i] && b[i] == c[i] {
        lemma_sign_trans(a, b, c, i + 1);
    }
}

/// Values of one length that compare equal are equal.
pub(crate) proof fn lemma_sign_zero(a: Seq<u8>, b: Seq<u8>, i: int)
    requires
        a.len() == b.len(),
        0 <= i <= a.len(),
        value_sign_from(a, b, i) == 0,
    ensures
        a.skip(i) == b.skip(i),
    decreases a.len() - i,
{
    if i < a.len() {
        lemma_sign_zero(a, b, i + 1);
        assert(a.skip(i) =~= seq![a[i]] + a.skip(i + 1));
        assert(b.skip(i) =~= seq![b[i]] + b.skip(i + 1));
    } else {
        assert(a.skip(i) =~= b.skip(i));
    }
}

/// Comparing hand values is antisymmetric: the first is stronger exactly
/// when the second is weaker, and they tie both ways.
pub proof fn law_compare_antisymmetric(a: Seq<u8>, b: Seq<u8>)
    ensures
        compare_values(a, b) == Ordering::Greater <==> compare_values(b, a) == Ordering::Less,
        compare_values(a, b) == Ordering::Equal <==> compare_values(b, a) == Ordering::Equal,
{
    lemma_sign_swap(a, b, 0);
}

/// A hand value ties with itself.
pub proof fn law_compare_reflexive(a: Seq<u8>)
    ensures
        compare_values(a, a) == Ordering::Equal,
{
    lemma_sign_refl(a, 0);
}

/// Among hand values of one length, comparing is transitive, and a tie
/// means the values are the same.
pub proof fn law_compare_total_order(a: Seq<u8>, b: Seq<u8>, c: Seq<u8>)
    requires
        a.len() == b.len(),
        b.len() == c.len(),
    ensures
        compare_values(a, b) != Ordering::Less && compare_values(b, c) != Ordering::Less ==> compare_values(a, c)
            != Ordering::Less,
        compare_values(a, b) == Ordering::Equal ==> a == b,
{
    if value_sign_from(a, b, 0) >= 0 && value_sign_from(b, c, 0) >= 0 {
        lemma_sign_trans(a, b, c, 0);
    }
    if value_sign_from(a, b, 0) == 0 {
        lemma_sign_zero(a, b, 0);
        assert(a.skip(0) =~= a);
        assert(b.skip(0) =~= b);
    }
}

/// All values have the same length.
pub open spec fn same_lengths(es: Seq<(u64, Seq<u8>)>, n: nat) -> bool {
    forall|i: int| 0 <= i < es.len() ==> (#[trigger] es[i]).1.len() == n
}

/// Ranked from the strongest down: no hand is weaker than a later one.
pub open spec fn ranked_desc(s: Seq<(u64, Seq<u8>)>) -> bool {
    forall|i: int, j: int| 0 <= i < j < s.len() ==> value_sign_from(#[trigger] s[i].1, #[trigger] s[j].1, 0) >= 0
}

proof fn lemma_rank_pos(s: Seq<(u64, Seq<u8>)>, v: Seq<u8>, j: int)
    requires
        0 <= j <= s.len(),
        forall|k: int| 0 <= k < j ==> value_sign_from(s[k].1, v, 0) >= 0,
    ensures
        j <= rank_pos(s, v, j) <= s.len(),
        forall|k: int| 0 <= k < rank_pos(s, v, j) ==> value_sign_from(s[k].1, v, 0) >= 0,
        rank_pos(s, v, j) < s.len() ==> value_sign_from(s[rank_pos(s, v, j)].1, v, 0) < 0,
    decreases s.len() - j,
{
    if j < s.len() && value_sign_from(s[j].1, v, 0) >= 0 {
        lemma_rank_pos(s, v, j + 1);
    }
}

proof fn lemma_rank_hands(es: Seq<(u64, Seq<u8>)>, n: nat)
    requires
        same_lengths(es, n),
    ensures
        ranked_desc(rank_hands(es)),
        rank_hands(es).to_multiset() == es.to_multiset(),
        same_lengths(rank_hands(es), n),
    decreases es.len(),
{
    broadcast use vstd::seq_lib::group_seq_properties, vstd::multiset::group_multiset_axioms;

    if es.len() > 0 {
        let rest = es.drop_last();
        assert(same_lengths(rest, n)) by {
            assert forall|i: int| 0 <= i < rest.len() implies (#[trigger] rest[i]).1.len() == n by {
                assert(rest[i] == es[i]);
            }
        }
        lemma_rank_hands(rest, n);
        let s = rank_hands(rest);
        let e = es.last();
        assert(e == es[es.len() - 1]);
        lemma_rank_pos(s, e.1, 0);
        let p = rank_pos(s, e.1, 0);
        let t = s.insert(p, e);
        assert(t == rank_hands(es));
        assert forall|i: int, j: int| 0 <= i < j < t.len() implies value_sign_from(#[trigger] t[i].1, #[trigger] t[j].1, 0)
            >= 0 by {
            if j < p {
                assert(t[i] == s[i] && t[j] == s[j]);
            } else if j == p {
                assert(t[i] == s[i]);
            } else if i < p {
                assert(t[i] == s[i] && t[j] == s[j - 1]);
            } else if i == p {
                assert(t[j] == s[j - 1]);
                assert(value_sign_from(s[p].1, e.1, 0) < 0);
                lemma_sign_swap(s[p].1, e.1, 0);
                if j - 1 > p {
                    assert(value_sign_from(s[p].1, s[j - 1].1, 0) >= 0);
                    lemma_sign_trans(e.1, s[p].1, s[j - 1].1, 0);
                }
            } else {
                assert(t[i] == s[i - 1] && t[j] == s[j - 1]);
            }
        }
        assert(t.to_multiset() =~= s.to_multiset().insert(e)) by {
            s.to_multiset_ensures();
            t.to_multiset_ensures();
            vstd::seq_lib::lemma_multiset_commutative(s.take(p), seq![e] + s.skip(p));
            vstd::seq_lib::lemma_multiset_commutative(seq![e], s.skip(p));
            vstd::seq_lib::lemma_multiset_commutative(s.take(p), s.skip(p));
            assert(t =~= s.take(p) + (seq![e] + s.skip(p)));
            assert(s =~= s.take(p) + s.skip(p));
        }
        assert(es.to_multiset() =~= rest.to_multiset().insert(e)) by {
            es.to_multiset_ensures();
            assert(es =~= rest.push(e));
            rest.to_multiset_ensures();
        }
        assert(same_lengths(t, n)) by {
            assert forall|i: int| 0 <= i < t.len() implies (#[trigger] t[i]).1.len() == n by {
                if i < p {
                    assert(t[i] == s[i]);
                } else if i > p {
                    assert(t[i] == s[i - 1]);
                }
            }
        }
    }
}

/// Ranking the hands of a showdown keeps every hand and puts them from the
/// strongest to the weakest (all hand values having one length, as the
/// evaluators give them).
pub proof fn law_ranking_sorts(es: Seq<(u64, Seq<u8>)>, n: nat)
    requires
        same_lengths(es, n),
    ensures
        rank_hands(es).to_multiset() == es.to_multiset(),
        ranked_desc(rank_hands(es)),
{
    lemma_rank_hands(es, n);
}

/// The players of tiers, in order.
pub open spec fn flatten(ts: Seq<Seq<u64>>) -> Seq<u64>
    decreases ts.len(),
{
    if ts.len() == 0 {
        Seq::empty()
    } else {
        flatten(ts.drop_last()) + ts.last()
    }
}

/// Grouping ranked hands into tiers keeps every player once, in rank
/// order, and no tier is empty.
pub proof fn law_tiers_partition(ranked: Seq<(u64, Seq<u8>)>)
    ensures
        flatten(tiers(ranked)) == ranked.map_values(|e: (u64, Seq<u8>)| e.0),
        forall|k: int| 0 <= k < tiers(ranked).len() ==> (#[trigger] tiers(ranked)[k]).len() > 0,
    decreases ranked.len(),
{
    if ranked.len() > 0 {
        let rest = ranked.drop_last();
        law_tiers_partition(rest);
        let t = tiers(rest);
        let e = ranked.last();
        assert(rest.map_values(|e: (u64, Seq<u8>)| e.0).push(e.0) =~= ranked.map_values(|e: (u64, Seq<u8>)| e.0));
        if ranked.len() > 1 && ranked[ranked.len() - 2].1 == e.1 {
            assert(t.len() > 0);
            let u = t.update(t.len() - 1, t.last().push(e.0));
            assert(u.drop_last() =~= t.drop_last());
            assert(flatten(t) == flatten(t.drop_last()) + t.last());
            assert(flatten(u) =~= flatten(t).push(e.0));
            assert forall|k: int| 0 <= k < u.len() implies (#[trigger] u[k]).len() > 0 by {
                if k < u.len() - 1 {
                    assert(u[k] == t[k]);
                }
            }
        } else {
            let u = t.push(seq![e.0]);
            assert(u.drop_last() =~= t);
            assert(flatten(u) =~= flatten(t).push(e.0));
            assert forall|k: int| 0 <= k < u.len() implies (#[trigger] u[k]).len() > 0 by {
                if k < u.len() - 1 {
                    assert(u[k] == t[k]);
                }
            }
        }
    }
}

/// What the winners' shares of the pots come to.
pub open spec fn shares_total(ps: Seq<PotView>) -> int
    decreases ps.len(),
{
    if ps.len() == 0 {
        0
    } else {
        shares_total(ps.drop_last()) + share(ps.last()) * ps.last().winners.len()
    }
}

/// Splitting the pots loses no chip and makes none: the winners' even
/// shares and the odd chips add up to the pots exactly.
pub proof fn law_pot_split_exact(ps: Seq<PotView>)
    requires
        all_have_winners(ps),
    ensures
        shares_total(ps) + odd_sum(ps) == pots_total(ps),
    decreases ps.len(),
{
    if ps.len() > 0 {
        let rest = ps.drop_last();
        assert(all_have_winners(rest)) by {
            assert forall|i: int| 0 <= i < rest.len() implies (#[trigger] rest[i]).winners.len() > 0 by {
                assert(rest[i] == ps[i]);
            }
        }
        law_pot_split_exact(rest);
        let p = ps.last();
        assert(p == ps[ps.len() - 1]);
        let a = p.amount as int;
        let c = p.winners.len() as int;
        assert(c > 0);
        vstd::arithmetic::div_mod::lemma_fundamental_div_mod(a, c);
        assert((a - a % c) == c * (a / c));
        vstd::arithmetic::div_mod::lemma_div_multiples_vanish(a / c, c);
        assert(share(p) == a / c);
        assert(share(p) * c == c * (a / c)) by (nonlinear_arith)
            requires
                share(p) == a / c,
        ;
        assert(share(p) * p.winners.len() == a - odd_of(p));
    }
}

/// The rake never takes the hand's total rake past its cap of `rake_cap`
/// big blinds, nor more than the pot.
pub proof fn law_rake_within_cap(h: Holdem, collected: u64, amount: u64)
    requires
        !rake_fails(h, collected, amount),
        collected <= h.rake_cap * h.bb,
    ensures
        0 <= rake_of(h, collected, amount) <= amount,
        collected + rake_of(h, collected, amount) <= h.rake_cap * h.bb,
{
    if h.mode == crate::essential::GameMode::Cash && h.street != crate::essential::Street::Preflop {
        assert(amount * h.rake >= 0) by (nonlinear_arith);
        assert((amount * h.rake) / 1000 >= 0);
    }
}

/// The best Omaha hand is made of two of the hole cards and three of the
/// board cards.
pub proof fn law_omaha_two_hole_three_board<'a>(hole: Seq<&'a str>, board: Seq<&'a str>)
    requires
        hole.len() >= 2,
        board.len() >= 3,
    ensures
        exists|hc: Seq<&'a str>, bc: Seq<&'a str>|
            omaha_best(hole, board) == hc + bc && hc.len() == 2 && bc.len() == 3 && #[trigger] drawn_from(hc, hole)
                && #[trigger] drawn_from(bc, board),
{
    let hcs = combos(hole, 2);
    let bcs = combos(board, 3);
    lemma_combos(hole, 2);
    lemma_combos(board, 3);
    lemma_candidates_exist(hcs, bcs);
    let cs = candidates(hcs, bcs);
    lemma_best_candidate_in_range(cs, cs.len() as int);
    let k = best_candidate(cs, cs.len() as int);
    lemma_candidate_parts(hcs, bcs, k);
    let (i, j) = choose|i: int, j: int| 0 <= i < hcs.len() && 0 <= j < bcs.len() && cs[k] == #[trigger] hcs[i] + #[trigger] bcs[j];
    assert(hcs[i].len() == 2 && drawn_from(hcs[i], hole));
    assert(bcs[j].len() == 3 && drawn_from(bcs[j], board));
    assert(omaha_best(hole, board) == hcs[i] + bcs[j]);
}

} // verus!
