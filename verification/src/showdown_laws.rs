//! Laws of the showdown: who shares the strongest hand, and how tied
//! players are grouped.

use vstd::prelude::*;
use crate::showdown::{showdown_sets, tiers};
use crate::holdem_evaluator::value_sign_from;
use crate::laws::{lemma_sign_zero, ranked_desc, same_lengths};

verus! {

broadcast use vstd::seq_lib::group_seq_properties;

/// No two hands belong to the same player.
pub open spec fn distinct_ids(ranked: Seq<(u64, Seq<u8>)>) -> bool {
    forall|i: int, j: int| 0 <= i < j < ranked.len() ==> ranked[i].0 != ranked[j].0
}

/// At a showdown, a player is in the first set of winners exactly when
/// their hand's value equals the top-ranked hand's value: a strictly
/// weaker hand never shares the first pot.
pub proof fn law_first_winners_tie_the_top(ranked: Seq<(u64, Seq<u8>)>, i: int)
    requires
        ranked.len() > 0,
        distinct_ids(ranked),
        0 <= i < ranked.len(),
    ensures
        showdown_sets(ranked)[0].contains(ranked[i].0) <==> ranked[i].1 == ranked[0].1,
{
    let w = ranked[0];
    let rest = ranked.drop_first();
    let f = rest.filter(crate::showdown::same_value(w.1));
    let draws = f.map_values(|e: (u64, Seq<u8>)| e.0);
    let first = showdown_sets(ranked)[0];
    assert(first == if draws.len() > 0 { draws.push(w.0) } else { seq![w.0] });
    if i == 0 {
        if draws.len() > 0 {
            assert(first[first.len() - 1] == w.0);
        } else {
            assert(first[0] == w.0);
        }
    } else {
        assert(rest[i - 1] == ranked[i]);
        if ranked[i].1 == w.1 {
            rest.lemma_filter_contains(crate::showdown::same_value(w.1), i - 1);
            let k = choose|k: int| 0 <= k < f.len() && f[k] == rest[i - 1];
            assert(draws[k] == ranked[i].0);
            assert(first[k] == draws[k]);
        } else {
            if first.contains(ranked[i].0) {
                let k = choose|k: int| 0 <= k < first.len() && first[k] == ranked[i].0;
                if draws.len() > 0 && k < draws.len() {
                    assert(first[k] == draws[k]);
                    assert(draws[k] == f[k].0);
                    rest.lemma_filter_pred(crate::showdown::same_value(w.1), k);
                    assert(f.contains(f[k]));
                    rest.lemma_filter_contains_rev(crate::showdown::same_value(w.1), f[k]);
                    let m = choose|m: int| 0 <= m < rest.len() && rest[m] == f[k];
                    assert(rest[m] == ranked[m + 1]);
                    assert(ranked[m + 1].0 == ranked[i].0);
                    assert(m + 1 == i);
                    assert(false);
                } else {
                    assert(first[k] == w.0);
                    assert(ranked[0].0 == ranked[i].0);
                    assert(false);
                }
            }
        }
    }
}

/// At a showdown, every set of winners after the first is a single player
/// whose hand is weaker than the top-ranked one (a value other than the
/// top's), and every such player has a set of their own.
pub proof fn law_weaker_players_alone(ranked: Seq<(u64, Seq<u8>)>, i: int, m: int)
    requires
        ranked.len() > 0,
        0 <= i < ranked.len(),
    ensures
        1 <= m < showdown_sets(ranked).len() ==> showdown_sets(ranked)[m].len() == 1 && exists|a: int|
            0 < a < ranked.len() && ranked[a].1 != ranked[0].1 && showdown_sets(ranked)[m][0] == #[trigger] ranked[a].0,
        ranked[i].1 != ranked[0].1 ==> exists|b: int|
            1 <= b < showdown_sets(ranked).len() && #[trigger] showdown_sets(ranked)[b] == seq![ranked[i].0],
{
    let w = ranked[0];
    let rest = ranked.drop_first();
    let f = rest.filter(crate::showdown::other_value(w.1));
    let weaker = f.map_values(|e: (u64, Seq<u8>)| seq![e.0]);
    let d = rest.filter(crate::showdown::same_value(w.1)).map_values(|e: (u64, Seq<u8>)| e.0);
    let head = if d.len() > 0 { seq![d.push(w.0)] } else { seq![seq![w.0]] };
    let sets = showdown_sets(ranked);
    assert(sets == head + weaker);
    if 1 <= m < sets.len() {
        assert(sets[m] == weaker[m - 1]);
        rest.lemma_filter_pred(crate::showdown::other_value(w.1), m - 1);
        assert(f.contains(f[m - 1]));
        rest.lemma_filter_contains_rev(crate::showdown::other_value(w.1), f[m - 1]);
        let c = choose|c: int| 0 <= c < rest.len() && rest[c] == f[m - 1];
        assert(rest[c] == ranked[c + 1]);
        assert(sets[m][0] == ranked[c + 1].0);
    }
    if ranked[i].1 != ranked[0].1 {
        assert(i > 0);
        assert(rest[i - 1] == ranked[i]);
        rest.lemma_filter_contains(crate::showdown::other_value(w.1), i - 1);
        let k = choose|k: int| 0 <= k < f.len() && f[k] == rest[i - 1];
        assert(sets[k + 1] == weaker[k]);
        assert(sets[k + 1] == seq![ranked[i].0]);
    }
}

/// The value shared by each tier of ranked hands.
pub open spec fn tier_values(ranked: Seq<(u64, Seq<u8>)>) -> Seq<Seq<u8>>
    decreases ranked.len(),
{
    if ranked.len() == 0 {
        Seq::empty()
    } else {
        let tv = tier_values(ranked.drop_last());
        if ranked.len() > 1 && ranked[ranked.len() - 2].1 == ranked.last().1 {
            tv
        } else {
            tv.push(ranked.last().1)
        }
    }
}

/// Every member of a tier is the player of a hand of the tier's value.
proof fn lemma_tier_members(ranked: Seq<(u64, Seq<u8>)>)
    ensures
        tier_values(ranked).len() == tiers(ranked).len(),
        ranked.len() > 0 ==> tiers(ranked).len() > 0 && tier_values(ranked).last() == ranked.last().1,
        forall|t: int, k: int|
            0 <= t < tiers(ranked).len() && 0 <= k < tiers(ranked)[t].len() ==> exists|i: int|
                0 <= i < ranked.len() && ranked[i].0 == #[trigger] tiers(ranked)[t][k] && ranked[i].1
                    == tier_values(ranked)[t],
    decreases ranked.len(),
{
    if ranked.len() > 0 {
        let rest = ranked.drop_last();
        lemma_tier_members(rest);
        let ts = tiers(rest);
        let tv = tier_values(rest);
        let e = ranked.last();
        let n = ranked.len() - 1;
        assert(ranked[n] == e);
        assert forall|t: int, k: int|
            0 <= t < tiers(ranked).len() && 0 <= k < tiers(ranked)[t].len() implies exists|i: int|
                0 <= i < ranked.len() && ranked[i].0 == #[trigger] tiers(ranked)[t][k] && ranked[i].1
                    == tier_values(ranked)[t] by {
            if ranked.len() > 1 && ranked[ranked.len() - 2].1 == e.1 {
                assert(rest.last() == ranked[ranked.len() - 2]);
                let u = ts.update(ts.len() - 1, ts.last().push(e.0));
                assert(tiers(ranked) == u);
                assert(tier_values(ranked) == tv);
                if t == ts.len() - 1 && k == ts.last().len() {
                    assert(tiers(ranked)[t][k] == e.0);
                    assert(ranked[n].0 == tiers(ranked)[t][k]);
                } else {
                    assert(tiers(ranked)[t][k] == ts[t][k]);
                    let i = choose|i: int| 0 <= i < rest.len() && rest[i].0 == ts[t][k] && rest[i].1 == tv[t];
                    assert(ranked[i] == rest[i]);
                }
            } else {
                let u = ts.push(seq![e.0]);
                assert(tiers(ranked) == u);
                assert(tier_values(ranked) == tv.push(e.1));
                if t == ts.len() {
                    assert(tiers(ranked)[t][k] == e.0);
                    assert(ranked[n].0 == tiers(ranked)[t][k]);
                } else {
                    assert(tiers(ranked)[t][k] == ts[t][k]);
                    let i = choose|i: int| 0 <= i < rest.len() && rest[i].0 == ts[t][k] && rest[i].1 == tv[t];
                    assert(ranked[i] == rest[i]);
                }
            }
        }
    }
}

/// Two players are in the same tier of ranked hands only if their hands
/// have the same value: a weaker hand never ties a stronger one.
pub proof fn law_tier_members_tie(ranked: Seq<(u64, Seq<u8>)>, t: int, i: int, j: int)
    requires
        distinct_ids(ranked),
        0 <= i < ranked.len(),
        0 <= j < ranked.len(),
        0 <= t < tiers(ranked).len(),
        tiers(ranked)[t].contains(ranked[i].0),
        tiers(ranked)[t].contains(ranked[j].0),
    ensures
        ranked[i].1 == ranked[j].1,
{
    lemma_tier_members(ranked);
    let ts = tiers(ranked);
    let tv = tier_values(ranked);
    let ki = choose|k: int| 0 <= k < ts[t].len() && ts[t][k] == ranked[i].0;
    let kj = choose|k: int| 0 <= k < ts[t].len() && ts[t][k] == ranked[j].0;
    let a = choose|a: int| 0 <= a < ranked.len() && ranked[a].0 == ts[t][ki] && ranked[a].1 == tv[t];
    let b = choose|b: int| 0 <= b < ranked.len() && ranked[b].0 == ts[t][kj] && ranked[b].1 == tv[t];
    if a != i {
        if a < i {
            assert(ranked[a].0 != ranked[i].0);
        } else {
            assert(ranked[i].0 != ranked[a].0);
        }
    }
    if b != j {
        if b < j {
            assert(ranked[b].0 != ranked[j].0);
        } else {
            assert(ranked[j].0 != ranked[b].0);
        }
    }
}

/// Each step from one tier to the next is a step between two adjacent
/// hands of different values.
proof fn lemma_tier_boundaries(ranked: Seq<(u64, Seq<u8>)>)
    ensures
        forall|t: int|
            0 <= t < tier_values(ranked).len() - 1 ==> exists|i: int|
                #![trigger ranked[i]]
                1 <= i < ranked.len() && ranked[i - 1].1 == #[trigger] tier_values(ranked)[t] && ranked[i].1
                    == tier_values(ranked)[t + 1] && ranked[i - 1].1 != ranked[i].1,
    decreases ranked.len(),
{
    if ranked.len() > 0 {
        let rest = ranked.drop_last();
        lemma_tier_boundaries(rest);
        lemma_tier_members(rest);
        let tv = tier_values(rest);
        let e = ranked.last();
        let n = ranked.len() - 1;
        assert(ranked[n] == e);
        assert forall|t: int| 0 <= t < tier_values(ranked).len() - 1 implies exists|i: int|
            #![trigger ranked[i]]
            1 <= i < ranked.len() && ranked[i - 1].1 == #[trigger] tier_values(ranked)[t] && ranked[i].1
                == tier_values(ranked)[t + 1] && ranked[i - 1].1 != ranked[i].1 by {
            if ranked.len() > 1 && ranked[ranked.len() - 2].1 == e.1 {
                assert(tier_values(ranked) == tv);
                let i = choose|i: int|
                        #![trigger rest[i]]
                    1 <= i < rest.len() && rest[i - 1].1 == tv[t] && rest[i].1 == tv[t + 1] && rest[i - 1].1
                        != rest[i].1;
                assert(ranked[i - 1] == rest[i - 1] && ranked[i] == rest[i]);
            } else {
                assert(tier_values(ranked) == tv.push(e.1));
                if t < tv.len() - 1 {
                    let i = choose|i: int|
                        #![trigger rest[i]]
                        1 <= i < rest.len() && rest[i - 1].1 == tv[t] && rest[i].1 == tv[t + 1]
                            && rest[i - 1].1 != rest[i].1;
                    assert(ranked[i - 1] == rest[i - 1] && ranked[i] == rest[i]);
                } else {
                    assert(rest.len() > 0);
                    assert(ranked[n - 1] == rest.last());
                    assert(ranked[n].1 == tier_values(ranked)[t + 1]);
                }
            }
        }
    }
}

/// Over hands ranked from the strongest down (values of one length), each
/// tier is strictly stronger than the next: a member of a tier has a
/// strictly higher value than any member of the following tier.
pub proof fn law_tiers_strictly_decrease(ranked: Seq<(u64, Seq<u8>)>, len: nat, t: int, i: int, j: int)
    requires
        distinct_ids(ranked),
        ranked_desc(ranked),
        same_lengths(ranked, len),
        0 <= i < ranked.len(),
        0 <= j < ranked.len(),
        0 <= t < tiers(ranked).len() - 1,
        tiers(ranked)[t].contains(ranked[i].0),
        tiers(ranked)[t + 1].contains(ranked[j].0),
    ensures
        value_sign_from(ranked[i].1, ranked[j].1, 0) > 0,
{
    lemma_tier_members(ranked);
    lemma_tier_boundaries(ranked);
    let ts = tiers(ranked);
    let tv = tier_values(ranked);
    let ki = choose|k: int| 0 <= k < ts[t].len() && ts[t][k] == ranked[i].0;
    let u = t + 1;
    let kj = choose|k: int| 0 <= k < ts[u].len() && ts[u][k] == ranked[j].0;
    let a = choose|a: int| 0 <= a < ranked.len() && ranked[a].0 == ts[t][ki] && ranked[a].1 == tv[t];
    let b = choose|b: int| 0 <= b < ranked.len() && ranked[b].0 == ts[u][kj] && ranked[b].1 == tv[u];
    if a != i {
        if a < i {
            assert(ranked[a].0 != ranked[i].0);
        } else {
            assert(ranked[i].0 != ranked[a].0);
        }
    }
    if b != j {
        if b < j {
            assert(ranked[b].0 != ranked[j].0);
        } else {
            assert(ranked[j].0 != ranked[b].0);
        }
    }
    let m = choose|m: int|
        #![trigger ranked[m]]
        1 <= m < ranked.len() && ranked[m - 1].1 == tv[t] && ranked[m].1 == tv[t + 1] && ranked[m - 1].1
            != ranked[m].1;
    assert(value_sign_from(ranked[m - 1].1, ranked[m].1, 0) >= 0);
    assert(ranked[m - 1].1.len() == len && ranked[m].1.len() == len);
    if value_sign_from(ranked[m - 1].1, ranked[m].1, 0) == 0 {
        lemma_sign_zero(ranked[m - 1].1, ranked[m].1, 0);
        assert(ranked[m - 1].1 =~= ranked[m - 1].1.skip(0));
        assert(ranked[m].1 =~= ranked[m].1.skip(0));
    }
}

} // verus!
