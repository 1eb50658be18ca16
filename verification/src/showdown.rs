//! Ranking the hands at a showdown: from the strongest to the weakest, and
//! into the sets of players the pots are awarded by.

use vstd::prelude::*;
use crate::holdem_evaluator::{valid_card, valid_cards, value_sign, value_sign_from};

verus! {

/// The hands by their players' ids and values.
pub open spec fn hand_views(v: Seq<(u64, Vec<u8>)>) -> Seq<(u64, Seq<u8>)> {
    v.map_values(|e: (u64, Vec<u8>)| (e.0, e.1@))
}

/// Where a hand of value `v` goes among ranked hands, looking from the
/// `j`-th on: before the first weaker hand, after every hand at least as
/// strong.
pub open spec fn rank_pos(s: Seq<(u64, Seq<u8>)>, v: Seq<u8>, j: int) -> int
    decreases s.len() - j,
{
    if j < 0 || j >= s.len() {
        s.len() as int
    } else if value_sign_from(s[j].1, v, 0) < 0 {
        j
    } else {
        rank_pos(s, v, j + 1)
    }
}

/// The hands from the strongest to the weakest; hands of equal strength
/// keep their order.
pub open spec fn rank_hands(es: Seq<(u64, Seq<u8>)>) -> Seq<(u64, Seq<u8>)>
    decreases es.len(),
{
    if es.len() == 0 {
        Seq::empty()
    } else {
        let s = rank_hands(es.drop_last());
        s.insert(rank_pos(s, es.last().1, 0), es.last())
    }
}

/// The value of the strongest hand is shared by these.
pub open spec fn same_value(v: Seq<u8>) -> spec_fn((u64, Seq<u8>)) -> bool {
    |e: (u64, Seq<u8>)| e.1 == v
}

/// The value of the strongest hand is not shared by these.
pub open spec fn other_value(v: Seq<u8>) -> spec_fn((u64, Seq<u8>)) -> bool {
    |e: (u64, Seq<u8>)| e.1 != v
}

/// The sets of winners of a showdown from ranked hands: first those with
/// the strongest hand (the others that tie with the first, then the
/// first), then every weaker player alone, in rank order.
pub open spec fn showdown_sets(ranked: Seq<(u64, Seq<u8>)>) -> Seq<Seq<u64>> {
    let w = ranked[0];
    let rest = ranked.drop_first();
    let draws = rest.filter(same_value(w.1)).map_values(|e: (u64, Seq<u8>)| e.0);
    let weaker = rest.filter(other_value(w.1)).map_values(|e: (u64, Seq<u8>)| seq![e.0]);
    (if draws.len() > 0 {
        seq![draws.push(w.0)]
    } else {
        seq![seq![w.0]]
    }) + weaker
}

/// The tiers of ranked hands: each run of equal values, by id.
pub open spec fn tiers(ranked: Seq<(u64, Seq<u8>)>) -> Seq<Seq<u64>>
    decreases ranked.len(),
{
    if ranked.len() == 0 {
        Seq::empty()
    } else {
        let t = tiers(ranked.drop_last());
        let e = ranked.last();
        if ranked.len() > 1 && ranked[ranked.len() - 2].1 == e.1 {
            t.update(t.len() - 1, t.last().push(e.0))
        } else {
            t.push(seq![e.0])
        }
    }
}

/// Whether two values are equal.
pub fn values_eq(a: &Vec<u8>, b: &Vec<u8>) -> (r: bool)
    ensures
        r == (a@ == b@),
{
    if a.len() != b.len() {
        return false;
    }
    let mut i: usize = 0;
    while i < a.len()
        invariant
            a@.len() == b@.len(),
            i <= a@.len(),
            forall|j: int| 0 <= j < i ==> a@[j] == b@[j],
        decreases a@.len() - i,
    {
        if a[i] != b[i] {
            return false;
        }
        i = i + 1;
    }
    assert(a@ =~= b@);
    true
}

/// A copy of a value.
fn copy_value(v: &Vec<u8>) -> (r: Vec<u8>)
    ensures
        r@ == v@,
{
    let mut out: Vec<u8> = Vec::new();
    let mut i: usize = 0;
    while i < v.len()
        invariant
            i <= v@.len(),
            out@ == v@.take(i as int),
        decreases v@.len() - i,
    {
        out.push(v[i]);
        assert(v@.take(i + 1) =~= v@.take(i as int).push(v@[i as int]));
        i = i + 1;
    }
    assert(v@.take(i as int) =~= v@);
    out
}

/// Rank the hands from the strongest to the weakest; hands of equal
/// strength keep their order.
pub fn rank_player_hands(hands: Vec<(u64, Vec<u8>)>) -> (r: Vec<(u64, Vec<u8>)>)
    ensures
        hand_views(r@) == rank_hands(hand_views(hands@)),
{
    let ghost orig = hand_views(hands@);
    let total = hands.len();
    let mut rest = hands;
    let mut out: Vec<(u64, Vec<u8>)> = Vec::new();
    let mut k: usize = 0;
    assert(orig.take(0) =~= Seq::<(u64, Seq<u8>)>::empty());
    assert(hand_views(out@) =~= Seq::<(u64, Seq<u8>)>::empty());
    while rest.len() > 0
        invariant
            k <= orig.len(),
            orig.len() == total,
            hand_views(rest@) == orig.skip(k as int),
            hand_views(out@) == rank_hands(orig.take(k as int)),
        decreases rest@.len(),
    {
        let ghost rv = hand_views(rest@);
        let e = rest.remove(0);
        proof {
            assert(hand_views(rest@) =~= rv.drop_first());
            assert(orig.skip(k as int)[0] == (e.0, e.1@));
            assert(orig.skip(k + 1) =~= orig.skip(k as int).drop_first());
            assert(orig.take(k + 1).drop_last() =~= orig.take(k as int));
            assert(orig.take(k + 1).last() == (e.0, e.1@));
        }
        let ghost s = hand_views(out@);
        let mut j: usize = 0;
        while j < out.len()
            invariant
                s == hand_views(out@),
                j <= out@.len(),
                rank_pos(s, e.1@, 0) == rank_pos(s, e.1@, j as int),
            ensures
                j <= out@.len(),
                rank_pos(s, e.1@, 0) == j,
            decreases out@.len() - j,
        {
            assert(s[j as int] == (out@[j as int].0, out@[j as int].1@));
            if value_sign(&out[j].1, &e.1) < 0 {
                break;
            }
            j = j + 1;
        }
        let ghost ev = (e.0, e.1@);
        out.insert(j, e);
        proof {
            assert(hand_views(out@) =~= s.insert(j as int, ev));
        }
        k = k + 1;
    }
    proof {
        assert(orig.skip(k as int).len() == 0);
        assert(orig.take(k as int) =~= orig);
    }
    out
}

/// The sets of winners of a showdown from ranked hands, as `showdown_sets`.
pub fn showdown_winner_sets(ranked: &Vec<(u64, Vec<u8>)>) -> (r: Vec<Vec<u64>>)
    requires
        ranked@.len() > 0,
    ensures
        r@.map_values(|v: Vec<u64>| v@) == showdown_sets(hand_views(ranked@)),
{
    let ghost hv = hand_views(ranked@);
    let ghost rest = hv.drop_first();
    let top = &ranked[0].1;
    let ghost w = hv[0];
    assert(w.1 == top@);
    let mut draws: Vec<u64> = Vec::new();
    let mut weaker: Vec<Vec<u64>> = Vec::new();
    let mut i: usize = 1;
    while i < ranked.len()
        invariant
            hv == hand_views(ranked@),
            rest == hv.drop_first(),
            w == hv[0],
            w.1 == top@,
            1 <= i <= ranked@.len(),
            draws@ == rest.take(i - 1).filter(same_value(w.1)).map_values(|e: (u64, Seq<u8>)| e.0),
            weaker@.map_values(|v: Vec<u64>| v@) == rest.take(i - 1).filter(other_value(w.1)).map_values(
                |e: (u64, Seq<u8>)| seq![e.0],
            ),
        decreases ranked@.len() - i,
    {
        proof {
            crate::holdem_evaluator::lemma_filter_take_step(rest, same_value(w.1), i - 1);
            crate::holdem_evaluator::lemma_filter_take_step(rest, other_value(w.1), i - 1);
            assert(rest[i - 1] == hv[i as int]);
            assert(hv[i as int] == (ranked@[i as int].0, ranked@[i as int].1@));
        }
        let id = ranked[i].0;
        if values_eq(&ranked[i].1, top) {
            let ghost before = draws@;
            draws.push(id);
            proof {
                let f = rest.take(i - 1).filter(same_value(w.1));
                assert(draws@ =~= f.push(rest[i - 1]).map_values(|e: (u64, Seq<u8>)| e.0));
            }
        } else {
            let mut one: Vec<u64> = Vec::new();
            one.push(id);
            let ghost before = weaker@;
            weaker.push(one);
            proof {
                let f = rest.take(i - 1).filter(other_value(w.1));
                assert(one@ =~= seq![id]);
                assert(weaker@.map_values(|v: Vec<u64>| v@) =~= before.map_values(|v: Vec<u64>| v@).push(one@));
                assert(weaker@.map_values(|v: Vec<u64>| v@) =~= f.push(rest[i - 1]).map_values(
                    |e: (u64, Seq<u8>)| seq![e.0],
                ));
            }
        }
        i = i + 1;
    }
    proof {
        assert(rest.take(i - 1) =~= rest);
    }
    let first = ranked[0].0;
    let mut sets: Vec<Vec<u64>> = Vec::new();
    let ghost dv = draws@;
    if draws.len() > 0 {
        draws.push(first);
        sets.push(draws);
    } else {
        let mut one: Vec<u64> = Vec::new();
        one.push(first);
        sets.push(one);
    }
    let ghost head = sets@.map_values(|v: Vec<u64>| v@);
    let mut j: usize = 0;
    let n = weaker.len();
    let ghost wv = weaker@.map_values(|v: Vec<u64>| v@);
    let mut weaker = weaker;
    while weaker.len() > 0
        invariant
            j <= n,
            n == wv.len(),
            weaker@.map_values(|v: Vec<u64>| v@) == wv.skip(j as int),
            sets@.map_values(|v: Vec<u64>| v@) == head + wv.take(j as int),
        decreases weaker@.len(),
    {
        let ghost before = weaker@.map_values(|v: Vec<u64>| v@);
        let v = weaker.remove(0);
        proof {
            assert(before[0] == v@);
            assert(weaker@.map_values(|v: Vec<u64>| v@) =~= before.drop_first());
            assert(wv.skip(j + 1) =~= wv.skip(j as int).drop_first());
            assert(wv.take(j + 1) =~= wv.take(j as int).push(wv[j as int]));
        }
        let ghost sb = sets@;
        sets.push(v);
        j = j + 1;
        proof {
            assert(sets@.map_values(|v: Vec<u64>| v@) =~= sb.map_values(|v: Vec<u64>| v@).push(v@));
            assert(sets@.map_values(|v: Vec<u64>| v@) =~= head + wv.take(j as int));
        }
    }
    proof {
        assert(wv.skip(j as int).len() == 0);
        assert(wv.take(j as int) =~= wv);
        assert(sets@.map_values(|v: Vec<u64>| v@) =~= showdown_sets(hv));
    }
    sets
}


/// The tiers of ranked hands, as `tiers`.
pub fn rank_tiers(ranked: &Vec<(u64, Vec<u8>)>) -> (r: Vec<Vec<u64>>)
    ensures
        r@.map_values(|v: Vec<u64>| v@) == tiers(hand_views(ranked@)),
{
    let ghost hv = hand_views(ranked@);
    let mut out: Vec<Vec<u64>> = Vec::new();
    let mut i: usize = 0;
    assert(hv.take(0) =~= Seq::<(u64, Seq<u8>)>::empty());
    assert(out@.map_values(|v: Vec<u64>| v@) =~= Seq::<Seq<u64>>::empty());
    while i < ranked.len()
        invariant
            hv == hand_views(ranked@),
            i <= ranked@.len(),
            out@.map_values(|v: Vec<u64>| v@) == tiers(hv.take(i as int)),
            i > 0 ==> out@.len() > 0,
        decreases ranked@.len() - i,
    {
        proof {
            assert(hv.take(i + 1).drop_last() =~= hv.take(i as int));
            assert(hv.take(i + 1).last() == hv[i as int]);
            assert(hv[i as int] == (ranked@[i as int].0, ranked@[i as int].1@));
            if i > 0 {
                assert(hv.take(i + 1)[i - 1] == hv[i - 1]);
                assert(hv[i - 1] == (ranked@[i - 1].0, ranked@[i - 1].1@));
            }
        }
        let id = ranked[i].0;
        let ghost before = out@.map_values(|v: Vec<u64>| v@);
        if i > 0 && values_eq(&ranked[i - 1].1, &ranked[i].1) {
            let mut last = match out.pop() {
                Some(t) => t,
                None => Vec::new(),
            };
            let ghost lv = last@;
            last.push(id);
            out.push(last);
            proof {
                assert(lv == before.last());
                assert(out@.map_values(|v: Vec<u64>| v@) =~= before.update(before.len() - 1, before.last().push(id)));
            }
        } else {
            let mut one: Vec<u64> = Vec::new();
            one.push(id);
            out.push(one);
            proof {
                assert(one@ =~= seq![id]);
                assert(out@.map_values(|v: Vec<u64>| v@) =~= before.push(seq![id]));
            }
        }
        i = i + 1;
    }
    assert(hv.take(i as int) =~= hv);
    out
}


/// Whether a card can be split into its suit and its kind.
pub fn card_ok(c: &str) -> (r: bool)
    ensures
        r == valid_card(c@),
{
    if c.unicode_len() < 1 {
        return false;
    }
    let first = c.get_char(0);
    (first as u32) < 128
}

/// Whether all the cards can be split into suit and kind.
pub fn cards_ok(cards: &Vec<&str>) -> (r: bool)
    ensures
        r == valid_cards(cards@),
{
    let mut i: usize = 0;
    while i < cards.len()
        invariant
            i <= cards@.len(),
            forall|j: int| 0 <= j < i ==> valid_card(#[trigger] cards@[j]@),
        decreases cards@.len() - i,
    {
        if !card_ok(cards[i]) {
            return false;
        }
        i = i + 1;
    }
    true
}

} // verus!
