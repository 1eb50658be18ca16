//! Laws of hand evaluation: which straight a hand is valued by.

use vstd::prelude::*;
use crate::holdem_evaluator::{
    cross, hand_of, kind_of, kind_pred, kinds_from, of_kind, pattern_lists, prepend_all, prod, sort_by_kind,
    straight_order, straights_upto, Category,
};

verus! {

broadcast use vstd::seq_lib::group_seq_properties;

/// Some card of `s` has kind order `k`.
pub open spec fn has_kind(s: Seq<&str>, k: int) -> bool {
    exists|i: int| 0 <= i < s.len() && kind_of(s[i]@) == k
}

/// The kind order of the `j`-th card (from 0) of a straight whose top card
/// has kind order `top`: the ace counts as one below the two in the
/// five-high straight.
pub open spec fn run_kind(top: int, j: int) -> int {
    if top == 5 && j == 4 {
        14
    } else {
        top - j
    }
}

/// The cards hold five cards of consecutive kinds whose top kind is `top`.
pub open spec fn has_straight_to(s: Seq<&str>, top: int) -> bool {
    &&& 5 <= top <= 14
    &&& forall|j: int| 0 <= j < 5 ==> #[trigger] has_kind(s, run_kind(top, j))
}

/// A card of `s` of kind `k` is among the cards of kind `k` of `s` sorted
/// by kind.
proof fn lemma_sorted_has_kind(s: Seq<&str>, k: int)
    requires
        has_kind(s, k),
        0 <= k <= 14,
    ensures
        of_kind(sort_by_kind(s), k).len() > 0,
{
    let i = choose|i: int| 0 <= i < s.len() && kind_of(s[i]@) == k;
    let c = s[i];
    s.lemma_filter_contains(kind_pred(k), i);
    lemma_kinds_from_contains(s, c, k, 0);
    let ss = sort_by_kind(s);
    let m = choose|m: int| 0 <= m < ss.len() && ss[m] == c;
    ss.lemma_filter_contains(kind_pred(k), m);
}

proof fn lemma_kinds_from_contains<'a>(s: Seq<&'a str>, c: &'a str, k: int, lo: int)
    requires
        of_kind(s, k).contains(c),
        0 <= lo <= k <= 14,
    ensures
        kinds_from(s, lo).contains(c),
    decreases k - lo,
{
    let a = kinds_from(s, lo + 1);
    let b = of_kind(s, lo);
    assert(kinds_from(s, lo) == a + b);
    if lo == k {
        let m = choose|m: int| 0 <= m < b.len() && b[m] == c;
        assert((a + b)[a.len() + m] == c);
    } else {
        lemma_kinds_from_contains(s, c, k, lo + 1);
        let m = choose|m: int| 0 <= m < a.len() && a[m] == c;
        assert((a + b)[m] == c);
    }
}

/// Each element of a cross product is a head followed by a tail.
proof fn lemma_cross<'a>(heads: Seq<&'a str>, rest: Seq<Seq<&'a str>>, i: int)
    requires
        0 <= i < cross(heads, rest).len(),
    ensures
        exists|a: &'a str, m: int|
            #![trigger heads.contains(a), rest[m]]
            heads.contains(a) && 0 <= m < rest.len() && cross(heads, rest)[i] == seq![a] + rest[m],
    decreases heads.len(),
{
    if heads.len() > 0 {
        let front = cross(heads.drop_last(), rest);
        let back = prepend_all(heads.last(), rest);
        assert(cross(heads, rest) == front + back);
        if i < front.len() {
            lemma_cross(heads.drop_last(), rest, i);
            let (a, m) = choose|a: &'a str, m: int|
                #![trigger heads.drop_last().contains(a), rest[m]]
                heads.drop_last().contains(a) && 0 <= m < rest.len() && front[i] == seq![a] + rest[m];
            let h = choose|h: int| 0 <= h < heads.drop_last().len() && heads.drop_last()[h] == a;
            assert(heads[h] == a);
            assert(heads.contains(a));
            assert(rest[m] == rest[m]);
            assert(cross(heads, rest)[i] == front[i]);
        } else {
            let m = i - front.len();
            assert(cross(heads, rest)[i] == back[m]);
            assert(back[m] == seq![heads.last()] + rest[m]);
            assert(heads[heads.len() - 1] == heads.last());
            assert(heads.contains(heads.last()));
            assert(rest[m] == rest[m]);
        }
    }
}

/// A cross product with heads and tails is not empty.
proof fn lemma_cross_nonempty<'a>(heads: Seq<&'a str>, rest: Seq<Seq<&'a str>>)
    requires
        heads.len() > 0,
        rest.len() > 0,
    ensures
        cross(heads, rest).len() > 0,
{
    assert(cross(heads, rest) == cross(heads.drop_last(), rest) + prepend_all(heads.last(), rest));
}

/// Each element of a product takes its `j`-th card from the `j`-th list.
proof fn lemma_prod<'a>(lists: Seq<Seq<&'a str>>, i: int)
    requires
        0 <= i < prod(lists).len(),
    ensures
        prod(lists)[i].len() == lists.len(),
        forall|j: int| 0 <= j < lists.len() ==> #[trigger] lists[j].contains(prod(lists)[i][j]),
    decreases lists.len(),
{
    if lists.len() > 0 {
        let rest = lists.drop_first();
        let pr = prod(rest);
        lemma_cross(lists[0], pr, i);
        let (a, m) = choose|a: &'a str, m: int|
            #![trigger lists[0].contains(a), pr[m]]
            lists[0].contains(a) && 0 <= m < pr.len() && prod(lists)[i] == seq![a] + pr[m];
        lemma_prod(rest, m);
        let x = prod(lists)[i];
        assert forall|j: int| 0 <= j < lists.len() implies #[trigger] lists[j].contains(x[j]) by {
            if j == 0 {
                assert(x[0] == a);
            } else {
                assert(x[j] == pr[m][j - 1]);
                assert(rest[j - 1] == lists[j]);
            }
        }
    }
}

/// A product of non-empty lists is not empty.
proof fn lemma_prod_nonempty<'a>(lists: Seq<Seq<&'a str>>)
    requires
        forall|j: int| 0 <= j < lists.len() ==> (#[trigger] lists[j]).len() > 0,
    ensures
        prod(lists).len() > 0,
    decreases lists.len(),
{
    if lists.len() > 0 {
        let rest = lists.drop_first();
        assert forall|j: int| 0 <= j < rest.len() implies (#[trigger] rest[j]).len() > 0 by {
            assert(rest[j] == lists[j + 1]);
        }
        lemma_prod_nonempty(rest);
        lemma_cross_nonempty(lists[0], prod(rest));
    }
}

/// No straights among the first `p` patterns: none of them has one.
proof fn lemma_straights_none<'a>(s: Seq<&'a str>, p: int, q: int)
    requires
        straights_upto(s, p).len() == 0,
        0 <= q < p,
    ensures
        prod(pattern_lists(s, q)).len() == 0,
    decreases p,
{
    if q < p - 1 {
        lemma_straights_none(s, p - 1, q);
    }
}

/// The first straight found comes from the first pattern that has one.
proof fn lemma_straights_first<'a>(s: Seq<&'a str>, p: int)
    requires
        straights_upto(s, p).len() > 0,
    ensures
        exists|q: int|
            0 <= q < p && prod(#[trigger] pattern_lists(s, q)).len() > 0 && straights_upto(s, p)[0] == prod(
                pattern_lists(s, q),
            )[0] && forall|q2: int| 0 <= q2 < q ==> prod(#[trigger] pattern_lists(s, q2)).len() == 0,
    decreases p,
{
    let prev = straights_upto(s, p - 1);
    let cur = prod(pattern_lists(s, p - 1));
    assert(straights_upto(s, p) == prev + cur);
    if prev.len() > 0 {
        lemma_straights_first(s, p - 1);
        let q = choose|q: int|
            0 <= q < p - 1 && prod(#[trigger] pattern_lists(s, q)).len() > 0 && prev[0] == prod(pattern_lists(s, q))[0]
                && forall|q2: int| 0 <= q2 < q ==> prod(#[trigger] pattern_lists(s, q2)).len() == 0;
        assert(straights_upto(s, p)[0] == prev[0]);
    } else {
        assert forall|q2: int| 0 <= q2 < p - 1 implies prod(#[trigger] pattern_lists(s, q2)).len() == 0 by {
            lemma_straights_none(s, p - 1, q2);
        }
        assert(straights_upto(s, p)[0] == cur[0]);
    }
}

/// When a hand is valued as a straight, its picks are a straight, and no
/// straight in the cards has a higher top card than the picks: a player
/// holding a higher straight is never valued by a lower one.
pub proof fn law_straight_is_the_highest(s: Seq<&str>, top: int)
    requires
        hand_of(s).0 == Category::Straight,
    ensures
        hand_of(s).1.len() == 5,
        forall|j: int| 0 <= j < 5 ==> kind_of(#[trigger] hand_of(s).1[j]) == run_kind(kind_of(hand_of(s).1[0]) as int, j),
        forall|j: int| 0 <= j < 5 ==> exists|i: int| 0 <= i < s.len() && s[i]@ == #[trigger] hand_of(s).1[j],
        has_straight_to(s, top) ==> kind_of(hand_of(s).1[0]) >= top,
{
    let ss = sort_by_kind(s);
    let sts = straights_upto(ss, 10);
    assert(sts.len() > 0);
    lemma_straights_first(ss, 10);
    let q = choose|q: int|
        0 <= q < 10 && prod(#[trigger] pattern_lists(ss, q)).len() > 0 && sts[0] == prod(pattern_lists(ss, q))[0]
            && forall|q2: int| 0 <= q2 < q ==> prod(#[trigger] pattern_lists(ss, q2)).len() == 0;
    let lists = pattern_lists(ss, q);
    lemma_prod(lists, 0);
    let x = sts[0];
    assert(hand_of(s).1 == crate::holdem_evaluator::views(x));
    crate::holdem_evaluator::lemma_kinds_from_within(s, 0);
    assert forall|j: int| 0 <= j < 5 implies exists|i: int| 0 <= i < s.len() && s[i]@ == #[trigger] hand_of(s).1[j] by {
        assert(lists[j].contains(x[j]));
        let m = choose|m: int| 0 <= m < lists[j].len() && lists[j][m] == x[j];
        assert(of_kind(ss, straight_order(q, j)).contains(x[j]));
        ss.lemma_filter_contains_rev(kind_pred(straight_order(q, j)), x[j]);
        assert(ss.contains(x[j]));
        let a = choose|a: int| 0 <= a < ss.len() && ss[a] == x[j];
        assert(s.contains(ss[a]));
        let i = choose|i: int| 0 <= i < s.len() && s[i] == ss[a];
        assert(hand_of(s).1[j] == x[j]@);
    }
    assert forall|j: int| 0 <= j < 5 implies kind_of(x[j]@) == straight_order(q, j) by {
        assert(lists[j].contains(x[j]));
        let m = choose|m: int| 0 <= m < lists[j].len() && lists[j][m] == x[j];
        ss.lemma_filter_pred(kind_pred(straight_order(q, j)), m);
    }
    assert forall|j: int| 0 <= j < 5 implies kind_of(#[trigger] hand_of(s).1[j]) == run_kind(
        kind_of(hand_of(s).1[0]) as int,
        j,
    ) by {
        assert(hand_of(s).1[j] == x[j]@);
        assert(hand_of(s).1[0] == x[0]@);
        assert(kind_of(x[0]@) == straight_order(q, 0));
        assert(kind_of(x[j]@) == straight_order(q, j));
        assert(run_kind(straight_order(q, 0), j) == straight_order(q, j));
    }
    if has_straight_to(s, top) {
        let pt = if top == 5 { 9 } else { 14 - top };
        let lt = pattern_lists(ss, pt);
        assert forall|j: int| 0 <= j < lt.len() implies (#[trigger] lt[j]).len() > 0 by {
            assert(straight_order(pt, j) == run_kind(top, j));
            assert(has_kind(s, run_kind(top, j)));
            lemma_sorted_has_kind(s, run_kind(top, j));
        }
        lemma_prod_nonempty(lt);
        if pt < q {
            assert(prod(pattern_lists(ss, pt)).len() == 0);
        }
        assert(hand_of(s).1[0] == x[0]@);
    }
}

} // verus!
