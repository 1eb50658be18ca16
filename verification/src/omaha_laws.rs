//! Laws of five-card hands: how a two-pair hand is valued.

use vstd::prelude::*;
use crate::holdem_evaluator::{
    value_sign_from, kind_of, kind_orders, kind_pred, kinds_from, of_kind, groups_of_size, sized_from, sort_by_group, sort_by_kind,
    lemma_sorted_cards, views, Category,
};
use crate::omaha_evaluator::{count_groups, count_seq, five_hand, five_value, is_straight, is_wheel, same_suit};

verus! {

broadcast use vstd::seq_lib::group_seq_properties;

/// Filtering by a kind what was filtered by a kind.
proof fn lemma_of_kind_twice(c: Seq<&str>, y: int, x: int)
    ensures
        of_kind(of_kind(c, y), x) == if x == y {
            of_kind(c, x)
        } else {
            Seq::<&str>::empty()
        },
    decreases c.len(),
{
    if c.len() == 0 {
        assert(of_kind(c, y) =~= Seq::<&str>::empty());
        assert(of_kind(of_kind(c, y), x) =~= Seq::<&str>::empty());
        assert(of_kind(c, x) =~= Seq::<&str>::empty());
    } else {
        let t = c.drop_last();
        let e = c.last();
        assert(t.push(e) == c);
        lemma_of_kind_twice(t, y, x);
        t.lemma_filter_push(e, kind_pred(y));
        t.lemma_filter_push(e, kind_pred(x));
        of_kind(t, y).lemma_filter_push(e, kind_pred(x));
    }
}

/// The cards of one kind are the same before and after sorting by kind.
proof fn lemma_of_kind_sorted(c: Seq<&str>, lo: int, x: int)
    requires
        0 <= lo <= 15,
        0 <= x <= 14,
    ensures
        of_kind(kinds_from(c, lo), x) == if lo <= x {
            of_kind(c, x)
        } else {
            Seq::<&str>::empty()
        },
    decreases 15 - lo,
{
    if lo >= 15 {
        assert(kinds_from(c, lo) =~= Seq::<&str>::empty());
        assert(of_kind(kinds_from(c, lo), x) =~= Seq::<&str>::empty());
    } else {
        lemma_of_kind_sorted(c, lo + 1, x);
        lemma_of_kind_twice(c, lo, x);
        Seq::filter_distributes_over_add(kinds_from(c, lo + 1), of_kind(c, lo), kind_pred(x));
        assert(kinds_from(c, lo) == kinds_from(c, lo + 1) + of_kind(c, lo));
        if lo <= x {
            assert(of_kind(kinds_from(c, lo), x) =~= of_kind(c, x));
        } else {
            assert(of_kind(kinds_from(c, lo), x) =~= Seq::<&str>::empty());
        }
    }
}

/// Two card sequences with the same cards of each kind.
pub open spec fn same_kind_groups(a: Seq<&str>, b: Seq<&str>) -> bool {
    forall|x: int| 0 <= x <= 14 ==> #[trigger] of_kind(a, x) == of_kind(b, x)
}

proof fn lemma_groups_congruent(a: Seq<&str>, b: Seq<&str>, n: int, lo: int)
    requires
        same_kind_groups(a, b),
        0 <= lo <= 15,
    ensures
        groups_of_size(a, n, lo) == groups_of_size(b, n, lo),
        count_groups(a, n, lo) == count_groups(b, n, lo),
    decreases 15 - lo,
{
    if lo < 15 {
        lemma_groups_congruent(a, b, n, lo + 1);
        assert(of_kind(a, lo) == of_kind(b, lo));
    }
}

proof fn lemma_sized_congruent(a: Seq<&str>, b: Seq<&str>, n: int)
    requires
        same_kind_groups(a, b),
        a.len() == b.len(),
    ensures
        sized_from(a, n) == sized_from(b, n),
        count_seq(a, n) == count_seq(b, n),
    decreases a.len() + 1 - n,
{
    if n <= a.len() {
        lemma_sized_congruent(a, b, n + 1);
        lemma_groups_congruent(a, b, n, 0);
    }
}

/// The five cards are two pairs, of kinds `hi` above `lo`, and a kicker of
/// kind `k`.
pub open spec fn two_pairs_of(c: Seq<&str>, hi: int, lo: int, k: int) -> bool {
    &&& c.len() == 5
    &&& 2 <= lo < hi <= 14
    &&& 2 <= k <= 14 && k != hi && k != lo
    &&& forall|i: int| 0 <= i < 5 ==> #[trigger] kind_of(c[i]@) == hi || kind_of(c[i]@) == lo || kind_of(c[i]@) == k
    &&& of_kind(c, hi).len() == 2
    &&& of_kind(c, lo).len() == 2
    &&& of_kind(c, k).len() == 1
}

/// The cards are not all of one suit.
pub open spec fn mixed_suits(c: Seq<&str>) -> bool {
    exists|i: int| 0 <= i < c.len() && (#[trigger] c[i])@.len() >= 1 && c[0]@.len() >= 1 && c[i]@[0] != c[0]@[0]
}

/// No card has a kind other than `hi`, `lo` and `k`.
proof fn lemma_other_kinds_empty(c: Seq<&str>, hi: int, lo: int, k: int, x: int)
    requires
        two_pairs_of(c, hi, lo, k),
        x != hi && x != lo && x != k,
    ensures
        of_kind(c, x).len() == 0,
{
    assert(c.all(|e: &str| !kind_pred(x)(e))) by {
        assert forall|i: int| 0 <= i < c.len() implies !kind_pred(x)(c[i]) by {
            assert(kind_of(c[i]@) == hi || kind_of(c[i]@) == lo || kind_of(c[i]@) == k);
        }
    }
    c.lemma_all_neg_filter_empty(kind_pred(x));
}

/// The groups of `n` cards of a two-pair hand, higher kinds first.
proof fn lemma_two_pair_groups(c: Seq<&str>, hi: int, lo: int, k: int, n: int, x: int)
    requires
        two_pairs_of(c, hi, lo, k),
        n >= 1,
        0 <= x <= 15,
    ensures
        groups_of_size(c, n, x) == (if n == 2 && x <= hi { of_kind(c, hi) } else { Seq::<&str>::empty() }) + (if n
            == 2 && x <= lo { of_kind(c, lo) } else { Seq::<&str>::empty() }) + (if n == 1 && x <= k {
            of_kind(c, k)
        } else {
            Seq::<&str>::empty()
        }),
        count_groups(c, n, x) == Seq::new(
            (if n == 2 && x <= hi { 1nat } else { 0nat }) + (if n == 2 && x <= lo { 1nat } else { 0nat }) + (if n == 1
                && x <= k { 1nat } else { 0nat }),
            |i: int| n as u8,
        ),
    decreases 15 - x,
{
    if x < 15 {
        lemma_two_pair_groups(c, hi, lo, k, n, x + 1);
        if x != hi && x != lo && x != k {
            lemma_other_kinds_empty(c, hi, lo, k, x);
        }
        assert(groups_of_size(c, n, x) =~= (if n == 2 && x <= hi { of_kind(c, hi) } else { Seq::<&str>::empty() }) + (
        if n == 2 && x <= lo { of_kind(c, lo) } else { Seq::<&str>::empty() }) + (if n == 1 && x <= k {
            of_kind(c, k)
        } else {
            Seq::<&str>::empty()
        }));
        assert(count_groups(c, n, x) =~= Seq::new(
            (if n == 2 && x <= hi { 1nat } else { 0nat }) + (if n == 2 && x <= lo { 1nat } else { 0nat }) + (if n == 1
                && x <= k { 1nat } else { 0nat }),
            |i: int| n as u8,
        ));
    } else {
        assert(count_groups(c, n, x) =~= Seq::new(0nat, |i: int| n as u8));
    }
}

/// Two cards of `s` pass `p` at two different places.
proof fn lemma_two_places<'a>(s: Seq<&'a str>, p: spec_fn(&'a str) -> bool)
    requires
        s.filter(p).len() >= 2,
    ensures
        exists|i: int, j: int| 0 <= i < j < s.len() && #[trigger] p(s[i]) && #[trigger] p(s[j]),
    decreases s.len(),
{
    let t = s.drop_last();
    let e = s.last();
    assert(t.push(e) == s);
    t.lemma_filter_push(e, p);
    if p(e) {
        assert(t.filter(p).len() >= 1);
        let f = t.filter(p);
        t.lemma_filter_pred(p, 0);
        t.lemma_filter_contains_rev(p, f[0]);
        let i = choose|i: int| 0 <= i < t.len() && t[i] == f[0];
        assert(s[i] == t[i]);
        assert(s[s.len() - 1] == e);
        assert(p(s[i]) && p(s[s.len() - 1]));
    } else {
        lemma_two_places(t, p);
        let (i, j) = choose|i: int, j: int| 0 <= i < j < t.len() && #[trigger] p(t[i]) && #[trigger] p(t[j]);
        assert(s[i] == t[i] && s[j] == t[j]);
    }
}

/// Consecutive kinds decreasing one by one are all different.
proof fn lemma_run_distinct(ks: Seq<u8>, i: int, j: int)
    requires
        forall|a: int| 0 <= a < ks.len() - 1 ==> #[trigger] ks[a] == ks[a + 1] + 1,
        0 <= i < j < ks.len(),
    ensures
        ks[i] > ks[j],
    decreases j - i,
{
    assert(ks[j - 1] == ks[j] + 1);
    if i < j - 1 {
        lemma_run_distinct(ks, i, j - 1);
    }
}

/// A five-card hand of two pairs, not all of one suit, is valued by its
/// category, the higher pair's kind twice, the lower pair's kind twice and
/// the kicker's kind.
#[verifier::rlimit(30)]
pub proof fn law_two_pairs_value(c: Seq<&str>, hi: int, lo: int, k: int)
    requires
        two_pairs_of(c, hi, lo, k),
        mixed_suits(c),
    ensures
        five_hand(c).0 == Category::TwoPairs,
        five_value(c) == seq![2u8, hi as u8, hi as u8, lo as u8, lo as u8, k as u8],
{
    let sc = sort_by_kind(c);
    lemma_sorted_cards(c);
    assert(sc.len() == 5);
    assert forall|x: int| 0 <= x <= 14 implies #[trigger] of_kind(sc, x) == of_kind(c, x) by {
        lemma_of_kind_sorted(c, 0, x);
    }
    assert(same_kind_groups(sc, c));
    lemma_sized_congruent(sc, c, 1);
    // the groups and their sizes
    lemma_two_pair_groups(c, hi, lo, k, 1, 0);
    lemma_two_pair_groups(c, hi, lo, k, 2, 0);
    lemma_two_pair_groups(c, hi, lo, k, 3, 0);
    lemma_two_pair_groups(c, hi, lo, k, 4, 0);
    lemma_two_pair_groups(c, hi, lo, k, 5, 0);
    assert(sized_from(c, 6) =~= Seq::<&str>::empty());
    assert(count_seq(c, 6) =~= Seq::<u8>::empty());
    assert(count_groups(c, 5, 0) =~= Seq::<u8>::empty());
    assert(count_groups(c, 4, 0) =~= Seq::<u8>::empty());
    assert(count_groups(c, 3, 0) =~= Seq::<u8>::empty());
    assert(count_groups(c, 2, 0) =~= seq![2u8, 2u8]);
    assert(count_groups(c, 1, 0) =~= seq![1u8]);
    assert(count_seq(c, 5) =~= Seq::<u8>::empty());
    assert(count_seq(c, 4) =~= Seq::<u8>::empty());
    assert(count_seq(c, 3) =~= Seq::<u8>::empty());
    assert(count_seq(c, 2) =~= seq![2u8, 2u8]);
    assert(count_seq(c, 1) =~= seq![2u8, 2u8, 1u8]);
    assert(groups_of_size(c, 5, 0) =~= Seq::<&str>::empty());
    assert(groups_of_size(c, 4, 0) =~= Seq::<&str>::empty());
    assert(groups_of_size(c, 3, 0) =~= Seq::<&str>::empty());
    assert(sized_from(c, 5) =~= Seq::<&str>::empty());
    assert(sized_from(c, 4) =~= Seq::<&str>::empty());
    assert(sized_from(c, 3) =~= Seq::<&str>::empty());
    assert(sized_from(c, 2) =~= of_kind(c, hi) + of_kind(c, lo));
    let g = sort_by_group(sc);
    assert(g == sized_from(c, 1));
    assert(g =~= of_kind(c, hi) + of_kind(c, lo) + of_kind(c, k));
    // the kinds of the picks
    let gk = kind_orders(g.take(5));
    assert(g.take(5) =~= g);
    assert forall|i: int| 0 <= i < 5 implies #[trigger] gk[i] == (if i < 2 { hi } else if i < 4 { lo } else { k }) by {
        if i < 2 {
            assert(g[i] == of_kind(c, hi)[i]);
            c.lemma_filter_pred(kind_pred(hi), i);
        } else if i < 4 {
            assert(g[i] == of_kind(c, lo)[i - 2]);
            c.lemma_filter_pred(kind_pred(lo), i - 2);
        } else {
            assert(g[i] == of_kind(c, k)[0]);
            c.lemma_filter_pred(kind_pred(k), 0);
        }
    }
    // no straight: two cards share the higher pair's kind
    let ks = kind_orders(sc);
    assert(of_kind(sc, hi) == of_kind(c, hi));
    assert(sc.filter(kind_pred(hi)).len() == 2);
    lemma_two_places(sc, kind_pred(hi));
    let (i, j) = choose|i: int, j: int| 0 <= i < j < sc.len() && #[trigger] kind_pred(hi)(sc[i]) && #[trigger] kind_pred(hi)(sc[j]);
    assert(ks[i] == ks[j]);
    if is_wheel(ks) {
        assert(ks == seq![14u8, 5u8, 4u8, 3u8, 2u8]);
        assert(false);
    }
    if forall|a: int| 0 <= a < ks.len() - 1 ==> #[trigger] ks[a] == ks[a + 1] + 1 {
        lemma_run_distinct(ks, i, j);
    }
    assert(!is_straight(ks));
    // no flush: every card is among the sorted cards
    if same_suit(sc) {
        let m = choose|m: int| 0 <= m < c.len() && (#[trigger] c[m])@.len() >= 1 && c[0]@.len() >= 1 && c[m]@[0] != c[0]@[0];
        assert forall|a: int| 0 <= a < c.len() implies sc.contains(#[trigger] c[a]) by {
            let x = kind_of(c[a]@) as int;
            c.lemma_filter_contains(kind_pred(x), a);
            assert(of_kind(sc, x) == of_kind(c, x));
            sc.lemma_filter_contains_rev(kind_pred(x), c[a]);
        }
        assert(sc.contains(c[m]));
        assert(sc.contains(c[0]));
        let a = choose|a: int| 0 <= a < sc.len() && sc[a] == c[m];
        let b = choose|b: int| 0 <= b < sc.len() && sc[b] == c[0];
        assert(views(sc)[a] == sc[a]@);
        assert(views(sc)[b] == sc[b]@);
        assert(false);
    }
    assert(five_hand(c) == (Category::TwoPairs, g.take(5)));
    assert(five_value(c) =~= seq![2u8, hi as u8, hi as u8, lo as u8, lo as u8, k as u8]);
}

/// Of two five-card two-pair hands (not all of one suit) with the same top
/// pair, the one with the higher second pair is stronger, whatever the
/// kickers.
pub proof fn law_two_pairs_second_pair_decides(
    c1: Seq<&str>,
    c2: Seq<&str>,
    hi: int,
    lo1: int,
    k1: int,
    lo2: int,
    k2: int,
)
    requires
        two_pairs_of(c1, hi, lo1, k1),
        two_pairs_of(c2, hi, lo2, k2),
        mixed_suits(c1),
        mixed_suits(c2),
        lo1 > lo2,
    ensures
        value_sign_from(five_value(c1), five_value(c2), 0) > 0,
{
    law_two_pairs_value(c1, hi, lo1, k1);
    law_two_pairs_value(c2, hi, lo2, k2);
    let a = five_value(c1);
    let b = five_value(c2);
    assert(value_sign_from(a, b, 3) == 1);
    assert(value_sign_from(a, b, 2) == 1);
    assert(value_sign_from(a, b, 1) == 1);
}

} // verus!
