//! A hand depends only on the characters of its cards.
//!
//! The evaluation of seven cards is stated over string slices; these
//! lemmas show that two sequences of cards with the same characters are
//! evaluated alike, so that a hand can be named by the characters alone.

use crate::holdem_evaluator::{
    first_flush_from, flush_cards, groups_of_size, kicker_index, hand_of, kind_pred, kinds_from, of_kind, of_suit, sized_from,
    suit_pred, views, cross, prepend_all, prod, pattern_lists, straights_upto, straight_order,
    all_in_flush, in_flush, fix_ace, straight_flushes, sort_by_kind, sort_by_group, royal_suit_from,
    has_royal, has_card, suit_char, kind_str, lemma_sorted_cards, Category, category_order, view_orders, kind_orders,
};
use crate::omaha_evaluator::{
    best_candidate, candidates, combos, count_groups, count_seq, five_hand, five_value, prefixed,
    straight_cards, omaha_best, omaha_candidates, lemma_combos, lemma_candidates_len,
};
use vstd::prelude::*;

verus! {

/// Two sequences of sequences of cards with the same characters, list by list.
pub open spec fn same_lists(a: Seq<Seq<&str>>, b: Seq<Seq<&str>>) -> bool {
    &&& a.len() == b.len()
    &&& forall|i: int| 0 <= i < a.len() ==> views(#[trigger] a[i]) == views(b[i])
}

pub proof fn lemma_views_add(a: Seq<&str>, b: Seq<&str>)
    ensures
        views(a + b) == views(a) + views(b),
{
    assert(views(a + b) =~= views(a) + views(b));
}

proof fn lemma_views_index(a: Seq<&str>, b: Seq<&str>)
    requires
        views(a) == views(b),
    ensures
        a.len() == b.len(),
        forall|i: int| 0 <= i < a.len() ==> (#[trigger] a[i])@ == b[i]@,
{
    assert(views(a).len() == a.len());
    assert(views(b).len() == b.len());
    assert forall|i: int| 0 <= i < a.len() implies (#[trigger] a[i])@ == b[i]@ by {
        assert(views(a)[i] == views(b)[i]);
    }
}

proof fn lemma_views_same(a: Seq<&str>, b: Seq<&str>)
    requires
        a.len() == b.len(),
        forall|i: int| 0 <= i < a.len() ==> (#[trigger] a[i])@ == b[i]@,
    ensures
        views(a) == views(b),
{
    assert(views(a) =~= views(b));
}

/// Filtering by a test on the characters keeps equal characters.
proof fn lemma_filter_views(a: Seq<&str>, b: Seq<&str>, p: spec_fn(&str) -> bool)
    requires
        views(a) == views(b),
        forall|x: &str, y: &str| x@ == y@ ==> #[trigger] p(x) == #[trigger] p(y),
    ensures
        views(a.filter(p)) == views(b.filter(p)),
    decreases a.len(),
{
    reveal(Seq::filter);
    lemma_views_index(a, b);
    if a.len() > 0 {
        lemma_views_same(a.drop_last(), b.drop_last());
        lemma_filter_views(a.drop_last(), b.drop_last(), p);
        let fa = a.drop_last().filter(p);
        let fb = b.drop_last().filter(p);
        lemma_views_index(fa, fb);
        assert(a.last()@ == b.last()@);
        if p(a.last()) {
            lemma_views_same(fa.push(a.last()), fb.push(b.last()));
        }
    }
}

proof fn lemma_of_kind_views(a: Seq<&str>, b: Seq<&str>, k: int)
    requires
        views(a) == views(b),
    ensures
        views(of_kind(a, k)) == views(of_kind(b, k)),
{
    lemma_filter_views(a, b, kind_pred(k));
}

proof fn lemma_of_suit_views(a: Seq<&str>, b: Seq<&str>, ch: char)
    requires
        views(a) == views(b),
    ensures
        views(of_suit(a, ch)) == views(of_suit(b, ch)),
{
    lemma_filter_views(a, b, suit_pred(ch));
}

proof fn lemma_kinds_from_views(a: Seq<&str>, b: Seq<&str>, lo: int)
    requires
        views(a) == views(b),
    ensures
        views(kinds_from(a, lo)) == views(kinds_from(b, lo)),
    decreases 15 - lo,
{
    if lo < 15 {
        lemma_kinds_from_views(a, b, lo + 1);
        lemma_of_kind_views(a, b, lo);
        lemma_views_add(kinds_from(a, lo + 1), of_kind(a, lo));
        lemma_views_add(kinds_from(b, lo + 1), of_kind(b, lo));
    }
}

proof fn lemma_groups_views(a: Seq<&str>, b: Seq<&str>, n: int, lo: int)
    requires
        views(a) == views(b),
    ensures
        views(groups_of_size(a, n, lo)) == views(groups_of_size(b, n, lo)),
    decreases 15 - lo,
{
    if lo < 15 {
        lemma_groups_views(a, b, n, lo + 1);
        lemma_of_kind_views(a, b, lo);
        lemma_views_index(of_kind(a, lo), of_kind(b, lo));
        let ga = if of_kind(a, lo).len() == n { of_kind(a, lo) } else { Seq::empty() };
        let gb = if of_kind(b, lo).len() == n { of_kind(b, lo) } else { Seq::empty() };
        assert(views(ga) == views(gb)) by {
            assert(views(ga) =~= views(gb));
        }
        lemma_views_add(groups_of_size(a, n, lo + 1), ga);
        lemma_views_add(groups_of_size(b, n, lo + 1), gb);
    }
}

proof fn lemma_sized_views(a: Seq<&str>, b: Seq<&str>, n: int)
    requires
        views(a) == views(b),
    ensures
        views(sized_from(a, n)) == views(sized_from(b, n)),
    decreases a.len() + 1 - n,
{
    lemma_views_index(a, b);
    if n <= a.len() {
        lemma_sized_views(a, b, n + 1);
        lemma_groups_views(a, b, n, 0);
        lemma_views_add(sized_from(a, n + 1), groups_of_size(a, n, 0));
        lemma_views_add(sized_from(b, n + 1), groups_of_size(b, n, 0));
    }
}

proof fn lemma_kicker_views(a: Seq<&str>, b: Seq<&str>, n: int)
    requires
        views(a) == views(b),
        n <= a.len(),
    ensures
        kicker_index(a, n) == kicker_index(b, n),
    decreases n,
{
    lemma_views_index(a, b);
    if n > 1 {
        lemma_kicker_views(a, b, n - 1);
        let k = kicker_index(a, n - 1);
        lemma_kicker_range(a, n - 1);
        assert(a[k]@ == b[k]@);
        assert(a[n - 1]@ == b[n - 1]@);
    }
}

proof fn lemma_kicker_range(a: Seq<&str>, n: int)
    requires
        n <= a.len(),
    ensures
        n >= 1 ==> 0 <= kicker_index(a, n) < n,
        n < 1 ==> kicker_index(a, n) == 0,
    decreases n,
{
    if n > 1 {
        lemma_kicker_range(a, n - 1);
    }
}

proof fn lemma_first_flush_views(a: Seq<&str>, b: Seq<&str>, i: int)
    requires
        views(a) == views(b),
    ensures
        first_flush_from(a, i) == first_flush_from(b, i),
    decreases a.len() - i,
{
    lemma_views_index(a, b);
    if 0 <= i < a.len() {
        assert(a[i]@ == b[i]@);
        lemma_of_suit_views(a, b, a[i]@[0]);
        lemma_views_index(of_suit(a, a[i]@[0]), of_suit(b, a[i]@[0]));
        lemma_first_flush_views(a, b, i + 1);
    }
}

proof fn lemma_flush_cards_views(a: Seq<&str>, b: Seq<&str>)
    requires
        views(a) == views(b),
    ensures
        views(flush_cards(a)) == views(flush_cards(b)),
{
    lemma_views_index(a, b);
    lemma_first_flush_views(a, b, 0);
    let i = first_flush_from(a, 0);
    if i >= 0 {
        lemma_first_flush_range(a, 0);
        assert(a[i]@ == b[i]@);
        lemma_of_suit_views(a, b, a[i]@[0]);
        lemma_kinds_from_views(of_suit(a, a[i]@[0]), of_suit(b, a[i]@[0]), 0);
    } else {
        assert(views(flush_cards(a)) =~= views(flush_cards(b)));
    }
}

proof fn lemma_first_flush_range(a: Seq<&str>, i: int)
    ensures
        first_flush_from(a, i) == -1 || (i <= first_flush_from(a, i) < a.len() && first_flush_from(a, i) >= 0
            && of_suit(a, a[first_flush_from(a, i)]@[0]).len() >= 5),
    decreases a.len() - i,
{
    if 0 <= i < a.len() {
        lemma_first_flush_range(a, i + 1);
    }
}

proof fn lemma_same_lists_add(a: Seq<Seq<&str>>, b: Seq<Seq<&str>>, c: Seq<Seq<&str>>, d: Seq<Seq<&str>>)
    requires
        same_lists(a, b),
        same_lists(c, d),
    ensures
        same_lists(a + c, b + d),
{
    assert forall|i: int| 0 <= i < (a + c).len() implies views(#[trigger] (a + c)[i]) == views((b + d)[i]) by {
        if i < a.len() {
            assert((a + c)[i] == a[i]);
            assert((b + d)[i] == b[i]);
        } else {
            assert((a + c)[i] == c[i - a.len()]);
            assert((b + d)[i] == d[i - a.len()]);
        }
    }
}

proof fn lemma_prepend_views(x: &str, y: &str, a: Seq<Seq<&str>>, b: Seq<Seq<&str>>)
    requires
        x@ == y@,
        same_lists(a, b),
    ensures
        same_lists(prepend_all(x, a), prepend_all(y, b)),
{
    assert forall|i: int| 0 <= i < prepend_all(x, a).len() implies views(#[trigger] prepend_all(x, a)[i]) == views(
        prepend_all(y, b)[i],
    ) by {
        lemma_views_add(seq![x], a[i]);
        lemma_views_add(seq![y], b[i]);
        assert(views(seq![x]) =~= views(seq![y]));
    }
}

proof fn lemma_cross_views(h: Seq<&str>, g: Seq<&str>, a: Seq<Seq<&str>>, b: Seq<Seq<&str>>)
    requires
        views(h) == views(g),
        same_lists(a, b),
    ensures
        same_lists(cross(h, a), cross(g, b)),
    decreases h.len(),
{
    lemma_views_index(h, g);
    if h.len() > 0 {
        lemma_views_same(h.drop_last(), g.drop_last());
        lemma_cross_views(h.drop_last(), g.drop_last(), a, b);
        lemma_prepend_views(h.last(), g.last(), a, b);
        lemma_same_lists_add(cross(h.drop_last(), a), cross(g.drop_last(), b), prepend_all(h.last(), a), prepend_all(g.last(), b));
    }
}

proof fn lemma_prod_views(a: Seq<Seq<&str>>, b: Seq<Seq<&str>>)
    requires
        same_lists(a, b),
    ensures
        same_lists(prod(a), prod(b)),
    decreases a.len(),
{
    if a.len() > 0 {
        assert(same_lists(a.drop_first(), b.drop_first())) by {
            assert forall|i: int| 0 <= i < a.drop_first().len() implies views(#[trigger] a.drop_first()[i]) == views(b.drop_first()[i]) by {
                assert(a.drop_first()[i] == a[i + 1]);
                assert(b.drop_first()[i] == b[i + 1]);
            }
        }
        lemma_prod_views(a.drop_first(), b.drop_first());
        assert(views(a[0]) == views(b[0]));
        lemma_cross_views(a[0], b[0], prod(a.drop_first()), prod(b.drop_first()));
    } else {
        assert(views(prod(a)[0]) =~= views(prod(b)[0]));
    }
}

proof fn lemma_straights_views(a: Seq<&str>, b: Seq<&str>, p: int)
    requires
        views(a) == views(b),
    ensures
        same_lists(straights_upto(a, p), straights_upto(b, p)),
    decreases p,
{
    if p > 0 {
        lemma_straights_views(a, b, p - 1);
        assert(same_lists(pattern_lists(a, p - 1), pattern_lists(b, p - 1))) by {
            assert forall|j: int| 0 <= j < 5 implies views(#[trigger] pattern_lists(a, p - 1)[j]) == views(
                pattern_lists(b, p - 1)[j],
            ) by {
                lemma_of_kind_views(a, b, straight_order(p - 1, j));
            }
        }
        lemma_prod_views(pattern_lists(a, p - 1), pattern_lists(b, p - 1));
        lemma_same_lists_add(straights_upto(a, p - 1), straights_upto(b, p - 1), prod(pattern_lists(a, p - 1)), prod(pattern_lists(b, p - 1)));
    }
}

proof fn lemma_all_in_flush_views(f: Seq<&str>, g: Seq<&str>, a: Seq<&str>, b: Seq<&str>)
    requires
        views(f) == views(g),
        views(a) == views(b),
    ensures
        all_in_flush(f, a) == all_in_flush(g, b),
{
    lemma_views_index(f, g);
    lemma_views_index(a, b);
    if all_in_flush(f, a) {
        assert forall|j: int| 0 <= j < b.len() implies in_flush(g, #[trigger] b[j]) by {
            assert(in_flush(f, a[j]));
            let i = choose|i: int| 0 <= i < f.len() && f[i]@ == a[j]@;
            assert(g[i]@ == b[j]@);
        }
    }
    if all_in_flush(g, b) {
        assert forall|j: int| 0 <= j < a.len() implies in_flush(f, #[trigger] a[j]) by {
            assert(in_flush(g, b[j]));
            let i = choose|i: int| 0 <= i < g.len() && g[i]@ == b[j]@;
            assert(f[i]@ == a[j]@);
        }
    }
}

proof fn lemma_fix_ace_views(a: Seq<&str>, b: Seq<&str>)
    requires
        views(a) == views(b),
    ensures
        views(fix_ace(a)) == views(fix_ace(b)),
{
    lemma_views_index(a, b);
    if a.len() > 0 {
        assert(a[0]@ == b[0]@);
        lemma_views_same(a.drop_first().push(a[0]), b.drop_first().push(b[0]));
    }
}

proof fn lemma_straight_flushes_views(f: Seq<&str>, g: Seq<&str>, a: Seq<Seq<&str>>, b: Seq<Seq<&str>>)
    requires
        views(f) == views(g),
        same_lists(a, b),
    ensures
        same_lists(straight_flushes(f, a), straight_flushes(g, b)),
    decreases a.len(),
{
    if a.len() > 0 {
        assert(same_lists(a.drop_last(), b.drop_last())) by {
            assert forall|i: int| 0 <= i < a.drop_last().len() implies views(#[trigger] a.drop_last()[i]) == views(b.drop_last()[i]) by {
                assert(a.drop_last()[i] == a[i]);
                assert(b.drop_last()[i] == b[i]);
            }
        }
        lemma_straight_flushes_views(f, g, a.drop_last(), b.drop_last());
        assert(views(a.last()) == views(b.last()));
        lemma_all_in_flush_views(f, g, a.last(), b.last());
        lemma_kinds_from_views(a.last(), b.last(), 0);
        lemma_fix_ace_views(sort_by_kind(a.last()), sort_by_kind(b.last()));
        let pa = straight_flushes(f, a.drop_last());
        let pb = straight_flushes(g, b.drop_last());
        if all_in_flush(f, a.last()) {
            let xa = fix_ace(sort_by_kind(a.last()));
            let xb = fix_ace(sort_by_kind(b.last()));
            assert forall|i: int| 0 <= i < pa.push(xa).len() implies views(#[trigger] pa.push(xa)[i]) == views(pb.push(xb)[i]) by {
                if i < pa.len() {
                    assert(pa.push(xa)[i] == pa[i]);
                    assert(pb.push(xb)[i] == pb[i]);
                }
            }
        }
    }
}

proof fn lemma_royal_views(a: Seq<&str>, b: Seq<&str>, i: int)
    requires
        views(a) == views(b),
        a.len() == 7,
    ensures
        royal_suit_from(a, i) == royal_suit_from(b, i),
    decreases 4 - i,
{
    lemma_views_index(a, b);
    if 0 <= i < 4 {
        lemma_royal_views(a, b, i + 1);
        let ch = suit_char(i);
        assert(a.take(7) =~= a);
        assert(b.take(7) =~= b);
        assert(has_royal(a, ch) == has_royal(b, ch)) by {
            assert forall|c: Seq<char>| #[trigger] has_card(a.take(7), c) == has_card(b.take(7), c) by {
                if has_card(a.take(7), c) {
                    let k = choose|k: int| 0 <= k < a.take(7).len() && a.take(7)[k]@ == c;
                    assert(b.take(7)[k]@ == c);
                }
                if has_card(b.take(7), c) {
                    let k = choose|k: int| 0 <= k < b.take(7).len() && b.take(7)[k]@ == c;
                    assert(a.take(7)[k]@ == c);
                }
            }
        }
    }
}

/// Two sequences of cards with the same characters give the same hand.
pub proof fn lemma_hand_of_views(a: Seq<&str>, b: Seq<&str>)
    requires
        views(a) == views(b),
        a.len() == 7,
    ensures
        hand_of(a) == hand_of(b),
{
    lemma_views_index(a, b);
    lemma_sorted_cards(a);
    lemma_sorted_cards(b);
    lemma_sized_views(a, b, 1);
    let ga = sort_by_group(a);
    let gb = sort_by_group(b);
    lemma_views_index(ga, gb);
    let ka = ga.map_values(|c: &str| kind_str(c@));
    let kb = gb.map_values(|c: &str| kind_str(c@));
    assert(ka =~= kb);
    lemma_royal_views(a, b, 0);
    lemma_flush_cards_views(a, b);
    lemma_first_flush_views(a, b, 0);
    lemma_kinds_from_views(a, b, 0);
    lemma_straights_views(sort_by_kind(a), sort_by_kind(b), 10);
    let fa = flush_cards(a);
    let fb = flush_cards(b);
    let sa = straights_upto(sort_by_kind(a), 10);
    let sb = straights_upto(sort_by_kind(b), 10);
    lemma_straight_flushes_views(fa, fb, sa, sb);
    lemma_views_index(fa, fb);
    assert(views(ga.take(5)) =~= views(gb.take(5)));
    assert(views(ga.take(4)) =~= views(gb.take(4)));
    if first_flush_from(a, 0) >= 0 {
        lemma_first_flush_range(a, 0);
        let i = first_flush_from(a, 0);
        lemma_sorted_cards(of_suit(a, a[i]@[0]));
        assert(views(fa.take(5)) =~= views(fb.take(5)));
    }
    let ra = ga.skip(4);
    let rb = gb.skip(4);
    lemma_views_same(ra, rb);
    lemma_kicker_views(ra, rb, ra.len() as int);
    if ra.len() > 0 {
        lemma_kicker_range(ra, ra.len() as int);
        let k = kicker_index(ra, ra.len() as int);
        assert(views(ga.take(4).push(ra[k])) =~= views(gb.take(4).push(rb[k])));
    }
    let sfa = straight_flushes(fa, sa);
    let sfb = straight_flushes(fb, sb);
    if sfa.len() > 0 {
        assert(views(sfa[0]) == views(sfb[0]));
    }
    if sa.len() > 0 {
        assert(views(sa[0]) == views(sb[0]));
    }
}

proof fn lemma_count_groups_views(a: Seq<&str>, b: Seq<&str>, n: int, lo: int)
    requires
        views(a) == views(b),
    ensures
        count_groups(a, n, lo) == count_groups(b, n, lo),
    decreases 15 - lo,
{
    if lo < 15 {
        lemma_count_groups_views(a, b, n, lo + 1);
        lemma_of_kind_views(a, b, lo);
        lemma_views_index(of_kind(a, lo), of_kind(b, lo));
    }
}

proof fn lemma_count_seq_views(a: Seq<&str>, b: Seq<&str>, n: int)
    requires
        views(a) == views(b),
    ensures
        count_seq(a, n) == count_seq(b, n),
    decreases a.len() + 1 - n,
{
    lemma_views_index(a, b);
    if n <= a.len() {
        lemma_count_seq_views(a, b, n + 1);
        lemma_count_groups_views(a, b, n, 0);
    }
}

/// Five cards with the same characters make the same hand.
pub proof fn lemma_five_hand_views(a: Seq<&str>, b: Seq<&str>)
    requires
        views(a) == views(b),
        a.len() == 5,
    ensures
        five_hand(a).0 == five_hand(b).0,
        views(five_hand(a).1) == views(five_hand(b).1),
        five_value(a) == five_value(b),
{
    lemma_views_index(a, b);
    lemma_sorted_cards(a);
    lemma_sorted_cards(b);
    lemma_kinds_from_views(a, b, 0);
    let sa = sort_by_kind(a);
    let sb = sort_by_kind(b);
    lemma_views_index(sa, sb);
    assert(kind_orders(sa) =~= kind_orders(sb));
    lemma_count_seq_views(sa, sb, 1);
    lemma_sorted_cards(sa);
    lemma_sorted_cards(sb);
    lemma_sized_views(sa, sb, 1);
    let ga = sort_by_group(sa);
    let gb = sort_by_group(sb);
    lemma_views_index(ga, gb);
    assert(views(ga.take(5)) =~= views(gb.take(5)));
    assert(views(straight_cards(sa)) =~= views(straight_cards(sb)));
    let ha = five_hand(a);
    let hb = five_hand(b);
    assert(views(ha.1) == views(hb.1));
    lemma_views_index(ha.1, hb.1);
    assert(kind_orders(ha.1) =~= kind_orders(hb.1));
}

proof fn lemma_combos_views(a: Seq<&str>, b: Seq<&str>, k: int)
    requires
        views(a) == views(b),
    ensures
        same_lists(combos(a, k), combos(b, k)),
    decreases a.len(), k,
{
    lemma_views_index(a, b);
    if k <= 0 {
        assert(views(combos(a, k)[0]) =~= views(combos(b, k)[0]));
    } else if a.len() > 0 {
        lemma_views_same(a.drop_first(), b.drop_first());
        lemma_combos_views(a.drop_first(), b.drop_first(), k - 1);
        lemma_combos_views(a.drop_first(), b.drop_first(), k);
        let pa = prefixed(a[0], combos(a.drop_first(), k - 1));
        let pb = prefixed(b[0], combos(b.drop_first(), k - 1));
        assert(same_lists(pa, pb)) by {
            assert forall|i: int| 0 <= i < pa.len() implies views(#[trigger] pa[i]) == views(pb[i]) by {
                let ca = combos(a.drop_first(), k - 1)[i];
                let cb = combos(b.drop_first(), k - 1)[i];
                lemma_views_add(seq![a[0]], ca);
                lemma_views_add(seq![b[0]], cb);
                assert(views(seq![a[0]]) =~= views(seq![b[0]]));
            }
        }
        lemma_same_lists_add(pa, pb, combos(a.drop_first(), k), combos(b.drop_first(), k));
    }
}

proof fn lemma_candidates_views(ha: Seq<Seq<&str>>, hb: Seq<Seq<&str>>, ba: Seq<Seq<&str>>, bb: Seq<Seq<&str>>)
    requires
        same_lists(ha, hb),
        same_lists(ba, bb),
    ensures
        same_lists(candidates(ha, ba), candidates(hb, bb)),
    decreases ha.len(),
{
    if ha.len() > 0 {
        assert(same_lists(ha.drop_last(), hb.drop_last())) by {
            assert forall|i: int| 0 <= i < ha.drop_last().len() implies views(#[trigger] ha.drop_last()[i]) == views(hb.drop_last()[i]) by {
                assert(ha.drop_last()[i] == ha[i]);
                assert(hb.drop_last()[i] == hb[i]);
            }
        }
        lemma_candidates_views(ha.drop_last(), hb.drop_last(), ba, bb);
        let ma = ba.map_values(|bc: Seq<&str>| ha.last() + bc);
        let mb = bb.map_values(|bc: Seq<&str>| hb.last() + bc);
        assert(same_lists(ma, mb)) by {
            assert forall|i: int| 0 <= i < ma.len() implies views(#[trigger] ma[i]) == views(mb[i]) by {
                lemma_views_add(ha.last(), ba[i]);
                lemma_views_add(hb.last(), bb[i]);
                assert(views(ha.last()) == views(hb.last()));
            }
        }
        lemma_same_lists_add(candidates(ha.drop_last(), ba), candidates(hb.drop_last(), bb), ma, mb);
    }
}

proof fn lemma_best_candidate_views(a: Seq<Seq<&str>>, b: Seq<Seq<&str>>, n: int)
    requires
        same_lists(a, b),
        n <= a.len(),
        forall|i: int| 0 <= i < a.len() ==> (#[trigger] a[i]).len() == 5,
    ensures
        best_candidate(a, n) == best_candidate(b, n),
        n >= 1 ==> 0 <= best_candidate(a, n) < n,
    decreases n,
{
    if n > 1 {
        lemma_best_candidate_views(a, b, n - 1);
        let k = best_candidate(a, n - 1);
        assert(views(a[k]) == views(b[k]));
        assert(views(a[n - 1]) == views(b[n - 1]));
        lemma_five_hand_views(a[k], b[k]);
        lemma_five_hand_views(a[n - 1], b[n - 1]);
    }
}

proof fn lemma_candidates_five(hcs: Seq<Seq<&str>>, bcs: Seq<Seq<&str>>)
    requires
        forall|i: int| 0 <= i < hcs.len() ==> (#[trigger] hcs[i]).len() == 2,
        forall|i: int| 0 <= i < bcs.len() ==> (#[trigger] bcs[i]).len() == 3,
    ensures
        forall|i: int| 0 <= i < candidates(hcs, bcs).len() ==> (#[trigger] candidates(hcs, bcs)[i]).len() == 5,
    decreases hcs.len(),
{
    if hcs.len() > 0 {
        lemma_candidates_five(hcs.drop_last(), bcs);
        let prev = candidates(hcs.drop_last(), bcs);
        let m = bcs.map_values(|bc: Seq<&str>| hcs.last() + bc);
        assert forall|i: int| 0 <= i < candidates(hcs, bcs).len() implies (#[trigger] candidates(hcs, bcs)[i]).len() == 5 by {
            if i < prev.len() {
                assert(candidates(hcs, bcs)[i] == prev[i]);
            } else {
                assert(candidates(hcs, bcs)[i] == m[i - prev.len()]);
            }
        }
    }
}

/// The best Omaha hand of hole cards and a board given by their
/// characters: its category, its picks and its value.
pub open spec fn omaha_hand(hole: Seq<Seq<char>>, board: Seq<Seq<char>>) -> (Category, Seq<Seq<char>>, Seq<u8>) {
    let hb = choose|hb: (Seq<&'static str>, Seq<&'static str>)| views(hb.0) == hole && views(hb.1) == board;
    let best = omaha_best(hb.0, hb.1);
    (five_hand(best).0, views(five_hand(best).1), five_value(best))
}

/// An Omaha hand is evaluated as the characters of its cards are.
pub proof fn lemma_omaha_hand(h: Seq<&str>, b: Seq<&str>)
    requires
        h.len() >= 2,
        b.len() >= 3,
    ensures
        omaha_hand(views(h), views(b)) == (
            five_hand(omaha_best(h, b)).0,
            views(five_hand(omaha_best(h, b)).1),
            five_value(omaha_best(h, b)),
        ),
{
    let vh = views(h);
    let vb = views(b);
    assert(exists|hb: (Seq<&'static str>, Seq<&'static str>)| views(hb.0) == vh && views(hb.1) == vb) by {
        let w: (Seq<&'static str>, Seq<&'static str>) = (h, b);
        assert(views(w.0) == vh && views(w.1) == vb);
    }
    let hb = choose|hb: (Seq<&'static str>, Seq<&'static str>)| views(hb.0) == vh && views(hb.1) == vb;
    let (h2, b2) = (hb.0, hb.1);
    lemma_views_index(h2, h);
    lemma_views_index(b2, b);
    lemma_combos_views(h2, h, 2);
    lemma_combos_views(b2, b, 3);
    lemma_combos(h2, 2);
    lemma_combos(b2, 3);
    lemma_combos(h, 2);
    lemma_combos(b, 3);
    lemma_candidates_views(combos(h2, 2), combos(h, 2), combos(b2, 3), combos(b, 3));
    let ca = omaha_candidates(h2, b2);
    let cb = omaha_candidates(h, b);
    lemma_candidates_five(combos(h2, 2), combos(b2, 3));
    lemma_candidates_len(combos(h2, 2), combos(b2, 3));
    lemma_best_candidate_views(ca, cb, ca.len() as int);
    let k = best_candidate(ca, ca.len() as int);
    assert(views(ca[k]) == views(cb[k]));
    lemma_five_hand_views(ca[k], cb[k]);
}

/// The category and the picks of seven cards given by their characters.
pub open spec fn seven_card_hand(vs: Seq<Seq<char>>) -> (Category, Seq<Seq<char>>) {
    hand_of(choose|cs: Seq<&'static str>| views(cs) == vs)
}

/// The value of seven cards given by their characters: the category's
/// order followed by the kind orders of the picks.
pub open spec fn seven_card_value(vs: Seq<Seq<char>>) -> Seq<u8> {
    seq![category_order(seven_card_hand(vs).0)] + view_orders(seven_card_hand(vs).1)
}

/// Seven cards are evaluated as their characters are.
pub proof fn lemma_seven_card_hand(s: Seq<&str>)
    requires
        s.len() == 7,
    ensures
        seven_card_hand(views(s)) == hand_of(s),
{
    let vs = views(s);
    assert(exists|cs: Seq<&'static str>| views(cs) == vs) by {
        let w: Seq<&'static str> = s;
        assert(views(w) == vs);
    }
    let cs = choose|cs: Seq<&'static str>| views(cs) == vs;
    lemma_views_index(cs, s);
    lemma_hand_of_views(cs, s);
}

} // verus!
