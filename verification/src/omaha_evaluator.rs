//! A standalone evaluator for Omaha poker hands.
//!
//! Omaha uses exactly two hole cards and three board cards to form the
//! best 5-card hand.

use vstd::prelude::*;
use vstd::string::*;
use crate::holdem_evaluator::{
    Category, PlayerHand, category_order, count_kind, kind_orders, kind_to_order, lemma_sorted_cards,
    lemma_within_valid, make_hand, of_kind, sort_by_group, sort_by_kind, sort_cards_by_kind,
    sort_suited_cards, string_views, valid_card, valid_cards, value_sign, value_sign_from,
    view_orders, views,
};

verus! {

/// The kind orders of the groups of equal kinds with exactly `n` cards,
/// for kinds at least `lo`, highest kind first: one entry `n` per group.
pub open spec fn count_groups(s: Seq<&str>, n: int, lo: int) -> Seq<u8>
    decreases 15 - lo,
{
    if lo >= 15 {
        Seq::empty()
    } else {
        count_groups(s, n, lo + 1) + (if of_kind(s, lo).len() == n {
            seq![n as u8]
        } else {
            Seq::empty()
        })
    }
}

/// The sizes of the groups of equal kinds with at least `n` cards, in the
/// order of `sized_from`.
pub open spec fn count_seq(s: Seq<&str>, n: int) -> Seq<u8>
    decreases s.len() + 1 - n,
{
    if n > s.len() {
        Seq::empty()
    } else {
        count_seq(s, n + 1) + count_groups(s, n, 0)
    }
}

/// All cards have the suit of the first.
pub open spec fn same_suit(sc: Seq<&str>) -> bool {
    suits_agree(views(sc))
}

/// All cards, by their characters, are non-empty and begin with the suit of the first.
pub open spec fn suits_agree(vs: Seq<Seq<char>>) -> bool {
    forall|i: int| 0 <= i < vs.len() ==> vs[i].len() >= 1 && #[trigger] vs[i][0] == vs[0][0]
}

pub open spec fn is_wheel(ks: Seq<u8>) -> bool {
    ks == seq![14u8, 5u8, 4u8, 3u8, 2u8]
}

/// Consecutive kinds, from high to low, or the wheel (A-2-3-4-5).
pub open spec fn is_straight(ks: Seq<u8>) -> bool {
    is_wheel(ks) || forall|i: int| 0 <= i < ks.len() - 1 ==> #[trigger] ks[i] == ks[i + 1] + 1
}

/// The straight's cards in order: the ace of a wheel goes last.
pub open spec fn straight_cards<'a>(sc: Seq<&'a str>) -> Seq<&'a str> {
    if is_wheel(kind_orders(sc)) {
        seq![sc[1], sc[2], sc[3], sc[4], sc[0]]
    } else {
        sc
    }
}

/// The category and picks of five cards.
pub open spec fn five_hand<'a>(c: Seq<&'a str>) -> (Category, Seq<&'a str>) {
    let sc = sort_by_kind(c);
    let ks = kind_orders(sc);
    let flush = same_suit(sc);
    let straight = is_straight(ks);
    let cv = count_seq(sc, 1);
    let g = sort_by_group(sc);
    if straight && flush {
        if ks[0] == 14 && ks[1] == 13 {
            (Category::RoyalFlush, sc)
        } else {
            (Category::StraightFlush, straight_cards(sc))
        }
    } else if cv.len() > 0 && cv[0] == 4 {
        (Category::FourOfAKind, g.take(5))
    } else if cv == seq![3u8, 2u8] {
        (Category::FullHouse, g.take(5))
    } else if flush {
        (Category::Flush, sc)
    } else if straight {
        (Category::Straight, straight_cards(sc))
    } else if cv.len() > 0 && cv[0] == 3 {
        (Category::ThreeOfAKind, g.take(5))
    } else if cv == seq![2u8, 2u8, 1u8] {
        (Category::TwoPairs, g.take(5))
    } else if cv.len() > 0 && cv[0] == 2 {
        (Category::Pair, g.take(5))
    } else {
        (Category::HighCard, sc)
    }
}

/// The value of five cards: the category order followed by the picks' kind orders.
pub open spec fn five_value(c: Seq<&str>) -> Seq<u8> {
    seq![category_order(five_hand(c).0)] + kind_orders(five_hand(c).1)
}

/// All the ways to choose `k` elements of `pool`, keeping their order,
/// those with the first element first.
pub open spec fn combos<T>(pool: Seq<T>, k: int) -> Seq<Seq<T>>
    decreases pool.len(), k,
{
    if k <= 0 {
        seq![Seq::empty()]
    } else if pool.len() == 0 {
        Seq::empty()
    } else {
        prefixed(pool[0], combos(pool.drop_first(), k - 1)) + combos(pool.drop_first(), k)
    }
}

/// Each sequence with `first` put in front.
pub open spec fn prefixed<T>(first: T, subs: Seq<Seq<T>>) -> Seq<Seq<T>> {
    subs.map_values(|sub: Seq<T>| seq![first] + sub)
}

/// Each hole combination followed by each board combination, hole major.
pub open spec fn candidates<'a>(hcs: Seq<Seq<&'a str>>, bcs: Seq<Seq<&'a str>>) -> Seq<Seq<&'a str>>
    decreases hcs.len(),
{
    if hcs.len() == 0 {
        Seq::empty()
    } else {
        candidates(hcs.drop_last(), bcs) + bcs.map_values(|bc: Seq<&'a str>| hcs.last() + bc)
    }
}

/// The index of the first candidate of highest value among the first `n`.
pub open spec fn best_candidate(cs: Seq<Seq<&str>>, n: int) -> int
    decreases n,
{
    if n <= 1 {
        0
    } else {
        let b = best_candidate(cs, n - 1);
        if value_sign_from(five_value(cs[n - 1]), five_value(cs[b]), 0) > 0 {
            n - 1
        } else {
            b
        }
    }
}

/// The candidates of an Omaha hand: two hole cards and three board cards.
pub open spec fn omaha_candidates<'a>(hole: Seq<&'a str>, board: Seq<&'a str>) -> Seq<Seq<&'a str>> {
    candidates(combos(hole, 2), combos(board, 3))
}

/// The five cards of an Omaha hand's best candidate.
pub open spec fn omaha_best<'a>(hole: Seq<&'a str>, board: Seq<&'a str>) -> Seq<&'a str> {
    let cs = omaha_candidates(hole, board);
    cs[best_candidate(cs, cs.len() as int)]
}

fn get_category_order(category: Category) -> (r: u8)
    ensures
        r == category_order(category),
{
    match category {
        Category::RoyalFlush => 9,
        Category::StraightFlush => 8,
        Category::FourOfAKind => 7,
        Category::FullHouse => 6,
        Category::Flush => 5,
        Category::Straight => 4,
        Category::ThreeOfAKind => 3,
        Category::TwoPairs => 2,
        Category::Pair => 1,
        Category::HighCard => 0,
    }
}

/// The hand of a category with the given picks.
fn build_hand(category: Category, picks: &Vec<&str>) -> (r: PlayerHand)
    ensures
        r.category == category,
        string_views(r.picks@) == views(picks@),
        r.value@ == seq![category_order(category)] + kind_orders(picks@),
{
    let order = get_category_order(category);
    let hand = make_hand(category, order, picks);
    assert(kind_orders(picks@) =~= view_orders(views(picks@)));
    hand
}

/// The sizes of the groups of equal kinds, larger groups first.
fn group_sizes(cards: &Vec<&str>) -> (r: Vec<u8>)
    requires
        cards@.len() <= 255,
    ensures
        r@ == count_seq(cards@, 1),
{
    let mut res: Vec<u8> = Vec::new();
    let mut n: usize = cards.len();
    while n > 0
        invariant
            n <= cards@.len() <= 255,
            res@ == count_seq(cards@, n + 1),
        decreases n,
    {
        let mut k: u8 = 15;
        while k > 0
            invariant
                k <= 15,
                1 <= n <= cards@.len() <= 255,
                res@ == count_seq(cards@, n + 1) + count_groups(cards@, n as int, k as int),
            decreases k,
        {
            k = k - 1;
            let cnt = count_kind(cards, k);
            if cnt == n {
                let size: u8 = n as u8;
                res.push(size);
            }
            assert(res@ =~= count_seq(cards@, n + 1) + count_groups(cards@, n as int, k as int));
        }
        assert(res@ =~= count_seq(cards@, n as int));
        n = n - 1;
    }
    res
}

/// The hand of a category made of kind groups: larger groups first,
/// groups of equal size higher kind first.
fn build_hand_from_kinds(category: Category, sorted_cards: &Vec<&str>) -> (r: PlayerHand)
    requires
        sorted_cards@.len() == 5,
    ensures
        r.category == category,
        string_views(r.picks@) == views(sort_by_group(sorted_cards@).take(5)),
        r.value@ == seq![category_order(category)] + kind_orders(sort_by_group(sorted_cards@).take(5)),
{
    let grouped = sort_suited_cards(sorted_cards);
    proof {
        lemma_sorted_cards(sorted_cards@);
        assert(grouped@.take(5) =~= grouped@);
    }
    build_hand(category, &grouped)
}

/// The kind orders of cards.
fn kinds_of(cards: &Vec<&str>) -> (r: Vec<u8>)
    ensures
        r@ == kind_orders(cards@),
{
    let mut res: Vec<u8> = Vec::new();
    let mut i: usize = 0;
    while i < cards.len()
        invariant
            i <= cards@.len(),
            res@ == kind_orders(cards@.take(i as int)),
        decreases cards@.len() - i,
    {
        let o = kind_to_order(cards[i]);
        res.push(o);
        i = i + 1;
        assert(res@ =~= kind_orders(cards@.take(i as int)));
    }
    assert(cards@.take(i as int) =~= cards@);
    res
}

/// Evaluate five cards.
fn evaluate_five_card_hand(cards: &Vec<&str>) -> (r: PlayerHand)
    requires
        cards@.len() == 5,
        valid_cards(cards@),
    ensures
        r.category == five_hand(cards@).0,
        string_views(r.picks@) == views(five_hand(cards@).1),
        r.value@ == five_value(cards@),
{
    let sorted_cards = sort_cards_by_kind(cards);
    proof {
        lemma_sorted_cards(cards@);
        lemma_within_valid(sort_by_kind(cards@), cards@);
    }
    let ghost sc = sorted_cards@;
    assert(valid_card(sc[0]@));
    let first_suit = sorted_cards[0].get_char(0);
    let mut is_flush = true;
    let mut i: usize = 0;
    while i < sorted_cards.len()
        invariant
            sc == sorted_cards@,
            sc.len() == 5,
            valid_cards(sc),
            first_suit == sc[0]@[0],
            i <= 5,
            is_flush == (forall|ii: int| 0 <= ii < i ==> sc[ii]@.len() >= 1 && #[trigger] sc[ii]@[0] == sc[0]@[0]),
        decreases 5 - i,
    {
        assert(valid_card(sc[i as int]@));
        let same = sorted_cards[i].get_char(0) == first_suit;
        is_flush = is_flush && same;
        i = i + 1;
    }
    proof {
        let vs = views(sc);
        assert(vs[0] == sc[0]@);
        if is_flush {
            assert forall|ii: int| 0 <= ii < vs.len() implies vs[ii].len() >= 1 && #[trigger] vs[ii][0] == vs[0][0] by {
                assert(vs[ii] == sc[ii]@);
                assert(sc[ii]@[0] == sc[0]@[0]);
            }
        }
        if same_suit(sc) {
            assert forall|ii: int| 0 <= ii < 5 implies sc[ii]@.len() >= 1 && #[trigger] sc[ii]@[0] == sc[0]@[0] by {
                assert(vs[ii] == sc[ii]@);
                assert(vs[ii][0] == vs[0][0]);
            }
        }
        assert(is_flush == same_suit(sc));
    }
    let kinds = kinds_of(&sorted_cards);
    let wheel = kinds[0] == 14 && kinds[1] == 5 && kinds[2] == 4 && kinds[3] == 3 && kinds[4] == 2;
    assert(wheel == is_wheel(kinds@)) by {
        if wheel {
            assert(kinds@ =~= seq![14u8, 5u8, 4u8, 3u8, 2u8]);
        }
    }
    let mut consecutive = true;
    let mut j: usize = 0;
    while j < 4
        invariant
            kinds@.len() == 5,
            j <= 4,
            consecutive == (forall|jj: int| 0 <= jj < j ==> #[trigger] kinds@[jj] == kinds@[jj + 1] + 1),
        decreases 4 - j,
    {
        let step = kinds[j] as u16 == kinds[j + 1] as u16 + 1;
        consecutive = consecutive && step;
        j = j + 1;
    }
    let is_straight = wheel || consecutive;
    let counts = group_sizes(&sorted_cards);
    let ordered = if wheel {
        let mut v: Vec<&str> = Vec::new();
        v.push(sorted_cards[1]);
        v.push(sorted_cards[2]);
        v.push(sorted_cards[3]);
        v.push(sorted_cards[4]);
        v.push(sorted_cards[0]);
        assert(v@ =~= straight_cards(sc));
        v
    } else {
        let mut v: Vec<&str> = Vec::new();
        let mut m: usize = 0;
        while m < 5
            invariant
                sc == sorted_cards@,
                sc.len() == 5,
                m <= 5,
                v@ == sc.take(m as int),
            decreases 5 - m,
        {
            v.push(sorted_cards[m]);
            m = m + 1;
            assert(v@ =~= sc.take(m as int));
        }
        assert(v@ =~= straight_cards(sc));
        v
    };
    let c0 = if counts.len() > 0 {
        counts[0]
    } else {
        0
    };
    let full_house = counts.len() == 2 && counts[0] == 3 && counts[1] == 2;
    assert(full_house == (counts@ == seq![3u8, 2u8])) by {
        if full_house {
            assert(counts@ =~= seq![3u8, 2u8]);
        }
    }
    let two_pairs = counts.len() == 3 && counts[0] == 2 && counts[1] == 2 && counts[2] == 1;
    assert(two_pairs == (counts@ == seq![2u8, 2u8, 1u8])) by {
        if two_pairs {
            assert(counts@ =~= seq![2u8, 2u8, 1u8]);
        }
    }
    if is_straight && is_flush {
        if kinds[0] == 14 && kinds[1] == 13 {
            return build_hand(Category::RoyalFlush, &sorted_cards);
        }
        return build_hand(Category::StraightFlush, &ordered);
    }
    if counts.len() > 0 && c0 == 4 {
        return build_hand_from_kinds(Category::FourOfAKind, &sorted_cards);
    }
    if full_house {
        return build_hand_from_kinds(Category::FullHouse, &sorted_cards);
    }
    if is_flush {
        return build_hand(Category::Flush, &sorted_cards);
    }
    if is_straight {
        return build_hand(Category::Straight, &ordered);
    }
    if counts.len() > 0 && c0 == 3 {
        return build_hand_from_kinds(Category::ThreeOfAKind, &sorted_cards);
    }
    if two_pairs {
        return build_hand_from_kinds(Category::TwoPairs, &sorted_cards);
    }
    if counts.len() > 0 && c0 == 2 {
        return build_hand_from_kinds(Category::Pair, &sorted_cards);
    }
    build_hand(Category::HighCard, &sorted_cards)
}

pub open spec fn vec_seqs<T>(v: Seq<Vec<T>>) -> Seq<Seq<T>> {
    v.map_values(|x: Vec<T>| x@)
}

/// Every element of `c` is an element of `pool`.
pub open spec fn drawn_from<T>(c: Seq<T>, pool: Seq<T>) -> bool {
    forall|i: int| 0 <= i < c.len() ==> pool.contains(#[trigger] c[i])
}

/// Each combination has `k` elements drawn from the pool, and there is one
/// when the pool has at least `k` elements.
pub proof fn lemma_combos<T>(pool: Seq<T>, k: int)
    requires
        k >= 0,
    ensures
        forall|m: int|
            0 <= m < combos(pool, k).len() ==> (#[trigger] combos(pool, k)[m]).len() == k
                && drawn_from(combos(pool, k)[m], pool),
        pool.len() >= k ==> combos(pool, k).len() > 0,
    decreases pool.len(), k,
{
    if k == 0 {
    } else if pool.len() == 0 {
    } else {
        let rest = pool.drop_first();
        lemma_combos(rest, k - 1);
        lemma_combos(rest, k);
        let a = prefixed(pool[0], combos(rest, k - 1));
        let b = combos(rest, k);
        assert forall|m: int| 0 <= m < combos(pool, k).len() implies (#[trigger] combos(
            pool,
            k,
        )[m]).len() == k && drawn_from(combos(pool, k)[m], pool) by {
            if m < a.len() {
                let sub = combos(rest, k - 1)[m];
                assert(combos(pool, k)[m] == seq![pool[0]] + sub);
                assert forall|i: int| 0 <= i < (seq![pool[0]] + sub).len() implies pool.contains(
                    #[trigger] (seq![pool[0]] + sub)[i],
                ) by {
                    if i == 0 {
                        assert(pool[0] == pool[0]);
                    } else {
                        assert(rest.contains(sub[i - 1]));
                        let j = choose|j: int| 0 <= j < rest.len() && rest[j] == sub[i - 1];
                        assert(pool[j + 1] == rest[j]);
                    }
                }
            } else {
                let c = b[m - a.len()];
                assert(combos(pool, k)[m] == c);
                assert forall|i: int| 0 <= i < c.len() implies pool.contains(#[trigger] c[i]) by {
                    assert(rest.contains(c[i]));
                    let j = choose|j: int| 0 <= j < rest.len() && rest[j] == c[i];
                    assert(pool[j + 1] == rest[j]);
                }
            }
        }
        if pool.len() >= k {
            assert(rest.len() >= k - 1);
        }
    }
}

/// All the ways to choose `k` elements of `pool`, keeping their order.
fn combinations<T: Copy>(pool: &[T], k: usize) -> (r: Vec<Vec<T>>)
    ensures
        vec_seqs(r@) == combos(pool@, k as int),
    decreases pool@.len(), k,
{
    if k == 0 {
        let mut res: Vec<Vec<T>> = Vec::new();
        res.push(Vec::new());
        assert(vec_seqs(res@) =~= seq![Seq::<T>::empty()]);
        return res;
    }
    if pool.len() == 0 {
        let res: Vec<Vec<T>> = Vec::new();
        assert(vec_seqs(res@) =~= Seq::<Seq<T>>::empty());
        return res;
    }
    let first = pool[0];
    let rest = vstd::slice::slice_subrange(pool, 1, pool.len());
    assert(rest@ =~= pool@.drop_first());
    let with_first = combinations(rest, k - 1);
    let ghost wf = vec_seqs(with_first@);
    let mut result: Vec<Vec<T>> = Vec::new();
    let mut m: usize = 0;
    while m < with_first.len()
        invariant
            wf == vec_seqs(with_first@),
            m <= with_first@.len(),
            vec_seqs(result@) == prefixed(first, wf.take(m as int)),
        decreases with_first@.len() - m,
    {
        let sub = &with_first[m];
        let mut v: Vec<T> = Vec::new();
        v.push(first);
        let mut i: usize = 0;
        while i < sub.len()
            invariant
                i <= sub@.len(),
                v@ == seq![first] + sub@.take(i as int),
            decreases sub@.len() - i,
        {
            let x: T = sub[i];
            v.push(x);
            i = i + 1;
            assert(v@ =~= seq![first] + sub@.take(i as int));
        }
        assert(sub@.take(i as int) =~= sub@);
        let ghost old_result = result@;
        assert(sub@ == wf[m as int]);
        result.push(v);
        assert(vec_seqs(result@) =~= vec_seqs(old_result).push(v@));
        assert(prefixed(first, wf.take(m + 1)) =~= prefixed(first, wf.take(m as int)).push(
            seq![first] + wf[m as int],
        ));
        m = m + 1;
    }
    assert(wf.take(m as int) =~= wf);
    let mut without_first = combinations(rest, k);
    let ghost a = vec_seqs(result@);
    let ghost b = vec_seqs(without_first@);
    result.append(&mut without_first);
    assert(vec_seqs(result@) =~= a + b);
    result
}

/// The first candidate of `seen` of highest value stays the first of a
/// longer sequence over the same prefix.
proof fn lemma_best_prefix(s: Seq<Seq<&str>>, x: Seq<&str>, n: int)
    requires
        0 <= n <= s.len(),
    ensures
        best_candidate(s.push(x), n) == best_candidate(s, n),
        n >= 1 ==> 0 <= best_candidate(s, n) < n,
    decreases n,
{
    if n > 1 {
        lemma_best_prefix(s, x, n - 1);
        assert(s.push(x)[n - 1] == s[n - 1]);
        assert(s.push(x)[best_candidate(s, n - 1)] == s[best_candidate(s, n - 1)]);
    }
}

/// Five cards: two hole cards followed by three board cards.
fn join_cards<'a>(hc: &Vec<&'a str>, bc: &Vec<&'a str>) -> (r: Vec<&'a str>)
    ensures
        r@ == hc@ + bc@,
{
    let mut v: Vec<&str> = Vec::new();
    let mut i: usize = 0;
    while i < hc.len()
        invariant
            i <= hc@.len(),
            v@ == hc@.take(i as int),
        decreases hc@.len() - i,
    {
        v.push(hc[i]);
        i = i + 1;
        assert(v@ =~= hc@.take(i as int));
    }
    let mut j: usize = 0;
    while j < bc.len()
        invariant
            i == hc@.len(),
            j <= bc@.len(),
            v@ == hc@ + bc@.take(j as int),
        decreases bc@.len() - j,
    {
        v.push(bc[j]);
        j = j + 1;
        assert(v@ =~= hc@ + bc@.take(j as int));
    }
    assert(hc@.take(i as int) =~= hc@);
    assert(bc@.take(j as int) =~= bc@);
    v
}

/// Evaluate an Omaha hand: of all choices of 2 hole cards and 3 board
/// cards, the first (hole choices major, in card order) of highest value.
#[verifier::rlimit(40)]
pub fn evaluate_omaha_hand<'a>(hole_cards: &[&'a str], board: &[&'a str]) -> (r: PlayerHand)
    requires
        hole_cards@.len() >= 2,
        board@.len() >= 3,
        valid_cards(hole_cards@ + board@),
    ensures
        r.category == five_hand(omaha_best(hole_cards@, board@)).0,
        string_views(r.picks@) == views(five_hand(omaha_best(hole_cards@, board@)).1),
        r.value@ == five_value(omaha_best(hole_cards@, board@)),
{
    let hole_combos = combinations(hole_cards, 2);
    let board_combos = combinations(board, 3);
    let ghost hcs = vec_seqs(hole_combos@);
    let ghost bcs = vec_seqs(board_combos@);
    proof {
        lemma_combos(hole_cards@, 2);
        lemma_combos(board@, 3);
        assert forall|i: int| 0 <= i < hole_cards@.len() implies valid_card(#[trigger] hole_cards@[i]@) by {
            assert((hole_cards@ + board@)[i] == hole_cards@[i]);
        }
        assert forall|i: int| 0 <= i < board@.len() implies valid_card(#[trigger] board@[i]@) by {
            assert((hole_cards@ + board@)[hole_cards@.len() + i] == board@[i]);
        }
    }
    let mut best_hand: Option<PlayerHand> = None;
    let ghost mut seen: Seq<Seq<&str>> = Seq::empty();
    let ghost mut bi: int = 0;
    let mut a: usize = 0;
    while a < hole_combos.len()
        invariant
            hcs == vec_seqs(hole_combos@),
            bcs == vec_seqs(board_combos@),
            a <= hcs.len(),
            valid_cards(hole_cards@),
            valid_cards(board@),
            forall|m: int| 0 <= m < hcs.len() ==> (#[trigger] hcs[m]).len() == 2 && drawn_from(hcs[m], hole_cards@),
            forall|m: int| 0 <= m < bcs.len() ==> (#[trigger] bcs[m]).len() == 3 && drawn_from(bcs[m], board@),
            seen == candidates(hcs.take(a as int), bcs),
            best_hand is None <==> seen.len() == 0,
            seen.len() > 0 ==> bi == best_candidate(seen, seen.len() as int) && 0 <= bi < seen.len(),
            best_hand matches Some(h) ==> h.category == five_hand(seen[bi]).0 && string_views(h.picks@)
                == views(five_hand(seen[bi]).1) && h.value@ == five_value(seen[bi]),
        decreases hcs.len() - a,
    {
        let hc = &hole_combos[a];
        assert(hc@ == hcs[a as int]);
        assert(hcs[a as int].len() == 2 && drawn_from(hcs[a as int], hole_cards@));
        let ghost base = seen;
        let mut b: usize = 0;
        while b < board_combos.len()
            invariant
                hcs == vec_seqs(hole_combos@),
                bcs == vec_seqs(board_combos@),
                a < hcs.len(),
                hc@ == hcs[a as int],
                b <= bcs.len(),
                valid_cards(hole_cards@),
                valid_cards(board@),
                hc@.len() == 2 && drawn_from(hc@, hole_cards@),
                forall|m: int| 0 <= m < bcs.len() ==> (#[trigger] bcs[m]).len() == 3 && drawn_from(bcs[m], board@),
                base == candidates(hcs.take(a as int), bcs),
                seen == base + bcs.take(b as int).map_values(|bc: Seq<&str>| hc@ + bc),
                best_hand is None <==> seen.len() == 0,
                seen.len() > 0 ==> bi == best_candidate(seen, seen.len() as int) && 0 <= bi < seen.len(),
                best_hand matches Some(h) ==> h.category == five_hand(seen[bi]).0 && string_views(h.picks@)
                    == views(five_hand(seen[bi]).1) && h.value@ == five_value(seen[bi]),
            decreases bcs.len() - b,
        {
            let bc = &board_combos[b];
            let current_cards = join_cards(hc, bc);
            proof {
                assert(bc@ == bcs[b as int]);
                assert forall|i: int| 0 <= i < current_cards@.len() implies valid_card(#[trigger] current_cards@[i]@) by {
                    if i < 2 {
                        assert(current_cards@[i] == hc@[i]);
                        assert(hole_cards@.contains(hc@[i]));
                    } else {
                        assert(current_cards@[i] == bc@[i - 2]);
                        assert(board@.contains(bc@[i - 2]));
                    }
                }
            }
            let hand = evaluate_five_card_hand(&current_cards);
            let ghost old_seen = seen;
            proof {
                seen = seen.push(current_cards@);
                assert(bcs.take(b + 1).map_values(|bc: Seq<&str>| hc@ + bc) =~= bcs.take(
                    b as int,
                ).map_values(|bc: Seq<&str>| hc@ + bc).push(hc@ + bcs[b as int]));
                assert(seen =~= base + bcs.take(b + 1).map_values(|bc: Seq<&str>| hc@ + bc));
                if old_seen.len() > 0 {
                    lemma_best_prefix(old_seen, current_cards@, old_seen.len() as int);
                }
            }
            let replace = match &best_hand {
                Some(best) => value_sign(&hand.value, &best.value) > 0,
                None => true,
            };
            if replace {
                best_hand = Some(hand);
                proof {
                    bi = old_seen.len() as int;
                }
            }
            b = b + 1;
        }
        proof {
            assert(bcs.take(b as int) =~= bcs);
            assert(hcs.take(a + 1).drop_last() =~= hcs.take(a as int));
            assert(hcs.take(a + 1).last() == hcs[a as int]);
            assert(seen =~= candidates(hcs.take(a + 1), bcs));
        }
        a = a + 1;
    }
    proof {
        assert(hcs.take(a as int) =~= hcs);
        lemma_candidates_len(hcs, bcs);
    }
    match best_hand {
        Some(h) => h,
        None => {
            assert(false);
            PlayerHand { category: Category::HighCard, picks: Vec::new(), value: Vec::new() }
        },
    }
}

/// There are candidates when there are hole and board combinations.
pub proof fn lemma_candidates_len(hcs: Seq<Seq<&str>>, bcs: Seq<Seq<&str>>)
    requires
        hcs.len() > 0,
        bcs.len() > 0,
    ensures
        candidates(hcs, bcs).len() > 0,
    decreases hcs.len(),
{
}


/// Every candidate is one hole combination followed by one board
/// combination.
pub proof fn lemma_candidate_parts<'a>(hcs: Seq<Seq<&'a str>>, bcs: Seq<Seq<&'a str>>, k: int)
    requires
        0 <= k < candidates(hcs, bcs).len(),
    ensures
        exists|i: int, j: int|
            0 <= i < hcs.len() && 0 <= j < bcs.len() && candidates(hcs, bcs)[k] == #[trigger] hcs[i] + #[trigger] bcs[j],
    decreases hcs.len(),
{
    if hcs.len() > 0 {
        let front = candidates(hcs.drop_last(), bcs);
        let tail = bcs.map_values(|bc: Seq<&'a str>| hcs.last() + bc);
        if k < front.len() {
            lemma_candidate_parts(hcs.drop_last(), bcs, k);
            let (i, j) = choose|i: int, j: int|
                0 <= i < hcs.drop_last().len() && 0 <= j < bcs.len() && front[k] == #[trigger] hcs.drop_last()[i] + #[trigger] bcs[j];
            assert(candidates(hcs, bcs)[k] == hcs[i] + bcs[j]);
        } else {
            let j = k - front.len();
            assert(candidates(hcs, bcs)[k] == tail[j]);
            assert(candidates(hcs, bcs)[k] == hcs[hcs.len() - 1] + bcs[j]);
        }
    }
}

/// There is a candidate when there are hole and board combinations.
pub proof fn lemma_candidates_exist<'a>(hcs: Seq<Seq<&'a str>>, bcs: Seq<Seq<&'a str>>)
    requires
        hcs.len() > 0,
        bcs.len() > 0,
    ensures
        candidates(hcs, bcs).len() > 0,
{
    assert(candidates(hcs, bcs).len() >= bcs.len());
}

/// The best candidate among the first `n` is one of them.
pub proof fn lemma_best_candidate_in_range(cs: Seq<Seq<&str>>, n: int)
    requires
        n >= 1,
    ensures
        0 <= best_candidate(cs, n) < n,
    decreases n,
{
    if n > 1 {
        lemma_best_candidate_in_range(cs, n - 1);
    }
}

} // verus!
