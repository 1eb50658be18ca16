//! Functions and structs used to compare (evaluate) players' hands.
//!
//! Cards are 5 community cards and 2 hole cards.  Each card is a string
//! whose first character is the suit and whose rest is the kind, so "ca"
//! is the club ace.  A hand (the picks) is the best 5 cards out of 7.
//! Cards are sorted either by kind, for finding straights, or by groups
//! of equal kinds, for pairs, full houses and three or four of a kind.

use std::cmp::Ordering;
use vstd::prelude::*;
use vstd::string::*;

verus! {

// ------------------------------------------------------------------
// The model of cards
// ------------------------------------------------------------------

/// The order of a card's kind: 14 for an ace down to 2, and 0 for a kind
/// that is not one of "a", "k", "q", "j", "t", "9" .. "2".
pub open spec fn kind_of(c: Seq<char>) -> u8 {
    if c.len() == 2 {
        let k = c[1];
        if k == 'a' {
            14
        } else if k == 'k' {
            13
        } else if k == 'q' {
            12
        } else if k == 'j' {
            11
        } else if k == 't' {
            10
        } else if k == '9' {
            9
        } else if k == '8' {
            8
        } else if k == '7' {
            7
        } else if k == '6' {
            6
        } else if k == '5' {
            5
        } else if k == '4' {
            4
        } else if k == '3' {
            3
        } else if k == '2' {
            2
        } else {
            0
        }
    } else {
        0
    }
}

/// A card can be split into its suit (the first character, a single byte)
/// and its kind (the rest).
pub open spec fn valid_card(c: Seq<char>) -> bool {
    c.len() >= 1 && (c[0] as u32) < 128
}

pub open spec fn valid_cards(s: Seq<&str>) -> bool {
    forall|i: int| 0 <= i < s.len() ==> valid_card(#[trigger] s[i]@)
}

pub open spec fn kind_pred<'a>(k: int) -> spec_fn(&'a str) -> bool {
    |c: &'a str| kind_of(c@) == k
}

/// The cards of `s` of kind order `k`, in their order in `s`.
pub open spec fn of_kind(s: Seq<&str>, k: int) -> Seq<&str> {
    s.filter(kind_pred(k))
}

/// The cards of `s` whose kind order is at least `lo`, highest kind first,
/// cards of equal kind in their order in `s`.
pub open spec fn kinds_from(s: Seq<&str>, lo: int) -> Seq<&str>
    decreases 15 - lo,
{
    if lo >= 15 {
        Seq::empty()
    } else {
        kinds_from(s, lo + 1) + of_kind(s, lo)
    }
}

/// `s` stably sorted by kind, highest first.
pub open spec fn sort_by_kind(s: Seq<&str>) -> Seq<&str> {
    kinds_from(s, 0)
}

/// The groups of equal kind of exactly `n` cards, for kinds at least `lo`,
/// highest kind first.
pub open spec fn groups_of_size(s: Seq<&str>, n: int, lo: int) -> Seq<&str>
    decreases 15 - lo,
{
    if lo >= 15 {
        Seq::empty()
    } else {
        groups_of_size(s, n, lo + 1) + (if of_kind(s, lo).len() == n {
            of_kind(s, lo)
        } else {
            Seq::empty()
        })
    }
}

/// The groups of equal kind with at least `n` cards, larger groups first,
/// groups of equal size by kind, highest first.
pub open spec fn sized_from(s: Seq<&str>, n: int) -> Seq<&str>
    decreases s.len() + 1 - n,
{
    if n > s.len() {
        Seq::empty()
    } else {
        sized_from(s, n + 1) + groups_of_size(s, n, 0)
    }
}

/// The cards sorted by group of equal kinds: larger groups first, groups of
/// equal size with the higher kind first, each group in its order in `s`.
pub open spec fn sort_by_group(s: Seq<&str>) -> Seq<&str> {
    sized_from(s, 1)
}

/// The index of the first card of highest kind among the first `n` cards.
pub open spec fn kicker_index(s: Seq<&str>, n: int) -> int
    decreases n,
{
    if n <= 1 {
        0
    } else {
        let b = kicker_index(s, n - 1);
        if kind_of(s[n - 1]@) > kind_of(s[b]@) {
            n - 1
        } else {
            b
        }
    }
}

pub open spec fn kind_orders(s: Seq<&str>) -> Seq<u8> {
    s.map_values(|c: &str| kind_of(c@))
}

/// A hand's value: the category's order followed by the kind orders of the picks.
pub open spec fn tagged(picks: Seq<&str>, category_order: u8) -> Seq<u8> {
    seq![category_order] + kind_orders(picks)
}

pub open spec fn compare_orders(o1: u8, o2: u8) -> Ordering {
    if o2 > o1 {
        Ordering::Greater
    } else if o2 < o1 {
        Ordering::Less
    } else {
        Ordering::Equal
    }
}

/// The lexicographic comparison of two hand values from index `i` on, over
/// their common length: 1 when the first is larger, -1 when smaller, 0 when equal.
pub open spec fn value_sign_from(a: Seq<u8>, b: Seq<u8>, i: int) -> int
    decreases a.len() - i,
{
    if i < 0 || i >= a.len() || i >= b.len() {
        0
    } else if a[i] > b[i] {
        1
    } else if a[i] < b[i] {
        -1
    } else {
        value_sign_from(a, b, i + 1)
    }
}

pub open spec fn ordering_of_sign(x: int) -> Ordering {
    if x > 0 {
        Ordering::Greater
    } else if x < 0 {
        Ordering::Less
    } else {
        Ordering::Equal
    }
}

/// The comparison of two hand values.
pub open spec fn compare_values(a: Seq<u8>, b: Seq<u8>) -> Ordering {
    ordering_of_sign(value_sign_from(a, b, 0))
}

/// Hand categories, from the strongest to the weakest.
#[derive(Debug, Clone, Copy, PartialEq, Eq, Structural)]
pub enum Category {
    RoyalFlush,
    StraightFlush,
    FourOfAKind,
    FullHouse,
    Flush,
    Straight,
    ThreeOfAKind,
    TwoPairs,
    Pair,
    HighCard,
}

/// The rank of a category: 9 for a royal flush down to 0 for a high card.
pub open spec fn category_order(c: Category) -> u8 {
    match c {
        Category::RoyalFlush => 9,
        Category::StraightFlush => 8,
        Category::FourOfAKind => 7,
        Category::FullHouse => 6,
        Category::Flush => 5,
        Category::Straight => 4,
        Category::ThreeOfAKind => 3,
        Category::TwoPairs => 2,
        Category::Pair => 1,
        Category::HighCard => 0,
    }
}

/// The evaluation of a player's cards.
#[derive(Debug)]
pub struct PlayerHand {
    /// the ranking
    pub category: Category,
    /// the best 5 of the 7 cards
    pub picks: Vec<String>,
    /// the category order followed by the kind orders of the picks
    pub value: Vec<u8>,
}

pub open spec fn views(s: Seq<&str>) -> Seq<Seq<char>> {
    s.map_values(|c: &str| c@)
}

pub open spec fn string_views(s: Seq<String>) -> Seq<Seq<char>> {
    s.map_values(|c: String| c@)
}

pub open spec fn vec_views<'a>(v: Seq<Vec<&'a str>>) -> Seq<Seq<&'a str>> {
    v.map_values(|x: Vec<&'a str>| x@)
}

/// The kind orders of cards given by their characters.
pub open spec fn view_orders(v: Seq<Seq<char>>) -> Seq<u8> {
    v.map_values(|c: Seq<char>| kind_of(c))
}

/// The kind part of a card, empty for an empty string.
pub open spec fn kind_str(c: Seq<char>) -> Seq<char> {
    if c.len() >= 1 {
        c.subrange(1, c.len() as int)
    } else {
        c
    }
}

/// Whether the leading kinds (strings) of `k` form the given category.
pub open spec fn same_kinds(k: Seq<&str>, category: Category) -> bool {
    match category {
        Category::FourOfAKind => k[1]@ == k[0]@ && k[2]@ == k[0]@ && k[3]@ == k[0]@,
        Category::FullHouse => k[1]@ == k[0]@ && k[2]@ == k[0]@ && k[4]@ == k[3]@,
        Category::ThreeOfAKind => k[1]@ == k[0]@ && k[2]@ == k[0]@,
        Category::TwoPairs => k[0]@ == k[1]@ && k[2]@ == k[3]@,
        Category::Pair => k[0]@ == k[1]@,
        _ => false,
    }
}

/// How many kinds a category check looks at.
pub open spec fn same_kinds_len(category: Category) -> int {
    match category {
        Category::FourOfAKind => 4,
        Category::FullHouse => 5,
        Category::ThreeOfAKind => 3,
        Category::TwoPairs => 4,
        Category::Pair => 2,
        _ => 0,
    }
}

pub open spec fn suit_pred<'a>(ch: char) -> spec_fn(&'a str) -> bool {
    |c: &'a str| c@[0] == ch
}

/// The cards of `s` of suit `ch`, in their order in `s`.
pub open spec fn of_suit(s: Seq<&str>, ch: char) -> Seq<&str> {
    s.filter(suit_pred(ch))
}

/// The index of the first card from `i` on whose suit has at least 5 cards, or -1.
pub open spec fn first_flush_from(s: Seq<&str>, i: int) -> int
    decreases s.len() - i,
{
    if i < 0 || i >= s.len() {
        -1
    } else if of_suit(s, s[i]@[0]).len() >= 5 {
        i
    } else {
        first_flush_from(s, i + 1)
    }
}

/// The cards of the flush suit sorted by kind, or nothing.
pub open spec fn flush_cards(s: Seq<&str>) -> Seq<&str> {
    let i = first_flush_from(s, 0);
    if i >= 0 {
        sort_by_kind(of_suit(s, s[i]@[0]))
    } else {
        Seq::empty()
    }
}

/// The kind order of the `j`th card of the `p`th possible straight, from
/// ace-high (p = 0) down to five-high (p = 9, where the ace comes last).
pub open spec fn straight_order(p: int, j: int) -> int {
    if p < 9 {
        14 - p - j
    } else if j < 4 {
        5 - j
    } else {
        14
    }
}

/// For each card of the `p`th straight, the cards that can take its place.
pub open spec fn pattern_lists<'a>(s: Seq<&'a str>, p: int) -> Seq<Seq<&'a str>> {
    Seq::new(5, |j: int| of_kind(s, straight_order(p, j)))
}

pub open spec fn prepend_all<'a>(a: &'a str, rest: Seq<Seq<&'a str>>) -> Seq<Seq<&'a str>> {
    rest.map_values(|t: Seq<&'a str>| seq![a] + t)
}

/// Each head followed by each tail, heads major.
pub open spec fn cross<'a>(heads: Seq<&'a str>, rest: Seq<Seq<&'a str>>) -> Seq<Seq<&'a str>>
    decreases heads.len(),
{
    if heads.len() == 0 {
        Seq::empty()
    } else {
        cross(heads.drop_last(), rest) + prepend_all(heads.last(), rest)
    }
}

/// The cartesian product of the lists, in lexicographic order.
pub open spec fn prod<'a>(lists: Seq<Seq<&'a str>>) -> Seq<Seq<&'a str>>
    decreases lists.len(),
{
    if lists.len() == 0 {
        seq![Seq::empty()]
    } else {
        cross(lists[0], prod(lists.drop_first()))
    }
}

/// All straights of the first `p` patterns, in pattern order.
pub open spec fn straights_upto<'a>(s: Seq<&'a str>, p: int) -> Seq<Seq<&'a str>>
    decreases p,
{
    if p <= 0 {
        Seq::empty()
    } else {
        straights_upto(s, p - 1) + prod(pattern_lists(s, p - 1))
    }
}

/// A sequence of cards of pairwise different kinds.
pub open spec fn distinct_kinds(st: Seq<&str>) -> bool {
    forall|i: int, j: int| 0 <= i < j < st.len() ==> kind_of(st[i]@) != kind_of(st[j]@)
}

pub open spec fn in_flush(flush: Seq<&str>, c: &str) -> bool {
    exists|i: int| 0 <= i < flush.len() && flush[i]@ == c@
}

pub open spec fn all_in_flush(flush: Seq<&str>, st: Seq<&str>) -> bool {
    forall|j: int| 0 <= j < st.len() ==> in_flush(flush, #[trigger] st[j])
}

/// A straight flush led by an ace gets the ace moved to its end.
pub open spec fn fix_ace<'a>(h: Seq<&'a str>) -> Seq<&'a str> {
    if h.len() > 0 && h[0]@.contains('a') {
        h.drop_first().push(h[0])
    } else {
        h
    }
}

/// The straights all of whose cards are in the flush, sorted by kind.
pub open spec fn straight_flushes<'a>(flush: Seq<&str>, sts: Seq<Seq<&'a str>>) -> Seq<Seq<&'a str>>
    decreases sts.len(),
{
    if sts.len() == 0 {
        Seq::empty()
    } else {
        let prev = straight_flushes(flush, sts.drop_last());
        if all_in_flush(flush, sts.last()) {
            prev.push(fix_ace(sort_by_kind(sts.last())))
        } else {
            prev
        }
    }
}

pub open spec fn royal_kind(j: int) -> char {
    if j == 0 {
        'a'
    } else if j == 1 {
        'k'
    } else if j == 2 {
        'q'
    } else if j == 3 {
        'j'
    } else {
        't'
    }
}

pub open spec fn suit_char(i: int) -> char {
    if i == 0 {
        'c'
    } else if i == 1 {
        'd'
    } else if i == 2 {
        'h'
    } else {
        's'
    }
}

pub open spec fn royal_card(suit: char, j: int) -> Seq<char> {
    seq![suit, royal_kind(j)]
}

pub open spec fn has_card(s: Seq<&str>, c: Seq<char>) -> bool {
    exists|i: int| 0 <= i < s.len() && s[i]@ == c
}

/// Whether the first 7 cards hold the ace, king, queen, jack and ten of a suit.
pub open spec fn has_royal(s: Seq<&str>, suit: char) -> bool {
    forall|j: int| 0 <= j < 5 ==> has_card(s.take(7), #[trigger] royal_card(suit, j))
}

/// The first suit, in the order club, diamond, heart, spade, with a royal flush, or -1.
pub open spec fn royal_suit_from(s: Seq<&str>, i: int) -> int
    decreases 4 - i,
{
    if i < 0 || i >= 4 {
        -1
    } else if has_royal(s, suit_char(i)) {
        i
    } else {
        royal_suit_from(s, i + 1)
    }
}

pub open spec fn royal_cards(suit: char) -> Seq<Seq<char>> {
    Seq::new(5, |j: int| royal_card(suit, j))
}

/// The category and the picks (by their characters) of 7 cards.
pub open spec fn hand_of(s: Seq<&str>) -> (Category, Seq<Seq<char>>) {
    let g = sort_by_group(s);
    let gk = g.map_values(|c: &str| kind_str(c@));
    let rs = royal_suit_from(s, 0);
    let fl = flush_cards(s);
    let sts = straights_upto(sort_by_kind(s), 10);
    let sf = straight_flushes(fl, sts);
    if rs >= 0 {
        (Category::RoyalFlush, royal_cards(suit_char(rs)))
    } else if sf.len() > 0 {
        (Category::StraightFlush, views(sf[0]))
    } else if kinds_match(gk, Category::FourOfAKind) {
        let rest = g.skip(4);
        (Category::FourOfAKind, views(g.take(4).push(rest[kicker_index(rest, rest.len() as int)])))
    } else if kinds_match(gk, Category::FullHouse) {
        (Category::FullHouse, views(g.take(5)))
    } else if first_flush_from(s, 0) >= 0 {
        (Category::Flush, views(fl.take(5)))
    } else if sts.len() > 0 {
        (Category::Straight, views(sts[0]))
    } else if kinds_match(gk, Category::ThreeOfAKind) {
        (Category::ThreeOfAKind, views(g.take(5)))
    } else if kinds_match(gk, Category::TwoPairs) {
        let rest = g.skip(4);
        (Category::TwoPairs, views(g.take(4).push(rest[kicker_index(rest, rest.len() as int)])))
    } else if kinds_match(gk, Category::Pair) {
        (Category::Pair, views(g.take(5)))
    } else {
        (Category::HighCard, views(g.take(5)))
    }
}

/// `same_kinds` over kind strings given by their characters.
pub open spec fn kinds_match(k: Seq<Seq<char>>, category: Category) -> bool {
    match category {
        Category::FourOfAKind => k[1] == k[0] && k[2] == k[0] && k[3] == k[0],
        Category::FullHouse => k[1] == k[0] && k[2] == k[0] && k[4] == k[3],
        Category::ThreeOfAKind => k[1] == k[0] && k[2] == k[0],
        Category::TwoPairs => k[0] == k[1] && k[2] == k[3],
        Category::Pair => k[0] == k[1],
        _ => false,
    }
}

// ------------------------------------------------------------------
// Small helpers
// ------------------------------------------------------------------

/// Filtering one more element of a prefix.
pub proof fn lemma_filter_take_step<A>(s: Seq<A>, p: spec_fn(A) -> bool, j: int)
    requires
        0 <= j < s.len(),
    ensures
        s.take(j + 1).filter(p) == (if p(s[j]) {
            s.take(j).filter(p).push(s[j])
        } else {
            s.take(j).filter(p)
        }),
{
    assert(s.take(j + 1) =~= s.take(j).push(s[j]));
    s.take(j).lemma_filter_push(s[j], p);
}

/// Whether two strings are equal.
pub(crate) fn str_eq(a: &str, b: &str) -> (r: bool)
    ensures
        r == (a@ == b@),
{
    let n = a.unicode_len();
    let m = b.unicode_len();
    if n != m {
        return false;
    }
    let mut i: usize = 0;
    while i < n
        invariant
            n == a@.len(),
            m == b@.len(),
            n == m,
            i <= n,
            forall|j: int| 0 <= j < i ==> a@[j] == b@[j],
        decreases n - i,
    {
        if a.get_char(i) != b.get_char(i) {
            return false;
        }
        i = i + 1;
    }
    assert(a@ =~= b@);
    true
}

pub(crate) fn kind_to_order(card: &str) -> (r: u8)
    ensures
        r == kind_of(card@),
{
    if card.unicode_len() == 2 {
        let k = card.get_char(1);
        if k == 'a' {
            14
        } else if k == 'k' {
            13
        } else if k == 'q' {
            12
        } else if k == 'j' {
            11
        } else if k == 't' {
            10
        } else if k == '9' {
            9
        } else if k == '8' {
            8
        } else if k == '7' {
            7
        } else if k == '6' {
            6
        } else if k == '5' {
            5
        } else if k == '4' {
            4
        } else if k == '3' {
            3
        } else if k == '2' {
            2
        } else {
            0
        }
    } else {
        0
    }
}

/// How many cards are of kind order `k`.
pub(crate) fn count_kind(cards: &Vec<&str>, k: u8) -> (r: usize)
    ensures
        r == of_kind(cards@, k as int).len(),
{
    let mut n: usize = 0;
    let mut j: usize = 0;
    while j < cards.len()
        invariant
            j <= cards.len(),
            n <= j,
            n == of_kind(cards@.take(j as int), k as int).len(),
        decreases cards.len() - j,
    {
        proof {
            lemma_filter_take_step(cards@, kind_pred(k as int), j as int);
        }
        if kind_to_order(cards[j]) == k {
            n = n + 1;
        }
        j = j + 1;
    }
    assert(cards@.take(cards.len() as int) =~= cards@);
    n
}

/// Append the cards of kind order `k` to `res`.
fn push_kind<'a>(res: &mut Vec<&'a str>, cards: &Vec<&'a str>, k: u8)
    ensures
        final(res)@ == old(res)@ + of_kind(cards@, k as int),
{
    let mut j: usize = 0;
    while j < cards.len()
        invariant
            j <= cards.len(),
            res@ == old(res)@ + of_kind(cards@.take(j as int), k as int),
        decreases cards.len() - j,
    {
        proof {
            lemma_filter_take_step(cards@, kind_pred(k as int), j as int);
        }
        if kind_to_order(cards[j]) == k {
            res.push(cards[j]);
            assert(res@ =~= old(res)@ + of_kind(cards@.take(j + 1), k as int));
        } else {
            assert(res@ =~= old(res)@ + of_kind(cards@.take(j + 1), k as int));
        }
        j = j + 1;
    }
    assert(cards@.take(cards.len() as int) =~= cards@);
}

// ------------------------------------------------------------------
// Public functions
// ------------------------------------------------------------------

/// The 7 cards: the community cards followed by the hole cards.
pub fn create_cards<'a>(community_cards: &[&'a str], hole_cards: &[&'a str]) -> (r: Vec<&'a str>)
    ensures
        r@ == community_cards@ + hole_cards@,
{
    let mut cards: Vec<&str> = Vec::new();
    let mut i: usize = 0;
    while i < community_cards.len()
        invariant
            i <= community_cards@.len(),
            cards@ == community_cards@.take(i as int),
        decreases community_cards@.len() - i,
    {
        cards.push(community_cards[i]);
        i = i + 1;
        assert(cards@ =~= community_cards@.take(i as int));
    }
    let mut j: usize = 0;
    while j < hole_cards.len()
        invariant
            i == community_cards@.len(),
            j <= hole_cards@.len(),
            cards@ == community_cards@ + hole_cards@.take(j as int),
        decreases hole_cards@.len() - j,
    {
        cards.push(hole_cards[j]);
        j = j + 1;
        assert(cards@ =~= community_cards@ + hole_cards@.take(j as int));
    }
    assert(community_cards@.take(i as int) =~= community_cards@);
    assert(hole_cards@.take(j as int) =~= hole_cards@);
    cards
}

/// Compare two cards by kind so that sorting puts the higher kind first:
/// `Less` when the first card is of higher kind, `Greater` when lower.
pub fn compare_kinds(card1: &str, card2: &str) -> (r: Ordering)
    requires
        valid_card(card1@),
        valid_card(card2@),
    ensures
        r == compare_orders(kind_of(card1@), kind_of(card2@)),
{
    let order1 = kind_to_order(card1);
    let order2 = kind_to_order(card2);
    if order2 > order1 {
        Ordering::Greater
    } else if order2 < order1 {
        Ordering::Less
    } else {
        Ordering::Equal
    }
}

/// Whether there are exactly 7 cards.
pub fn validate_cards(cards: &Vec<&str>) -> (r: bool)
    ensures
        r == (cards@.len() == 7),
{
    cards.len() == 7
}

/// The first card of the highest kind.
pub fn find_kicker<'a>(cards: &[&'a str]) -> (r: &'a str)
    requires
        cards@.len() >= 1,
        valid_cards(cards@),
    ensures
        r == cards@[kicker_index(cards@, cards@.len() as int)],
{
    let mut best: usize = 0;
    let mut i: usize = 1;
    while i < cards.len()
        invariant
            1 <= i <= cards@.len(),
            best < i,
            best == kicker_index(cards@, i as int),
        decreases cards@.len() - i,
    {
        if kind_to_order(cards[i]) > kind_to_order(cards[best]) {
            best = i;
        }
        i = i + 1;
    }
    cards[best]
}

/// Sort the cards stably by kind, highest kind first.
pub fn sort_cards_by_kind<'a>(cards: &Vec<&'a str>) -> (r: Vec<&'a str>)
    ensures
        r@ == sort_by_kind(cards@),
{
    let mut res: Vec<&str> = Vec::new();
    let mut k: u8 = 15;
    while k > 0
        invariant
            k <= 15,
            res@ == kinds_from(cards@, k as int),
        decreases k,
    {
        k = k - 1;
        push_kind(&mut res, cards, k);
    }
    res
}

/// Sort the cards by groups of equal kinds: larger groups first; groups of
/// equal size, higher kind first; each group in the order of `cards`.
/// Input:  ["ht", "s8", "st", "c8", "h5", "d3", "h3"]
/// Output: ["ht", "st", "s8", "c8", "h5", "h3", "d3"]
pub fn sort_suited_cards<'a>(cards: &Vec<&'a str>) -> (r: Vec<&'a str>)
    ensures
        r@ == sort_by_group(cards@),
{
    let mut res: Vec<&str> = Vec::new();
    let mut n: usize = cards.len();
    while n > 0
        invariant
            n <= cards@.len(),
            res@ == sized_from(cards@, n + 1),
        decreases n,
    {
        let mut k: u8 = 15;
        while k > 0
            invariant
                k <= 15,
                1 <= n <= cards@.len(),
                res@ == sized_from(cards@, n + 1) + groups_of_size(cards@, n as int, k as int),
            decreases k,
        {
            k = k - 1;
            let cnt = count_kind(cards, k);
            let ghost before = res@;
            if cnt == n {
                push_kind(&mut res, cards, k);
            }
            assert(res@ =~= sized_from(cards@, n + 1) + groups_of_size(cards@, n as int, k as int));
        }
        assert(res@ =~= sized_from(cards@, n as int));
        n = n - 1;
    }
    res
}

/// A hand's value: the category order followed by the kind orders of the picks.
fn tag_value(picked: &Vec<&str>, category_orderv: u8) -> (r: Vec<u8>)
    ensures
        r@ == tagged(picked@, category_orderv),
{
    let mut value: Vec<u8> = Vec::new();
    value.push(category_orderv);
    let mut i: usize = 0;
    while i < picked.len()
        invariant
            i <= picked@.len(),
            value@ == seq![category_orderv] + kind_orders(picked@.take(i as int)),
        decreases picked@.len() - i,
    {
        let o = kind_to_order(picked[i]);
        value.push(o);
        i = i + 1;
        assert(value@ =~= seq![category_orderv] + kind_orders(picked@.take(i as int)));
    }
    assert(picked@.take(i as int) =~= picked@);
    value
}

/// The sign of the lexicographic comparison of two hand values.
pub(crate) fn value_sign(handv1: &Vec<u8>, handv2: &Vec<u8>) -> (r: i8)
    ensures
        r as int == value_sign_from(handv1@, handv2@, 0),
{
    let mut i: usize = 0;
    while i < handv1.len() && i < handv2.len()
        invariant
            value_sign_from(handv1@, handv2@, 0) == value_sign_from(handv1@, handv2@, i as int),
        decreases handv1@.len() - i,
    {
        if handv1[i] > handv2[i] {
            return 1;
        } else if handv1[i] < handv2[i] {
            return -1;
        }
        i = i + 1;
    }
    0
}

/// Compare the values of two hands lexicographically over their common length.
pub fn compare_hands(handv1: &Vec<u8>, handv2: &Vec<u8>) -> (r: Ordering)
    ensures
        r == compare_values(handv1@, handv2@),
{
    let sign = value_sign(handv1, handv2);
    if sign > 0 {
        Ordering::Greater
    } else if sign < 0 {
        Ordering::Less
    } else {
        Ordering::Equal
    }
}

/// Decide whether the sorted kinds (the kind parts of cards sorted by
/// groups) form the given category.  Only four of a kind, full house,
/// three of a kind, two pairs and pair are checked; other categories give `false`.
pub fn check_same_kinds(sorted_kinds: &Vec<&str>, category: Category) -> (r: bool)
    requires
        sorted_kinds@.len() >= same_kinds_len(category),
    ensures
        r == same_kinds(sorted_kinds@, category),
{
    match category {
        Category::FourOfAKind => str_eq(sorted_kinds[1], sorted_kinds[0]) && str_eq(
            sorted_kinds[2],
            sorted_kinds[0],
        ) && str_eq(sorted_kinds[3], sorted_kinds[0]),
        Category::FullHouse => str_eq(sorted_kinds[1], sorted_kinds[0]) && str_eq(
            sorted_kinds[2],
            sorted_kinds[0],
        ) && str_eq(sorted_kinds[4], sorted_kinds[3]),
        Category::ThreeOfAKind => str_eq(sorted_kinds[1], sorted_kinds[0]) && str_eq(
            sorted_kinds[2],
            sorted_kinds[0],
        ),
        Category::TwoPairs => str_eq(sorted_kinds[0], sorted_kinds[1]) && str_eq(
            sorted_kinds[2],
            sorted_kinds[3],
        ),
        Category::Pair => str_eq(sorted_kinds[0], sorted_kinds[1]),
        _ => false,
    }
}

/// How many cards are of suit `ch`.
fn count_suit(cards: &Vec<&str>, ch: char) -> (r: usize)
    requires
        valid_cards(cards@),
    ensures
        r == of_suit(cards@, ch).len(),
{
    let mut n: usize = 0;
    let mut j: usize = 0;
    while j < cards.len()
        invariant
            valid_cards(cards@),
            j <= cards.len(),
            n <= j,
            n == of_suit(cards@.take(j as int), ch).len(),
        decreases cards.len() - j,
    {
        proof {
            lemma_filter_take_step(cards@, suit_pred(ch), j as int);
        }
        assert(valid_card(cards@[j as int]@));
        if cards[j].get_char(0) == ch {
            n = n + 1;
        }
        j = j + 1;
    }
    assert(cards@.take(cards.len() as int) =~= cards@);
    n
}

/// The cards of suit `ch`.
fn suit_cards<'a>(cards: &Vec<&'a str>, ch: char) -> (r: Vec<&'a str>)
    requires
        valid_cards(cards@),
    ensures
        r@ == of_suit(cards@, ch),
{
    let mut res: Vec<&str> = Vec::new();
    let mut j: usize = 0;
    while j < cards.len()
        invariant
            valid_cards(cards@),
            j <= cards.len(),
            res@ == of_suit(cards@.take(j as int), ch),
        decreases cards.len() - j,
    {
        proof {
            lemma_filter_take_step(cards@, suit_pred(ch), j as int);
        }
        assert(valid_card(cards@[j as int]@));
        if cards[j].get_char(0) == ch {
            res.push(cards[j]);
        }
        j = j + 1;
    }
    assert(cards@.take(cards.len() as int) =~= cards@);
    res
}

/// Search for a flush among the cards: the first suit, in the order of the
/// cards, with at least 5 cards (with at most 9 cards there is at most one).
/// Returns its cards sorted by kind.
pub fn find_flush<'a>(cards: &Vec<&'a str>) -> (r: (bool, Vec<&'a str>))
    requires
        valid_cards(cards@),
    ensures
        r.0 == (first_flush_from(cards@, 0) >= 0),
        r.1@ == flush_cards(cards@),
{
    let mut i: usize = 0;
    while i < cards.len()
        invariant
            valid_cards(cards@),
            i <= cards.len(),
            first_flush_from(cards@, 0) == first_flush_from(cards@, i as int),
        decreases cards.len() - i,
    {
        assert(valid_card(cards@[i as int]@));
        let ch = cards[i].get_char(0);
        if count_suit(cards, ch) >= 5 {
            let group = suit_cards(cards, ch);
            let sorted = sort_cards_by_kind(&group);
            return (true, sorted);
        }
        i = i + 1;
    }
    (false, Vec::new())
}

/// A list that starts with `a` and goes on with `t`.
fn prepend<'a>(a: &'a str, t: &Vec<&'a str>) -> (r: Vec<&'a str>)
    ensures
        r@ == seq![a] + t@,
{
    let mut v: Vec<&str> = Vec::new();
    v.push(a);
    let mut i: usize = 0;
    while i < t.len()
        invariant
            i <= t@.len(),
            v@ == seq![a] + t@.take(i as int),
        decreases t@.len() - i,
    {
        v.push(t[i]);
        i = i + 1;
        assert(v@ =~= seq![a] + t@.take(i as int));
    }
    assert(t@.take(i as int) =~= t@);
    v
}

/// The cartesian product of `lists[i..]`.
fn product<'a>(lists: &Vec<Vec<&'a str>>, i: usize) -> (r: Vec<Vec<&'a str>>)
    requires
        i <= lists@.len(),
    ensures
        vec_views(r@) == prod(vec_views(lists@).skip(i as int)),
        forall|m: int|
            0 <= m < r@.len() ==> (#[trigger] r@[m])@.len() == lists@.len() - i && forall|j: int|
                0 <= j < r@[m]@.len() ==> lists@[i + j]@.contains(r@[m]@[j]),
    decreases lists@.len() - i,
{
    if i == lists.len() {
        let mut res: Vec<Vec<&str>> = Vec::new();
        res.push(Vec::new());
        assert(vec_views(lists@).skip(i as int) =~= Seq::<Seq<&str>>::empty());
        assert(vec_views(res@) =~= seq![Seq::<&str>::empty()]);
        return res;
    }
    let rest = product(lists, i + 1);
    let heads = &lists[i];
    let ghost vr = vec_views(rest@);
    let ghost hs = heads@;
    proof {
        assert(vec_views(lists@).skip(i as int).drop_first() =~= vec_views(lists@).skip(i + 1));
        assert(vec_views(lists@).skip(i as int)[0] == hs);
    }
    let mut res: Vec<Vec<&str>> = Vec::new();
    let mut a: usize = 0;
    while a < heads.len()
        invariant
            hs == heads@,
            vr == vec_views(rest@),
            i < lists@.len(),
            lists@[i as int]@ == hs,
            a <= hs.len(),
            vec_views(res@) == cross(hs.take(a as int), vr),
            forall|m: int|
                0 <= m < rest@.len() ==> (#[trigger] rest@[m])@.len() == lists@.len() - (i + 1)
                    && forall|j: int|
                    0 <= j < rest@[m]@.len() ==> lists@[i + 1 + j]@.contains(rest@[m]@[j]),
            forall|m: int|
                0 <= m < res@.len() ==> (#[trigger] res@[m])@.len() == lists@.len() - i && forall|j: int|
                    0 <= j < res@[m]@.len() ==> lists@[i + j]@.contains(res@[m]@[j]),
        decreases hs.len() - a,
    {
        let mut t: usize = 0;
        while t < rest.len()
            invariant
                hs == heads@,
                vr == vec_views(rest@),
                i < lists@.len(),
                lists@[i as int]@ == hs,
                a < hs.len(),
                t <= rest@.len(),
                vec_views(res@) == cross(hs.take(a as int), vr) + prepend_all(hs[a as int], vr.take(t as int)),
                forall|m: int|
                    0 <= m < rest@.len() ==> (#[trigger] rest@[m])@.len() == lists@.len() - (i + 1)
                        && forall|j: int|
                        0 <= j < rest@[m]@.len() ==> lists@[i + 1 + j]@.contains(rest@[m]@[j]),
                forall|m: int|
                    0 <= m < res@.len() ==> (#[trigger] res@[m])@.len() == lists@.len() - i && forall|j: int|
                        0 <= j < res@[m]@.len() ==> lists@[i + j]@.contains(res@[m]@[j]),
            decreases rest@.len() - t,
        {
            let v = prepend(heads[a], &rest[t]);
            let ghost old_res = res@;
            res.push(v);
            proof {
                assert(vec_views(res@) =~= vec_views(old_res).push(v@));
                assert(prepend_all(hs[a as int], vr.take(t + 1)) =~= prepend_all(
                    hs[a as int],
                    vr.take(t as int),
                ).push(seq![hs[a as int]] + vr[t as int]));
                assert forall|m: int|
                    0 <= m < res@.len() implies (#[trigger] res@[m])@.len() == lists@.len() - i
                    && forall|j: int|
                    0 <= j < res@[m]@.len() ==> lists@[i + j]@.contains(res@[m]@[j]) by {
                    if m == res@.len() - 1 {
                        assert(res@[m] == v);
                        assert forall|j: int| 0 <= j < v@.len() implies lists@[i + j]@.contains(
                            v@[j],
                        ) by {
                            if j == 0 {
                                assert(v@[0] == hs[a as int]);
                                assert(hs[a as int] == lists@[i as int]@[a as int]);
                            } else {
                                assert(v@[j] == rest@[t as int]@[j - 1]);
                                assert(lists@[i + 1 + (j - 1)]@.contains(rest@[t as int]@[j - 1]));
                            }
                        }
                    } else {
                        assert(res@[m] == old_res[m]);
                    }
                }
            }
            t = t + 1;
        }
        proof {
            assert(vr.take(rest@.len() as int) =~= vr);
            assert(hs.take(a + 1).drop_last() =~= hs.take(a as int));
        }
        a = a + 1;
    }
    assert(hs.take(hs.len() as int) =~= hs);
    res
}

/// For each card of the `p`th straight, the cards of its kind.
fn pattern_cards<'a>(cards: &Vec<&'a str>, p: u8) -> (r: Vec<Vec<&'a str>>)
    requires
        p < 10,
    ensures
        vec_views(r@) == pattern_lists(cards@, p as int),
        r@.len() == 5,
{
    let mut lists: Vec<Vec<&str>> = Vec::new();
    let mut j: u8 = 0;
    while j < 5
        invariant
            p < 10,
            j <= 5,
            lists@.len() == j,
            forall|jj: int| 0 <= jj < j ==> (#[trigger] lists@[jj])@ == of_kind(cards@, straight_order(p as int, jj)),
        decreases 5 - j,
    {
        let o: u8 = if p < 9 {
            14 - p - j
        } else if j < 4 {
            5 - j
        } else {
            14
        };
        let mut v: Vec<&str> = Vec::new();
        push_kind(&mut v, cards, o);
        assert(v@ =~= of_kind(cards@, straight_order(p as int, j as int)));
        lists.push(v);
        j = j + 1;
    }
    assert(vec_views(lists@) =~= pattern_lists(cards@, p as int));
    lists
}

/// Find all straights in cards sorted by kind: for each possible straight,
/// from ace-high down to five-high, every choice of cards of its kinds.
pub fn find_straights<'a>(cards: &Vec<&'a str>) -> (r: (bool, Vec<Vec<&'a str>>))
    requires
        valid_cards(cards@),
    ensures
        vec_views(r.1@) == straights_upto(cards@, 10),
        r.0 == (r.1@.len() > 0),
        forall|m: int|
            0 <= m < r.1@.len() ==> (#[trigger] r.1@[m])@.len() == 5 && distinct_kinds(r.1@[m]@)
                && valid_cards(r.1@[m]@),
{
    let mut results: Vec<Vec<&str>> = Vec::new();
    let mut p: u8 = 0;
    while p < 10
        invariant
            p <= 10,
            vec_views(results@) == straights_upto(cards@, p as int),
            forall|m: int|
                0 <= m < results@.len() ==> (#[trigger] results@[m])@.len() == 5 && distinct_kinds(
                    results@[m]@,
                ) && valid_cards(results@[m]@),
            valid_cards(cards@),
        decreases 10 - p,
    {
        let lists = pattern_cards(cards, p);
        let mut prods = product(&lists, 0);
        proof {
            assert(vec_views(lists@).skip(0) =~= vec_views(lists@));
            assert forall|m: int| 0 <= m < prods@.len() implies (#[trigger] prods@[m])@.len() == 5
                && distinct_kinds(prods@[m]@) && valid_cards(prods@[m]@) by {
                let t = prods@[m]@;
                assert forall|j: int| 0 <= j < 5 implies kind_of(#[trigger] t[j]@) == straight_order(
                    p as int,
                    j,
                ) && valid_card(t[j]@) by {
                    assert(lists@[0 + j]@.contains(t[j]));
                    assert(lists@[j]@ == vec_views(lists@)[j]);
                    let f = of_kind(cards@, straight_order(p as int, j));
                    let idx = choose|idx: int| 0 <= idx < f.len() && f[idx] == t[j];
                    cards@.lemma_filter_pred(kind_pred(straight_order(p as int, j)), idx);
                    lemma_of_kind_within(cards@, straight_order(p as int, j));
                    assert(cards@.contains(f[idx]));
                    let ci = choose|ci: int| 0 <= ci < cards@.len() && cards@[ci] == f[idx];
                    assert(valid_card(cards@[ci]@));
                }
            }
        }
        let ghost old_results = results@;
        let ghost old_prods = prods@;
        results.append(&mut prods);
        proof {
            assert(vec_views(results@) =~= vec_views(old_results) + vec_views(old_prods));
        }
        p = p + 1;
    }
    let has = results.len() > 0;
    (has, results)
}

// ------------------------------------------------------------------
// Lemmas on the sorted cards
// ------------------------------------------------------------------

/// Every element of `t` is an element of `s`.
pub open spec fn within(t: Seq<&str>, s: Seq<&str>) -> bool {
    forall|i: int| 0 <= i < t.len() ==> s.contains(#[trigger] t[i])
}

proof fn lemma_of_kind_within(s: Seq<&str>, k: int)
    ensures
        within(of_kind(s, k), s),
{
    assert forall|i: int| 0 <= i < of_kind(s, k).len() implies s.contains(#[trigger] of_kind(s, k)[i]) by {
        assert(of_kind(s, k).contains(of_kind(s, k)[i]));
        s.lemma_filter_contains_rev(kind_pred(k), of_kind(s, k)[i]);
    }
}

proof fn lemma_within_add(a: Seq<&str>, b: Seq<&str>, s: Seq<&str>)
    requires
        within(a, s),
        within(b, s),
    ensures
        within(a + b, s),
{
    assert forall|i: int| 0 <= i < (a + b).len() implies s.contains(#[trigger] (a + b)[i]) by {
        if i < a.len() {
            assert((a + b)[i] == a[i]);
        } else {
            assert((a + b)[i] == b[i - a.len()]);
        }
    }
}

pub(crate) proof fn lemma_kinds_from_within(s: Seq<&str>, lo: int)
    ensures
        within(kinds_from(s, lo), s),
    decreases 15 - lo,
{
    if lo < 15 {
        lemma_kinds_from_within(s, lo + 1);
        lemma_of_kind_within(s, lo);
        lemma_within_add(kinds_from(s, lo + 1), of_kind(s, lo), s);
    }
}

proof fn lemma_groups_within(s: Seq<&str>, n: int, lo: int)
    ensures
        within(groups_of_size(s, n, lo), s),
    decreases 15 - lo,
{
    if lo < 15 {
        lemma_groups_within(s, n, lo + 1);
        lemma_of_kind_within(s, lo);
        let part = if of_kind(s, lo).len() == n {
            of_kind(s, lo)
        } else {
            Seq::empty()
        };
        lemma_within_add(groups_of_size(s, n, lo + 1), part, s);
    }
}

proof fn lemma_sized_within(s: Seq<&str>, n: int)
    ensures
        within(sized_from(s, n), s),
    decreases s.len() + 1 - n,
{
    if n <= s.len() {
        lemma_sized_within(s, n + 1);
        lemma_groups_within(s, n, 0);
        lemma_within_add(sized_from(s, n + 1), groups_of_size(s, n, 0), s);
    }
}

pub proof fn lemma_within_valid(t: Seq<&str>, s: Seq<&str>)
    requires
        within(t, s),
        valid_cards(s),
    ensures
        valid_cards(t),
{
    assert forall|i: int| 0 <= i < t.len() implies valid_card(#[trigger] t[i]@) by {
        assert(s.contains(t[i]));
        let j = choose|j: int| 0 <= j < s.len() && s[j] == t[i];
        assert(valid_card(s[j]@));
    }
}

/// The number of cards of kind order at least `lo`.
pub open spec fn sum_counts(s: Seq<&str>, lo: int) -> int
    decreases 15 - lo,
{
    if lo >= 15 {
        0
    } else {
        sum_counts(s, lo + 1) + of_kind(s, lo).len()
    }
}

/// The number of cards in groups of equal kinds of at least `n` cards, for kinds at least `lo`.
pub open spec fn weight(s: Seq<&str>, n: int, lo: int) -> int
    decreases 15 - lo,
{
    if lo >= 15 {
        0
    } else {
        weight(s, n, lo + 1) + (if of_kind(s, lo).len() >= n {
            of_kind(s, lo).len() as int
        } else {
            0
        })
    }
}

/// The number of cards in groups of exactly `n` cards, for kinds at least `lo`.
pub open spec fn eq_weight(s: Seq<&str>, n: int, lo: int) -> int
    decreases 15 - lo,
{
    if lo >= 15 {
        0
    } else {
        eq_weight(s, n, lo + 1) + (if of_kind(s, lo).len() == n {
            of_kind(s, lo).len() as int
        } else {
            0
        })
    }
}

proof fn lemma_kinds_from_len(s: Seq<&str>, lo: int)
    ensures
        kinds_from(s, lo).len() == sum_counts(s, lo),
    decreases 15 - lo,
{
    if lo < 15 {
        lemma_kinds_from_len(s, lo + 1);
    }
}

proof fn lemma_groups_len(s: Seq<&str>, n: int, lo: int)
    ensures
        groups_of_size(s, n, lo).len() == eq_weight(s, n, lo),
    decreases 15 - lo,
{
    if lo < 15 {
        lemma_groups_len(s, n, lo + 1);
    }
}

proof fn lemma_weight_split(s: Seq<&str>, n: int, lo: int)
    ensures
        weight(s, n, lo) == eq_weight(s, n, lo) + weight(s, n + 1, lo),
    decreases 15 - lo,
{
    if lo < 15 {
        lemma_weight_split(s, n, lo + 1);
    }
}

proof fn lemma_weight_zero(s: Seq<&str>, n: int, lo: int)
    requires
        n > s.len(),
    ensures
        weight(s, n, lo) == 0,
    decreases 15 - lo,
{
    if lo < 15 {
        lemma_weight_zero(s, n, lo + 1);
        s.lemma_filter_len(kind_pred(lo));
    }
}

proof fn lemma_sized_len(s: Seq<&str>, n: int)
    ensures
        sized_from(s, n).len() == weight(s, n, 0),
    decreases s.len() + 1 - n,
{
    if n > s.len() {
        lemma_weight_zero(s, n, 0);
    } else {
        lemma_sized_len(s, n + 1);
        lemma_groups_len(s, n, 0);
        lemma_weight_split(s, n, 0);
    }
}

proof fn lemma_weight_one(s: Seq<&str>, lo: int)
    ensures
        weight(s, 1, lo) == sum_counts(s, lo),
    decreases 15 - lo,
{
    if lo < 15 {
        lemma_weight_one(s, lo + 1);
    }
}

proof fn lemma_sum_counts_push(s: Seq<&str>, x: &str, lo: int)
    requires
        0 <= lo,
    ensures
        sum_counts(s.push(x), lo) == sum_counts(s, lo) + (if lo <= kind_of(x@) {
            1int
        } else {
            0
        }),
    decreases 15 - lo,
{
    if lo < 15 {
        lemma_sum_counts_push(s, x, lo + 1);
        s.lemma_filter_push(x, kind_pred(lo));
    } else {
        assert(kind_of(x@) <= 14);
    }
}

proof fn lemma_sum_counts(s: Seq<&str>)
    ensures
        sum_counts(s, 0) == s.len(),
    decreases s.len(),
{
    if s.len() == 0 {
        lemma_sum_counts_empty(s, 0);
    } else {
        lemma_sum_counts(s.drop_last());
        lemma_sum_counts_push(s.drop_last(), s.last(), 0);
        assert(s.drop_last().push(s.last()) =~= s);
    }
}

proof fn lemma_sum_counts_empty(s: Seq<&str>, lo: int)
    requires
        s.len() == 0,
    ensures
        sum_counts(s, lo) == 0,
    decreases 15 - lo,
{
    if lo < 15 {
        lemma_sum_counts_empty(s, lo + 1);
        s.lemma_filter_len(kind_pred(lo));
    }
}

/// Sorting by kind and sorting by groups keep the cards and their number.
pub proof fn lemma_sorted_cards(s: Seq<&str>)
    ensures
        sort_by_kind(s).len() == s.len(),
        sort_by_group(s).len() == s.len(),
        within(sort_by_kind(s), s),
        within(sort_by_group(s), s),
{
    lemma_sum_counts(s);
    lemma_kinds_from_len(s, 0);
    lemma_sized_len(s, 1);
    lemma_weight_one(s, 0);
    lemma_kinds_from_within(s, 0);
    lemma_sized_within(s, 1);
}

// ------------------------------------------------------------------
// Flushes and the evaluation of a hand
// ------------------------------------------------------------------

fn suit_char_of(i: usize) -> (r: char)
    ensures
        r == suit_char(i as int),
{
    if i == 0 {
        'c'
    } else if i == 1 {
        'd'
    } else if i == 2 {
        'h'
    } else {
        's'
    }
}

fn royal_kind_of(j: usize) -> (r: char)
    ensures
        r == royal_kind(j as int),
{
    if j == 0 {
        'a'
    } else if j == 1 {
        'k'
    } else if j == 2 {
        'q'
    } else if j == 3 {
        'j'
    } else {
        't'
    }
}

/// The first of the first 7 cards that is the card of this suit and kind.
fn find_card<'a>(cards: &Vec<&'a str>, suit: char, kind: char) -> (r: Option<&'a str>)
    requires
        cards@.len() >= 7,
    ensures
        r is Some ==> r->0@ == seq![suit, kind] && has_card(cards@.take(7), seq![suit, kind]),
        r is None ==> !has_card(cards@.take(7), seq![suit, kind]),
{
    let mut i: usize = 0;
    while i < 7
        invariant
            cards@.len() >= 7,
            i <= 7,
            forall|ii: int| 0 <= ii < i ==> cards@[ii]@ != seq![suit, kind],
        decreases 7 - i,
    {
        let c = cards[i];
        if c.unicode_len() == 2 && c.get_char(0) == suit && c.get_char(1) == kind {
            assert(c@ =~= seq![suit, kind]);
            assert(cards@.take(7)[i as int] == c);
            return Some(c);
        }
        assert(c@ != seq![suit, kind]) by {
            if c@ == seq![suit, kind] {
                assert(c@.len() == 2);
                assert(c@[0] == suit);
                assert(c@[1] == kind);
            }
        }
        i = i + 1;
    }
    assert forall|ii: int| 0 <= ii < 7 implies cards@.take(7)[ii]@ != seq![suit, kind] by {
        assert(cards@.take(7)[ii] == cards@[ii]);
    }
    None
}

/// The royal flush of a suit, if the first 7 cards hold it.
fn royal_of_suit<'a>(cards: &Vec<&'a str>, suit: char) -> (r: Option<Vec<&'a str>>)
    requires
        cards@.len() >= 7,
    ensures
        r is Some <==> has_royal(cards@, suit),
        r is Some ==> views(r->0@) == royal_cards(suit),
{
    let mut hit: Vec<&str> = Vec::new();
    let mut j: usize = 0;
    while j < 5
        invariant
            cards@.len() >= 7,
            j <= 5,
            hit@.len() == j,
            forall|jj: int| 0 <= jj < j ==> (#[trigger] hit@[jj])@ == royal_card(suit, jj),
            forall|jj: int| 0 <= jj < j ==> has_card(cards@.take(7), #[trigger] royal_card(suit, jj)),
        decreases 5 - j,
    {
        let kind = royal_kind_of(j);
        match find_card(cards, suit, kind) {
            Some(c) => {
                assert(c@ == royal_card(suit, j as int));
                hit.push(c);
            },
            None => {
                assert(!has_card(cards@.take(7), royal_card(suit, j as int)));
                return None;
            },
        }
        j = j + 1;
    }
    assert(views(hit@) =~= royal_cards(suit));
    Some(hit)
}

/// Search for a royal flush among the first 7 cards, suits tried in the
/// order club, diamond, heart, spade.  Returns its cards from ace to ten.
pub fn find_royal_flush<'a>(cards: &Vec<&'a str>) -> (r: (bool, Vec<&'a str>))
    requires
        cards@.len() >= 7,
    ensures
        r.0 == (royal_suit_from(cards@, 0) >= 0),
        r.0 ==> views(r.1@) == royal_cards(suit_char(royal_suit_from(cards@, 0))),
        !r.0 ==> r.1@.len() == 0,
{
    let mut si: usize = 0;
    while si < 4
        invariant
            cards@.len() >= 7,
            si <= 4,
            royal_suit_from(cards@, 0) == royal_suit_from(cards@, si as int),
        decreases 4 - si,
    {
        let suit = suit_char_of(si);
        match royal_of_suit(cards, suit) {
            Some(hit) => {
                return (true, hit);
            },
            None => {},
        }
        si = si + 1;
    }
    (false, Vec::new())
}

/// Whether a card equal to `c` is in the flush.
fn in_flush_cards(flush: &Vec<&str>, c: &str) -> (r: bool)
    ensures
        r == in_flush(flush@, c),
{
    let mut i: usize = 0;
    while i < flush.len()
        invariant
            i <= flush@.len(),
            forall|ii: int| 0 <= ii < i ==> flush@[ii]@ != c@,
        decreases flush@.len() - i,
    {
        if str_eq(flush[i], c) {
            return true;
        }
        i = i + 1;
    }
    false
}

/// Whether the string holds the character.
fn contains_char(s: &str, ch: char) -> (r: bool)
    ensures
        r == s@.contains(ch),
{
    let n = s.unicode_len();
    let mut i: usize = 0;
    while i < n
        invariant
            n == s@.len(),
            i <= n,
            forall|ii: int| 0 <= ii < i ==> s@[ii] != ch,
        decreases n - i,
    {
        if s.get_char(i) == ch {
            return true;
        }
        i = i + 1;
    }
    false
}

/// Search for the straight flushes among the straights: those whose cards
/// are all in the flush, sorted by kind, an ace that leads them moved to the end.
pub fn find_straight_flush<'a>(flush: &Vec<&str>, straights: &Vec<Vec<&'a str>>) -> (r: Vec<
    Vec<&'a str>,
>)
    requires
        forall|m: int|
            0 <= m < straights@.len() ==> (#[trigger] straights@[m])@.len() == 5 && distinct_kinds(
                straights@[m]@,
            ) && valid_cards(straights@[m]@),
    ensures
        vec_views(r@) == straight_flushes(flush@, vec_views(straights@)),
{
    let mut result: Vec<Vec<&str>> = Vec::new();
    let mut m: usize = 0;
    while m < straights.len()
        invariant
            m <= straights@.len(),
            vec_views(result@) == straight_flushes(flush@, vec_views(straights@).take(m as int)),
        decreases straights@.len() - m,
    {
        let straight = &straights[m];
        proof {
            assert(vec_views(straights@).take(m + 1).drop_last() =~= vec_views(straights@).take(
                m as int,
            ));
            assert(vec_views(straights@).take(m + 1).last() == straight@);
        }
        let mut all_in = true;
        let mut j: usize = 0;
        while j < straight.len()
            invariant
                j <= straight@.len(),
                all_in == (forall|jj: int| 0 <= jj < j ==> in_flush(flush@, #[trigger] straight@[jj])),
            decreases straight@.len() - j,
        {
            let found = in_flush_cards(flush, straight[j]);
            all_in = all_in && found;
            j = j + 1;
        }
        if all_in {
            let mut hit = sort_cards_by_kind(straight);
            proof {
                lemma_sorted_cards(straight@);
            }
            if hit.len() > 0 && contains_char(hit[0], 'a') {
                let ghost h = hit@;
                let ace = hit.remove(0);
                hit.push(ace);
                assert(hit@ =~= h.drop_first().push(h[0]));
            }
            let ghost old_result = result@;
            result.push(hit);
            assert(vec_views(result@) =~= vec_views(old_result).push(hit@));
        }
        m = m + 1;
    }
    assert(vec_views(straights@).take(straights@.len() as int) =~= vec_views(straights@));
    result
}

/// The kind part of a card (the card itself when it is empty).
fn kind_part<'a>(c: &'a str) -> (r: &'a str)
    ensures
        r@ == kind_str(c@),
{
    let n = c.unicode_len();
    if n >= 1 {
        c.substring_char(1, n)
    } else {
        c
    }
}

/// The kind parts of cards.
fn kind_parts<'a>(cards: &Vec<&'a str>) -> (r: Vec<&'a str>)
    ensures
        views(r@) == cards@.map_values(|c: &str| kind_str(c@)),
        r@.len() == cards@.len(),
{
    let mut res: Vec<&str> = Vec::new();
    let mut i: usize = 0;
    while i < cards.len()
        invariant
            i <= cards@.len(),
            res@.len() == i,
            forall|ii: int| 0 <= ii < i ==> (#[trigger] res@[ii])@ == kind_str(cards@[ii]@),
        decreases cards@.len() - i,
    {
        res.push(kind_part(cards[i]));
        i = i + 1;
    }
    assert(views(res@) =~= cards@.map_values(|c: &str| kind_str(c@)));
    res
}

/// The first `n` cards.
fn take_cards<'a>(v: &Vec<&'a str>, n: usize) -> (r: Vec<&'a str>)
    requires
        n <= v@.len(),
    ensures
        r@ == v@.take(n as int),
{
    let mut res: Vec<&str> = Vec::new();
    let mut i: usize = 0;
    while i < n
        invariant
            n <= v@.len(),
            i <= n,
            res@ == v@.take(i as int),
        decreases n - i,
    {
        res.push(v[i]);
        i = i + 1;
        assert(res@ =~= v@.take(i as int));
    }
    res
}

/// The cards from the `n`th on.
fn skip_cards<'a>(v: &Vec<&'a str>, n: usize) -> (r: Vec<&'a str>)
    requires
        n <= v@.len(),
    ensures
        r@ == v@.skip(n as int),
{
    let mut res: Vec<&str> = Vec::new();
    let mut i: usize = n;
    while i < v.len()
        invariant
            n <= i <= v@.len(),
            res@ == v@.subrange(n as int, i as int),
        decreases v@.len() - i,
    {
        res.push(v[i]);
        i = i + 1;
        assert(res@ =~= v@.subrange(n as int, i as int));
    }
    assert(v@.subrange(n as int, v@.len() as int) =~= v@.skip(n as int));
    res
}

/// A hand of the given category and picks.
pub(crate) fn make_hand(category: Category, order: u8, picks: &Vec<&str>) -> (r: PlayerHand)
    requires
        order == category_order(category),
    ensures
        r.category == category,
        string_views(r.picks@) == views(picks@),
        r.value@ == seq![category_order(category)] + view_orders(views(picks@)),
{
    let value = tag_value(picks, order);
    assert(kind_orders(picks@) =~= view_orders(views(picks@)));
    let mut strings: Vec<String> = Vec::new();
    let mut i: usize = 0;
    while i < picks.len()
        invariant
            i <= picks@.len(),
            strings@.len() == i,
            forall|ii: int| 0 <= ii < i ==> (#[trigger] strings@[ii])@ == picks@[ii]@,
        decreases picks@.len() - i,
    {
        strings.push(picks[i].to_owned());
        i = i + 1;
    }
    assert(string_views(strings@) =~= views(picks@));
    PlayerHand { category, picks: strings, value }
}

/// Evaluate 7 or more cards (in any order): the category, the best 5 cards and the
/// hand's value, by which hands are compared.
pub fn evaluate_cards(cards: Vec<&str>) -> (r: PlayerHand)
    requires
        cards@.len() >= 7,
        valid_cards(cards@),
    ensures
        r.category == hand_of(cards@).0,
        string_views(r.picks@) == hand_of(cards@).1,
        r.value@ == seq![category_order(r.category)] + view_orders(hand_of(cards@).1),
{
    let ghost s = cards@;
    let sorted_by_group = sort_suited_cards(&cards);
    proof {
        lemma_sorted_cards(s);
        lemma_within_valid(sort_by_group(s), s);
        lemma_within_valid(sort_by_kind(s), s);
    }
    let sorted_kinds = kind_parts(&sorted_by_group);
    let ghost gk = sort_by_group(s).map_values(|c: &str| kind_str(c@));
    assert(views(sorted_kinds@) == gk);
    assert forall|c: Category| same_kinds_len(c) <= 5 implies same_kinds(sorted_kinds@, c)
        == kinds_match(gk, c) by {
        assert(forall|i: int| 0 <= i < 7 ==> (#[trigger] sorted_kinds@[i])@ == gk[i]);
    }
    let (has_royal, rflush) = find_royal_flush(&cards);
    let (has_flush, flush_cards) = find_flush(&cards);
    let sorted_cards = sort_cards_by_kind(&cards);
    let (has_straights, straights) = find_straights(&sorted_cards);
    let sflush = find_straight_flush(&flush_cards, &straights);
    proof {
        assert(vec_views(straights@) == straights_upto(sort_by_kind(s), 10));
    }
    if has_royal {
        make_hand(Category::RoyalFlush, 9, &rflush)
    } else if sflush.len() > 0 {
        assert(vec_views(sflush@)[0] == sflush@[0]@);
        make_hand(Category::StraightFlush, 8, &sflush[0])
    } else if check_same_kinds(&sorted_kinds, Category::FourOfAKind) {
        let mut picks = take_cards(&sorted_by_group, 4);
        let rest = skip_cards(&sorted_by_group, 4);
        proof {
            assert(within(rest@, sort_by_group(s))) by {
                assert forall|i: int| 0 <= i < rest@.len() implies sort_by_group(s).contains(
                    #[trigger] rest@[i],
                ) by {
                    assert(rest@[i] == sort_by_group(s)[i + 4]);
                }
            }
            lemma_within_valid(rest@, sort_by_group(s));
        }
        let kicker = find_kicker(rest.as_slice());
        picks.push(kicker);
        make_hand(Category::FourOfAKind, 7, &picks)
    } else if check_same_kinds(&sorted_kinds, Category::FullHouse) {
        let picks = take_cards(&sorted_by_group, 5);
        make_hand(Category::FullHouse, 6, &picks)
    } else if has_flush {
        proof {
            let i = first_flush_from(s, 0);
            lemma_first_flush(s, 0);
            lemma_sorted_cards(of_suit(s, s[i]@[0]));
        }
        let picks = take_cards(&flush_cards, 5);
        make_hand(Category::Flush, 5, &picks)
    } else if has_straights {
        assert(vec_views(straights@)[0] == straights@[0]@);
        make_hand(Category::Straight, 4, &straights[0])
    } else if check_same_kinds(&sorted_kinds, Category::ThreeOfAKind) {
        let picks = take_cards(&sorted_by_group, 5);
        make_hand(Category::ThreeOfAKind, 3, &picks)
    } else if check_same_kinds(&sorted_kinds, Category::TwoPairs) {
        let mut picks = take_cards(&sorted_by_group, 4);
        let rest = skip_cards(&sorted_by_group, 4);
        proof {
            assert(within(rest@, sort_by_group(s))) by {
                assert forall|i: int| 0 <= i < rest@.len() implies sort_by_group(s).contains(
                    #[trigger] rest@[i],
                ) by {
                    assert(rest@[i] == sort_by_group(s)[i + 4]);
                }
            }
            lemma_within_valid(rest@, sort_by_group(s));
        }
        let kicker = find_kicker(rest.as_slice());
        picks.push(kicker);
        make_hand(Category::TwoPairs, 2, &picks)
    } else if check_same_kinds(&sorted_kinds, Category::Pair) {
        let picks = take_cards(&sorted_by_group, 5);
        make_hand(Category::Pair, 1, &picks)
    } else {
        let picks = take_cards(&sorted_by_group, 5);
        make_hand(Category::HighCard, 0, &picks)
    }
}

/// The flush index found from `i` is a card whose suit has at least 5 cards.
proof fn lemma_first_flush(s: Seq<&str>, i: int)
    requires
        first_flush_from(s, i) >= 0,
    ensures
        0 <= first_flush_from(s, i) < s.len(),
        of_suit(s, s[first_flush_from(s, i)]@[0]).len() >= 5,
    decreases s.len() - i,
{
    if i >= 0 && i < s.len() && of_suit(s, s[i]@[0]).len() < 5 {
        lemma_first_flush(s, i + 1);
    }
}

} // verus!
