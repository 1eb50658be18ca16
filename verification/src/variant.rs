//! The poker variants: Texas Hold'em (no limit) and Omaha (pot limit).
//! Each evaluates the hands at a showdown and checks the size of bets and
//! raises.

use std::collections::BTreeMap;
use vstd::prelude::*;
use crate::errors::GameError;
use crate::essential::{pot_views, pots_total, Pot};
use crate::hand_history::Showdown;
use crate::holdem_evaluator::{create_cards, evaluate_cards, string_views, valid_card, valid_cards, views};
use crate::card_views::{lemma_omaha_hand, lemma_seven_card_hand, omaha_hand, seven_card_hand, seven_card_value};
use crate::keys::key_seq;
use crate::omaha_evaluator::evaluate_omaha_hand;
use crate::showdown::{cards_ok, hand_views, rank_hands, rank_player_hands, rank_tiers, tiers};

verus! {

broadcast use vstd::std_specs::btree::group_btree_axioms;

/// What evaluating the hands of a showdown gives: the sets of winners from
/// the strongest hands down, and what each player shows.
#[derive(Debug)]
pub struct EvaluateHandsOutput {
    pub winner_sets: Vec<Vec<u64>>,
    pub showdown_map: BTreeMap<u64, Showdown>,
}

/// Texas Hold'em, no limit.
#[derive(Debug, Clone, Copy, PartialEq, Eq, Structural)]
pub struct HoldemVariant {}

/// Omaha, pot limit.
#[derive(Debug, Clone, Copy, PartialEq, Eq, Structural)]
pub struct OmahaVariant {}

/// The total of the pots.
fn sum_pots(pots: &Vec<Pot>) -> (r: Option<u64>)
    ensures
        pots_total(pot_views(pots@)) <= u64::MAX ==> r == Some(pots_total(pot_views(pots@)) as u64),
        pots_total(pot_views(pots@)) > u64::MAX ==> r is None,
{
    let ghost ps = pot_views(pots@);
    let mut total: u64 = 0;
    let mut i: usize = 0;
    while i < pots.len()
        invariant
            ps == pot_views(pots@),
            i <= ps.len(),
            total == pots_total(ps.take(i as int)),
        decreases ps.len() - i,
    {
        assert(ps.take(i + 1).drop_last() =~= ps.take(i as int));
        assert(ps.take(i + 1).last() == pots@[i as int]@);
        if pots[i].amount > u64::MAX - total {
            proof {
                lemma_total_prefix(ps, i + 1);
            }
            return None;
        }
        total = total + pots[i].amount;
        i = i + 1;
    }
    assert(ps.take(i as int) =~= ps);
    Some(total)
}

proof fn lemma_total_prefix(ps: Seq<crate::essential::PotView>, i: int)
    requires
        0 <= i <= ps.len(),
    ensures
        pots_total(ps.take(i)) <= pots_total(ps),
    decreases ps.len() - i,
{
    if i < ps.len() {
        assert(ps.take(i + 1).drop_last() =~= ps.take(i));
        lemma_total_prefix(ps, i + 1);
    } else {
        assert(ps.take(i) =~= ps);
    }
}

proof fn lemma_total_nonneg(ps: Seq<crate::essential::PotView>)
    ensures
        pots_total(ps) >= 0,
    decreases ps.len(),
{
    if ps.len() > 0 {
        lemma_total_nonneg(ps.drop_last());
    }
}

/// The strings as string slices.
fn as_strs(v: &Vec<String>) -> (r: Vec<&str>)
    ensures
        r@.len() == v@.len(),
        forall|i: int| 0 <= i < v@.len() ==> (#[trigger] r@[i])@ == v@[i]@,
{
    let mut out: Vec<&str> = Vec::new();
    let mut i: usize = 0;
    while i < v.len()
        invariant
            i <= v@.len(),
            out@.len() == i,
            forall|j: int| 0 <= j < i ==> (#[trigger] out@[j])@ == v@[j]@,
        decreases v@.len() - i,
    {
        out.push(v[i].as_str());
        i = i + 1;
    }
    out
}

/// Rank evaluated hands and group them into tiers of equal strength.
fn tiers_and_showdowns(hands: Vec<(u64, Vec<u8>)>, showdowns: Vec<(u64, Showdown)>) -> (r: EvaluateHandsOutput)
    requires
        forall|i: int, j: int| 0 <= i < j < showdowns@.len() ==> showdowns@[i].0 != showdowns@[j].0,
    ensures
        r.winner_sets@.map_values(|v: Vec<u64>| v@) == tiers(rank_hands(hand_views(hands@))),
        forall|id: u64|
            #[trigger] r.showdown_map@.contains_key(id) <==> exists|i: int| 0 <= i < showdowns@.len() && showdowns@[i].0 == id,
        forall|i: int| 0 <= i < showdowns@.len() ==> r.showdown_map@[#[trigger] showdowns@[i].0] == showdowns@[i].1,
{
    let ranked = rank_player_hands(hands);
    let winner_sets = rank_tiers(&ranked);
    let mut showdown_map: BTreeMap<u64, Showdown> = BTreeMap::new();
    let mut rest = showdowns;
    let ghost all = rest@;
    let mut k: usize = 0;
    let n = rest.len();
    while rest.len() > 0
        invariant
            k <= n,
            n == all.len(),
            rest@ == all.skip(k as int),
            forall|id: u64|
                #[trigger] showdown_map@.contains_key(id) <==> exists|i: int| 0 <= i < k && all[i].0 == id,
            forall|i: int, j: int| 0 <= i < j < all.len() ==> all[i].0 != all[j].0,
            forall|i: int| 0 <= i < k ==> showdown_map@[#[trigger] all[i].0] == all[i].1,
        decreases rest@.len(),
    {
        let ghost before = rest@;
        let (id, sd) = rest.remove(0);
        proof {
            assert(before[0] == all[k as int]);
            assert(rest@ =~= all.skip(k + 1));
        }
        showdown_map.insert(id, sd);
        proof {
            assert forall|x: u64| #[trigger] showdown_map@.contains_key(x) <==> exists|i: int| 0 <= i < k + 1 && all[i].0 == x by {
                if x == id {
                    assert(all[k as int].0 == x);
                }
            }
        }
        k = k + 1;
    }
    EvaluateHandsOutput { winner_sets, showdown_map }
}


/// The characters of hole card `j` of player `id`, if it is revealed.
pub open spec fn revealed_card(hm: Map<u64, Vec<usize>>, rv: Map<usize, String>, id: u64, j: int) -> Option<Seq<char>> {
    if rv.contains_key(hm[id]@[j]) {
        Some(rv[hm[id]@[j]]@)
    } else {
        None
    }
}

/// The seven cards of a Hold'em player at the showdown, the board followed
/// by the two hole cards, by their characters; or why there are none.
pub open spec fn holdem_cards(board: Seq<Seq<char>>, hm: Map<u64, Vec<usize>>, rv: Map<usize, String>, id: u64) -> Result<
    Seq<Seq<char>>,
    GameError,
> {
    match (revealed_card(hm, rv, id, 0), revealed_card(hm, rv, id, 1)) {
        (Some(c1), Some(c2)) => {
            let cards = board + seq![c1, c2];
            if cards.len() == 7 && forall|i: int| 0 <= i < 7 ==> valid_card(#[trigger] cards[i]) {
                Ok(cards)
            } else {
                Err(GameError::InvalidCards)
            }
        },
        _ => Err(GameError::HoleCardMissing),
    }
}

/// The hand values of the Hold'em players, in the order of their ids.
pub open spec fn holdem_hand_list(board: Seq<Seq<char>>, hm: Map<u64, Vec<usize>>, rv: Map<usize, String>) -> Seq<
    (u64, Seq<u8>),
> {
    key_seq(hm).map_values(|id: u64| (id, seven_card_value(holdem_cards(board, hm, rv, id)->Ok_0)))
}

/// What a showdown entry shows for seven cards: the two hole cards (the
/// last two), the category, and the picks.
pub open spec fn shows_hand(sd: Showdown, cards: Seq<Seq<char>>) -> bool {
    &&& string_views(sd.hole_cards@) == cards.subrange(5, 7)
    &&& sd.category == seven_card_hand(cards).0
    &&& string_views(sd.picks@) == seven_card_hand(cards).1
}

impl HoldemVariant {
    /// A player holds two hole cards.
    pub fn hole_card_count(&self) -> (r: usize)
        ensures
            r == 2,
    {
        2
    }

    /// Evaluate the hand of every player dealt cards (their two hole cards
    /// with the board), rank them, and group equal hands into tiers.
    pub fn evaluate_hands(
        &self,
        board: &Vec<String>,
        hand_index_map: &BTreeMap<u64, Vec<usize>>,
        revealed_cards: &BTreeMap<usize, String>,
    ) -> (r: Result<EvaluateHandsOutput, GameError>)
        requires
            forall|id: u64| #[trigger] hand_index_map@.contains_key(id) ==> hand_index_map@[id]@.len() >= 2,
        ensures
            ({
                let bd = string_views(board@);
                let hm = hand_index_map@;
                let rv = revealed_cards@;
                let ids = key_seq(hm);
                &&& r is Ok <==> forall|k: int| 0 <= k < ids.len() ==> (#[trigger] holdem_cards(bd, hm, rv, ids[k])) is Ok
                &&& r matches Err(e) ==> exists|k: int|
                    0 <= k < ids.len() && holdem_cards(bd, hm, rv, ids[k]) == Err::<Seq<Seq<char>>, GameError>(e)
                        && forall|j: int| 0 <= j < k ==> (#[trigger] holdem_cards(bd, hm, rv, ids[j])) is Ok
                &&& r matches Ok(out) ==> {
                    &&& out.winner_sets@.map_values(|v: Vec<u64>| v@) == tiers(rank_hands(holdem_hand_list(bd, hm, rv)))
                    &&& out.showdown_map@.dom() == hm.dom()
                    &&& forall|id: u64|
                        #[trigger] hm.contains_key(id) ==> shows_hand(
                            out.showdown_map@[id],
                            holdem_cards(bd, hm, rv, id)->Ok_0,
                        )
                }
            }),
    {
        let board_cards = as_strs(board);
        let ids = crate::keys::sorted_keys(hand_index_map);
        let ghost bd = string_views(board@);
        let ghost hm = hand_index_map@;
        let ghost rv = revealed_cards@;
        proof {
            assert(views(board_cards@) =~= bd);
        }
        let mut hands: Vec<(u64, Vec<u8>)> = Vec::new();
        let mut showdowns: Vec<(u64, Showdown)> = Vec::new();
        let mut i: usize = 0;
        while i < ids.len()
            invariant
                forall|id: u64| #[trigger] hm.contains_key(id) ==> hm[id]@.len() >= 2,
                hm == hand_index_map@,
                rv == revealed_cards@,
                bd == string_views(board@),
                views(board_cards@) == bd,
                ids@.to_set() == hm.dom(),
                ids@ == key_seq(hm),
                crate::keys::strictly_increasing(ids@),
                i <= ids@.len(),
                hands@.len() == i,
                showdowns@.len() == i,
                forall|k: int| 0 <= k < i ==> (#[trigger] holdem_cards(bd, hm, rv, ids@[k])) is Ok,
                forall|k: int|
                    0 <= k < i ==> (#[trigger] hands@[k]).0 == ids@[k] && hands@[k].1@ == seven_card_value(
                        holdem_cards(bd, hm, rv, ids@[k])->Ok_0,
                    ),
                forall|k: int|
                    0 <= k < i ==> (#[trigger] showdowns@[k]).0 == ids@[k] && shows_hand(
                        showdowns@[k].1,
                        holdem_cards(bd, hm, rv, ids@[k])->Ok_0,
                    ),
            decreases ids@.len() - i,
        {
            let id = ids[i];
            assert(ids@.to_set().contains(id));
            let indices = match hand_index_map.get(&id) {
                Some(v) => v,
                None => {
                    return Err(GameError::InvalidHoleCardsNumber);
                },
            };
            let card1 = match revealed_cards.get(&indices[0]) {
                Some(c) => c,
                None => {
                    assert(holdem_cards(bd, hm, rv, ids@[i as int]) == Err::<Seq<Seq<char>>, GameError>(GameError::HoleCardMissing));
                    return Err(GameError::HoleCardMissing);
                },
            };
            let card2 = match revealed_cards.get(&indices[1]) {
                Some(c) => c,
                None => {
                    assert(holdem_cards(bd, hm, rv, ids@[i as int]) == Err::<Seq<Seq<char>>, GameError>(GameError::HoleCardMissing));
                    return Err(GameError::HoleCardMissing);
                },
            };
            let mut hole: Vec<&str> = Vec::new();
            hole.push(card1.as_str());
            hole.push(card2.as_str());
            let all_cards = create_cards(board_cards.as_slice(), hole.as_slice());
            let ghost cv = bd + seq![card1@, card2@];
            proof {
                crate::card_views::lemma_views_add(board_cards@, hole@);
                assert(views(hole@) =~= seq![card1@, card2@]);
                assert(views(all_cards@) == cv);
                assert(all_cards@.len() == views(all_cards@).len());
                if valid_cards(all_cards@) {
                    assert forall|j: int| 0 <= j < cv.len() implies valid_card(#[trigger] cv[j]) by {
                        assert(views(all_cards@)[j] == all_cards@[j]@);
                        assert(valid_card(all_cards@[j]@));
                    }
                }
                if forall|j: int| 0 <= j < cv.len() ==> valid_card(#[trigger] cv[j]) {
                    assert forall|j: int| 0 <= j < all_cards@.len() implies valid_card(#[trigger] all_cards@[j]@) by {
                        assert(views(all_cards@)[j] == all_cards@[j]@);
                        assert(valid_card(cv[j]));
                    }
                }
                assert(valid_cards(all_cards@) <==> forall|j: int| 0 <= j < cv.len() ==> valid_card(#[trigger] cv[j]));
            }
            if all_cards.len() != 7 || !cards_ok(&all_cards) {
                assert(holdem_cards(bd, hm, rv, ids@[i as int]) == Err::<Seq<Seq<char>>, GameError>(GameError::InvalidCards));
                return Err(GameError::InvalidCards);
            }
            assert(holdem_cards(bd, hm, rv, ids@[i as int]) == Ok::<Seq<Seq<char>>, GameError>(cv));
            proof {
                lemma_seven_card_hand(all_cards@);
            }
            let hand = evaluate_cards(all_cards);
            let mut hole_cards: Vec<String> = Vec::new();
            hole_cards.push(card1.clone());
            hole_cards.push(card2.clone());
            proof {
                assert(string_views(hole_cards@) =~= cv.subrange(5, 7));
            }
            hands.push((id, hand.value));
            showdowns.push((id, Showdown { hole_cards, category: hand.category, picks: hand.picks }));
            i = i + 1;
        }
        let ghost hs = hands@;
        let ghost sds = showdowns@;
        proof {
            assert(hand_views(hs) =~= holdem_hand_list(bd, hm, rv));
        }
        let out = tiers_and_showdowns(hands, showdowns);
        proof {
            assert(out.showdown_map@.dom() =~= hm.dom()) by {
                assert forall|id: u64| out.showdown_map@.dom().contains(id) <==> hm.dom().contains(id) by {
                    if out.showdown_map@.contains_key(id) {
                        let k = choose|k: int| 0 <= k < sds.len() && sds[k].0 == id;
                        assert(ids@.to_set().contains(ids@[k]));
                    }
                    if hm.contains_key(id) {
                        assert(ids@.to_set().contains(id));
                        let k = choose|k: int| 0 <= k < ids@.len() && ids@[k] == id;
                        assert(sds[k].0 == id);
                    }
                }
            }
            assert forall|id: u64| #[trigger] hm.contains_key(id) implies shows_hand(
                out.showdown_map@[id],
                holdem_cards(bd, hm, rv, id)->Ok_0,
            ) by {
                assert(ids@.to_set().contains(id));
                let k = choose|k: int| 0 <= k < ids@.len() && ids@[k] == id;
                assert(sds[k].0 == id);
            }
        }
        Ok(out)
    }

    /// A bet must be at least a big blind, unless it is all in.
    pub fn validate_bet_amount(&self, bet_amount: u64, bb: u64, player_chips: u64, pots: &Vec<Pot>) -> (r: Result<
        (),
        GameError,
    >)
        ensures
            r is Err <==> bet_amount < bb && bet_amount != player_chips,
            r is Err ==> r == Err::<(), GameError>(GameError::BetAmountIsTooSmall),
    {
        if bet_amount < bb && bet_amount != player_chips {
            return Err(GameError::BetAmountIsTooSmall);
        }
        Ok(())
    }

    /// A raise must bring the player's bet to the street bet plus the
    /// minimum raise, unless it is all in.
    pub fn validate_raise_amount(
        &self,
        player_chips: u64,
        betted: u64,
        raise_amount: u64,
        street_bet: u64,
        min_raise: u64,
        bet_sum_of_all_players: u64,
        pots: &Vec<Pot>,
    ) -> (r: Result<(), GameError>)
        requires
            betted + raise_amount <= u64::MAX,
            street_bet + min_raise <= u64::MAX,
        ensures
            r is Err <==> raise_amount != player_chips && betted + raise_amount < street_bet + min_raise,
            r is Err ==> r == Err::<(), GameError>(GameError::RaiseAmountIsTooSmall),
    {
        let total_new_bet = betted + raise_amount;
        if raise_amount == player_chips {
            return Ok(());
        }
        if total_new_bet < street_bet + min_raise {
            return Err(GameError::RaiseAmountIsTooSmall);
        }
        Ok(())
    }
}


/// Whether every hole card of player `id` is revealed.
pub open spec fn all_revealed(hm: Map<u64, Vec<usize>>, rv: Map<usize, String>, id: u64) -> bool {
    forall|j: int| 0 <= j < hm[id]@.len() ==> rv.contains_key(#[trigger] hm[id]@[j])
}

/// The hole cards of player `id`, by their characters.
pub open spec fn revealed_hole(hm: Map<u64, Vec<usize>>, rv: Map<usize, String>, id: u64) -> Seq<Seq<char>> {
    hm[id]@.map_values(|ix: usize| rv[ix]@)
}

/// What an Omaha player brings to the showdown: the four hole cards by
/// their characters, nothing when one of them is not revealed, or why the
/// cards are refused.
pub open spec fn omaha_entry(board: Seq<Seq<char>>, hm: Map<u64, Vec<usize>>, rv: Map<usize, String>, id: u64) -> Result<
    Option<Seq<Seq<char>>>,
    GameError,
> {
    if all_revealed(hm, rv, id) && hm[id]@.len() == 4 {
        let hole = revealed_hole(hm, rv, id);
        let all = hole + board;
        if board.len() >= 3 && (forall|i: int| 0 <= i < all.len() ==> valid_card(#[trigger] all[i])) {
            Ok(Some(hole))
        } else {
            Err(GameError::InvalidCards)
        }
    } else {
        Ok(None)
    }
}

/// The Omaha showdown of the players `ids` in order: the hole cards of
/// those taking part, or the first refusal.
pub open spec fn omaha_of(board: Seq<Seq<char>>, hm: Map<u64, Vec<usize>>, rv: Map<usize, String>, ids: Seq<u64>) -> Result<
    Seq<(u64, Seq<Seq<char>>)>,
    GameError,
>
    decreases ids.len(),
{
    if ids.len() == 0 {
        Ok(Seq::empty())
    } else {
        match omaha_of(board, hm, rv, ids.drop_last()) {
            Err(e) => Err(e),
            Ok(prev) => match omaha_entry(board, hm, rv, ids.last()) {
                Err(e) => Err(e),
                Ok(Some(hole)) => Ok(prev.push((ids.last(), hole))),
                Ok(None) => Ok(prev),
            },
        }
    }
}

/// The hand values of an Omaha showdown, in the order of the players' ids.
pub open spec fn omaha_values(board: Seq<Seq<char>>, list: Seq<(u64, Seq<Seq<char>>)>) -> Seq<(u64, Seq<u8>)> {
    list.map_values(|x: (u64, Seq<Seq<char>>)| (x.0, omaha_hand(x.1, board).2))
}

/// What a showdown entry shows for an Omaha hand.
pub open spec fn shows_omaha(sd: Showdown, hole: Seq<Seq<char>>, board: Seq<Seq<char>>) -> bool {
    &&& string_views(sd.hole_cards@) == hole
    &&& sd.category == omaha_hand(hole, board).0
    &&& string_views(sd.picks@) == omaha_hand(hole, board).1
}

/// A refusal at player `i`, after the first `i` players went through, is
/// the refusal of the whole showdown.
proof fn lemma_omaha_stops(board: Seq<Seq<char>>, hm: Map<u64, Vec<usize>>, rv: Map<usize, String>, ids: Seq<u64>, i: int)
    requires
        0 <= i < ids.len(),
        omaha_of(board, hm, rv, ids.take(i)) is Ok,
        omaha_entry(board, hm, rv, ids[i]) is Err,
    ensures
        omaha_of(board, hm, rv, ids) == Err::<Seq<(u64, Seq<Seq<char>>)>, GameError>(
            omaha_entry(board, hm, rv, ids[i])->Err_0,
        ),
    decreases ids.len(),
{
    if i == ids.len() - 1 {
        assert(ids.drop_last() =~= ids.take(i));
    } else {
        assert(ids.drop_last().take(i) =~= ids.take(i));
        assert(ids.drop_last()[i] == ids[i]);
        lemma_omaha_stops(board, hm, rv, ids.drop_last(), i);
    }
}

impl OmahaVariant {
    /// A player holds four hole cards.
    pub fn hole_card_count(&self) -> (r: usize)
        ensures
            r == 4,
    {
        4
    }

    /// Evaluate the best hand of every player whose four hole cards are all
    /// revealed (two of them with three of the board), rank them, and group
    /// equal hands into tiers.  Players with a missing card are left out.
    pub fn evaluate_hands(
        &self,
        board: &Vec<String>,
        hand_index_map: &BTreeMap<u64, Vec<usize>>,
        revealed_cards: &BTreeMap<usize, String>,
    ) -> (r: Result<EvaluateHandsOutput, GameError>)
        ensures
            ({
                let bd = string_views(board@);
                let hm = hand_index_map@;
                let rv = revealed_cards@;
                match omaha_of(bd, hm, rv, key_seq(hm)) {
                    Err(e) => r == Err::<EvaluateHandsOutput, GameError>(e),
                    Ok(list) => r matches Ok(out) && {
                        &&& out.winner_sets@.map_values(|v: Vec<u64>| v@) == tiers(rank_hands(omaha_values(bd, list)))
                        &&& forall|id: u64|
                            #[trigger] out.showdown_map@.contains_key(id) <==> exists|k: int| 0 <= k < list.len() && list[k].0 == id
                        &&& forall|k: int| 0 <= k < list.len() ==> shows_omaha(out.showdown_map@[#[trigger] list[k].0], list[k].1, bd)
                    },
                }
            }),
    {
        let board_cards = as_strs(board);
        let ids = crate::keys::sorted_keys(hand_index_map);
        let ghost bd = string_views(board@);
        let ghost hm = hand_index_map@;
        let ghost rv = revealed_cards@;
        proof {
            assert(views(board_cards@) =~= bd);
        }
        let mut hands: Vec<(u64, Vec<u8>)> = Vec::new();
        let mut showdowns: Vec<(u64, Showdown)> = Vec::new();
        let mut i: usize = 0;
        while i < ids.len()
            invariant
                hm == hand_index_map@,
                rv == revealed_cards@,
                bd == string_views(board@),
                views(board_cards@) == bd,
                ids@.to_set() == hm.dom(),
                ids@ == key_seq(hm),
                crate::keys::strictly_increasing(ids@),
                i <= ids@.len(),
                omaha_of(bd, hm, rv, ids@.take(i as int)) matches Ok(list) && {
                    &&& hands@.len() == list.len()
                    &&& showdowns@.len() == list.len()
                    &&& forall|k: int|
                        0 <= k < list.len() ==> (#[trigger] hands@[k]).0 == list[k].0 && hands@[k].1@ == omaha_hand(list[k].1, bd).2
                            && showdowns@[k].0 == list[k].0 && shows_omaha(showdowns@[k].1, list[k].1, bd)
                    &&& forall|k: int| 0 <= k < list.len() ==> exists|m: int| 0 <= m < i && ids@[m] == (#[trigger] list[k]).0
                    &&& forall|a: int, b: int| 0 <= a < b < list.len() ==> list[a].0 < list[b].0
                },
            decreases ids@.len() - i,
        {
            let id = ids[i];
            let ghost prev = omaha_of(bd, hm, rv, ids@.take(i as int))->Ok_0;
            proof {
                assert(ids@.take(i + 1).drop_last() =~= ids@.take(i as int));
                assert(ids@.take(i + 1).last() == id);
                assert(ids@.to_set().contains(id));
            }
            let indices = match hand_index_map.get(&id) {
                Some(v) => v,
                None => {
                    return Err(GameError::InvalidHoleCardsNumber);
                },
            };
            let mut hole_strings: Vec<String> = Vec::new();
            let mut has_all = true;
            let mut j: usize = 0;
            while j < indices.len()
                invariant
                    j <= indices@.len(),
                    indices@ == hm[id]@,
                    rv == revealed_cards@,
                    has_all ==> hole_strings@.len() == j,
                    has_all ==> forall|q: int| 0 <= q < j ==> rv.contains_key(#[trigger] indices@[q]) && hole_strings@[q]@ == rv[indices@[q]]@,
                    !has_all ==> !all_revealed(hm, rv, id),
                ensures
                    has_all ==> j == indices@.len(),
                    has_all ==> hole_strings@.len() == j,
                    has_all ==> forall|q: int| 0 <= q < j ==> rv.contains_key(#[trigger] indices@[q]) && hole_strings@[q]@ == rv[indices@[q]]@,
                    !has_all ==> !all_revealed(hm, rv, id),
                decreases indices@.len() - j,
            {
                match revealed_cards.get(&indices[j]) {
                    Some(c) => {
                        hole_strings.push(c.clone());
                    },
                    None => {
                        has_all = false;
                        break;
                    },
                }
                j = j + 1;
            }
            if has_all && hole_strings.len() == 4 {
                let ghost hole_v = revealed_hole(hm, rv, id);
                proof {
                    assert forall|q: int| 0 <= q < hm[id]@.len() implies rv.contains_key(#[trigger] hm[id]@[q]) by {
                        assert(indices@[q] == hm[id]@[q]);
                    }
                    assert(all_revealed(hm, rv, id));
                    assert forall|q: int| 0 <= q < hole_v.len() implies string_views(hole_strings@)[q] == hole_v[q] by {
                        assert(indices@[q] == hm[id]@[q]);
                        assert(rv.contains_key(indices@[q]));
                    }
                    assert(string_views(hole_strings@) =~= hole_v);
                }
                let hole = as_strs(&hole_strings);
                let all = create_cards(hole.as_slice(), board_cards.as_slice());
                let ghost av = hole_v + bd;
                proof {
                    assert(views(hole@) =~= hole_v);
                    crate::card_views::lemma_views_add(hole@, board_cards@);
                    assert(views(all@) == av);
                    assert(all@.len() == av.len());
                    if valid_cards(all@) {
                        assert forall|q: int| 0 <= q < av.len() implies valid_card(#[trigger] av[q]) by {
                            assert(views(all@)[q] == all@[q]@);
                            assert(valid_card(all@[q]@));
                        }
                    }
                    if forall|q: int| 0 <= q < av.len() ==> valid_card(#[trigger] av[q]) {
                        assert forall|q: int| 0 <= q < all@.len() implies valid_card(#[trigger] all@[q]@) by {
                            assert(views(all@)[q] == all@[q]@);
                            assert(valid_card(av[q]));
                        }
                    }
                }
                if board_cards.len() < 3 || !cards_ok(&all) {
                    proof {
                        assert(omaha_entry(bd, hm, rv, id) == Err::<Option<Seq<Seq<char>>>, GameError>(GameError::InvalidCards));
                        lemma_omaha_stops(bd, hm, rv, ids@, i as int);
                    }
                    return Err(GameError::InvalidCards);
                }
                proof {
                    assert(omaha_entry(bd, hm, rv, id) == Ok::<Option<Seq<Seq<char>>>, GameError>(Some(hole_v)));
                    lemma_omaha_hand(hole@, board_cards@);
                }
                let hand = evaluate_omaha_hand(hole.as_slice(), board_cards.as_slice());
                let ghost oh = hands@;
                let ghost os = showdowns@;
                hands.push((id, hand.value));
                showdowns.push((id, Showdown { hole_cards: hole_strings, category: hand.category, picks: hand.picks }));
                proof {
                    let list = prev.push((id, hole_v));
                    assert(omaha_of(bd, hm, rv, ids@.take(i + 1)) == Ok::<Seq<(u64, Seq<Seq<char>>)>, GameError>(list));
                    assert forall|k: int| 0 <= k < list.len() implies (#[trigger] hands@[k]).0 == list[k].0 && hands@[k].1@
                        == omaha_hand(list[k].1, bd).2 && showdowns@[k].0 == list[k].0 && shows_omaha(showdowns@[k].1, list[k].1, bd) by {
                        if k < prev.len() {
                            assert(list[k] == prev[k]);
                            assert(hands@[k] == oh[k]);
                            assert(showdowns@[k] == os[k]);
                        }
                    }
                    assert forall|k: int| 0 <= k < list.len() implies exists|m: int| 0 <= m < i + 1 && ids@[m] == (#[trigger] list[k]).0 by {
                        if k < prev.len() {
                            assert(list[k] == prev[k]);
                            let m = choose|m: int| 0 <= m < i && ids@[m] == prev[k].0;
                            assert(ids@[m] == list[k].0);
                        } else {
                            assert(ids@[i as int] == list[k].0);
                        }
                    }
                    assert forall|a: int, b: int| 0 <= a < b < list.len() implies list[a].0 < list[b].0 by {
                        assert(list[a] == prev[a]);
                        let m = choose|m: int| 0 <= m < i && ids@[m] == prev[a].0;
                        if b < prev.len() {
                            assert(list[b] == prev[b]);
                        }
                    }
                }
            } else {
                proof {
                    if has_all {
                        assert(hole_strings@.len() == hm[id]@.len());
                    }
                    assert(omaha_entry(bd, hm, rv, id) == Ok::<Option<Seq<Seq<char>>>, GameError>(None));
                    assert(omaha_of(bd, hm, rv, ids@.take(i + 1)) == Ok::<Seq<(u64, Seq<Seq<char>>)>, GameError>(prev));
                    assert forall|k: int| 0 <= k < prev.len() implies exists|m: int| 0 <= m < i + 1 && ids@[m] == (#[trigger] prev[k]).0 by {
                        let m = choose|m: int| 0 <= m < i && ids@[m] == prev[k].0;
                    }
                }
            }
            assert(omaha_of(bd, hm, rv, ids@.take(i + 1)) matches Ok(list) && {
                &&& hands@.len() == list.len()
                &&& showdowns@.len() == list.len()
            });
            i = i + 1;
        }
        proof {
            assert(ids@.take(ids@.len() as int) =~= ids@);
        }
        let ghost list = omaha_of(bd, hm, rv, ids@)->Ok_0;
        let ghost hs = hands@;
        let ghost sds = showdowns@;
        proof {
            assert(hand_views(hs) =~= omaha_values(bd, list));
            assert forall|a: int, b: int| 0 <= a < b < sds.len() implies sds[a].0 != sds[b].0 by {
                assert(hs[a].0 == list[a].0);
                assert(hs[b].0 == list[b].0);
            }
        }
        let out = tiers_and_showdowns(hands, showdowns);
        proof {
            assert forall|id: u64| #[trigger] out.showdown_map@.contains_key(id) <==> exists|k: int| 0 <= k < list.len() && list[k].0 == id by {
                if out.showdown_map@.contains_key(id) {
                    let k = choose|k: int| 0 <= k < sds.len() && sds[k].0 == id;
                    assert(hs[k].0 == list[k].0);
                    assert(list[k].0 == id);
                }
                if exists|k: int| 0 <= k < list.len() && list[k].0 == id {
                    let k = choose|k: int| 0 <= k < list.len() && list[k].0 == id;
                    assert(hs[k].0 == list[k].0);
                    assert(sds[k].0 == id);
                }
            }
            assert forall|k: int| 0 <= k < list.len() implies shows_omaha(out.showdown_map@[#[trigger] list[k].0], list[k].1, bd) by {
                assert(hs[k].0 == list[k].0);
                assert(sds[k].0 == list[k].0);
            }
        }
        Ok(out)
    }

    /// A bet must not exceed the pots, and must be at least a big blind
    /// unless it is all in.
    pub fn validate_bet_amount(&self, bet_amount: u64, bb: u64, player_chips: u64, pots: &Vec<Pot>) -> (r: Result<
        (),
        GameError,
    >)
        requires
            pots_total(pot_views(pots@)) <= u64::MAX,
        ensures
            bet_amount > pots_total(pot_views(pots@)) ==> r == Err::<(), GameError>(GameError::BetExceedsPotLimit),
            bet_amount <= pots_total(pot_views(pots@)) && bet_amount < bb && bet_amount != player_chips ==> r == Err::<
                (),
                GameError,
            >(GameError::BetAmountIsTooSmall),
            bet_amount <= pots_total(pot_views(pots@)) && !(bet_amount < bb && bet_amount != player_chips) ==> r is Ok,
    {
        proof {
            lemma_total_nonneg(pot_views(pots@));
        }
        let pot_before_action = match sum_pots(pots) {
            Some(t) => t,
            None => {
                return Err(GameError::InternalAmountOverflow);
            },
        };
        if bet_amount > pot_before_action {
            return Err(GameError::BetExceedsPotLimit);
        }
        if bet_amount < bb && bet_amount != player_chips {
            return Err(GameError::BetAmountIsTooSmall);
        }
        Ok(())
    }

    /// A raise must not exceed the pots with all bets plus the call, and
    /// must bring the player's bet to the street bet plus the minimum
    /// raise, unless it is all in.
    pub fn validate_raise_amount(
        &self,
        player_chips: u64,
        betted: u64,
        raise_amount: u64,
        street_bet: u64,
        min_raise: u64,
        bet_sum_of_all_players: u64,
        pots: &Vec<Pot>,
    ) -> (r: Result<(), GameError>)
        requires
            pots_total(pot_views(pots@)) + bet_sum_of_all_players + street_bet - betted <= u64::MAX,
            betted <= street_bet,
            betted + raise_amount <= u64::MAX,
            street_bet + min_raise <= u64::MAX,
        ensures
            ({
                let max_raise = pots_total(pot_views(pots@)) + bet_sum_of_all_players + street_bet - betted;
                &&& raise_amount > max_raise ==> r == Err::<(), GameError>(GameError::RaiseExceedsPotLimit)
                &&& raise_amount <= max_raise && betted + raise_amount < street_bet + min_raise && raise_amount
                    != player_chips ==> r == Err::<(), GameError>(GameError::RaiseAmountIsTooSmall)
                &&& raise_amount <= max_raise && !(betted + raise_amount < street_bet + min_raise && raise_amount
                    != player_chips) ==> r is Ok
            }),
    {
        proof {
            lemma_total_nonneg(pot_views(pots@));
        }
        let pots_sum = match sum_pots(pots) {
            Some(t) => t,
            None => {
                return Err(GameError::InternalAmountOverflow);
            },
        };
        let pot_before_action = pots_sum + bet_sum_of_all_players;
        let call_amount = street_bet - betted;
        let max_raise = pot_before_action + call_amount;
        if raise_amount > max_raise {
            return Err(GameError::RaiseExceedsPotLimit);
        }
        let total_new_bet = betted + raise_amount;
        if total_new_bet < street_bet + min_raise && raise_amount != player_chips {
            return Err(GameError::RaiseAmountIsTooSmall);
        }
        Ok(())
    }
}

} // verus!
