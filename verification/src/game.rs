//! The Holdem game state and its handler: the core of this library.

use std::collections::BTreeMap;
use vstd::prelude::*;
use crate::errors::GameError;
use crate::essential::{
    ActingPlayer, AwardPot, Display, GameEvent, GameMode, HoldemStage, InternalPlayerJoin, Player,
    PlayerResult, PlayerStatus, Pot, Street, ACTION_TIMEOUT_AFK, ACTION_TIMEOUT_POSTFLOP,
    ACTION_TIMEOUT_PREFLOP, ACTION_TIMEOUT_RIVER, ACTION_TIMEOUT_TURN, MAX_ACTION_TIMEOUT_COUNT,
    TIME_CARD_EXTRA_SECS, WAIT_TIMEOUT_DEFAULT,
};
use crate::hand_history::{BlindBet, BlindType, HandHistory, PlayerAction, Showdown};
use crate::keys::{key_seq, sorted_keys, strictly_increasing};
use crate::holdem_evaluator::lemma_filter_take_step;

verus! {

broadcast use vstd::std_specs::btree::group_btree_axioms;

/// The statuses of players who have not folded in the current hand.
pub open spec fn is_unfolded(s: PlayerStatus) -> bool {
    s == PlayerStatus::Wait || s == PlayerStatus::Allin || s == PlayerStatus::Acted || s
        == PlayerStatus::Acting
}

/// The statuses of players who leave the table at the next settlement.
pub open spec fn is_removable(s: PlayerStatus) -> bool {
    s == PlayerStatus::Leave || s == PlayerStatus::Out || s == PlayerStatus::Eliminated
}

pub open spec fn unfolded_pred(pm: Map<u64, Player>) -> spec_fn(u64) -> bool {
    |id: u64| is_unfolded(pm[id].status)
}

pub open spec fn ingame_pred(pm: Map<u64, Player>) -> spec_fn(u64) -> bool {
    |id: u64| pm[id].status != PlayerStatus::Init
}

pub open spec fn removable_pred(pm: Map<u64, Player>) -> spec_fn(u64) -> bool {
    |id: u64| is_removable(pm[id].status)
}

/// The players of a map in the order of their ids.
pub open spec fn players_of(pm: Map<u64, Player>, ids: Seq<u64>) -> Seq<Player> {
    ids.map_values(|id: u64| pm[id])
}

/// Whether some player sits at `p`.
pub open spec fn has_position(pm: Map<u64, Player>, p: int) -> bool {
    exists|id: u64| pm.contains_key(id) && pm[id].position == p
}

/// The amount a player has bet, 0 when none.
pub open spec fn bet_of(bets: Map<u64, u64>, id: u64) -> u64 {
    if bets.contains_key(id) {
        bets[id]
    } else {
        0
    }
}

/// Holdem: the game state
#[derive(Debug, Clone)]
pub struct Holdem {
    pub hand_id: usize,
    pub deck_random_id: usize,
    pub max_deposit: u64,
    pub sb: u64,
    pub bb: u64,
    pub ante: u64,
    pub min_raise: u64,
    pub btn: usize,
    pub rake: u16,
    pub rake_cap: u8,
    pub stage: HoldemStage,
    pub street: Street,
    pub street_bet: u64,
    pub board: Vec<String>,
    pub hand_index_map: BTreeMap<u64, Vec<usize>>,
    pub bet_map: BTreeMap<u64, u64>,
    pub total_bet_map: BTreeMap<u64, u64>,
    pub prize_map: BTreeMap<u64, u64>,
    pub player_map: BTreeMap<u64, Player>,
    pub player_order: Vec<u64>,
    pub pots: Vec<Pot>,
    pub acting_player: Option<ActingPlayer>,
    pub winners: Vec<u64>,
    pub display: Vec<Display>,
    pub mode: GameMode,
    /// the number of seats
    pub table_size: u8,
    pub hand_history: HandHistory,
    pub next_game_start: u64,
    pub rake_collected: u64,
}

impl Default for Holdem {
    fn default() -> (r: Self)
        ensures
            r.hand_id == 0 && r.deck_random_id == 0 && r.max_deposit == 0,
            r.sb == 0 && r.bb == 0 && r.ante == 0 && r.min_raise == 0 && r.btn == 0,
            r.rake == 0 && r.rake_cap == 0,
            r.stage == HoldemStage::Init && r.street == Street::Init && r.street_bet == 0,
            r.board@.len() == 0,
            r.hand_index_map@ == Map::<u64, Vec<usize>>::empty(),
            r.bet_map@ == Map::<u64, u64>::empty(),
            r.total_bet_map@ == Map::<u64, u64>::empty(),
            r.prize_map@ == Map::<u64, u64>::empty(),
            r.player_map@ == Map::<u64, Player>::empty(),
            r.player_order@.len() == 0,
            r.pots@.len() == 0,
            r.acting_player is None,
            r.winners@.len() == 0,
            r.display@.len() == 0,
            r.mode == GameMode::Cash,
            r.table_size == 0,
            r.hand_history.empty(),
            r.next_game_start == 0,
            r.rake_collected == 0,
    {
        Holdem {
            hand_id: 0,
            deck_random_id: 0,
            max_deposit: 0,
            sb: 0,
            bb: 0,
            ante: 0,
            min_raise: 0,
            btn: 0,
            rake: 0,
            rake_cap: 0,
            stage: HoldemStage::Init,
            street: Street::Init,
            street_bet: 0,
            board: Vec::new(),
            hand_index_map: BTreeMap::new(),
            bet_map: BTreeMap::new(),
            total_bet_map: BTreeMap::new(),
            prize_map: BTreeMap::new(),
            player_map: BTreeMap::new(),
            player_order: Vec::new(),
            pots: Vec::new(),
            acting_player: None,
            winners: Vec::new(),
            display: Vec::new(),
            mode: GameMode::Cash,
            table_size: 0,
            hand_history: HandHistory::default(),
            next_game_start: 0,
            rake_collected: 0,
        }
    }
}

impl Holdem {
    /// Each player is filed under its own id.
    pub open spec fn wf(&self) -> bool {
        forall|id: u64| #[trigger] self.player_map@.contains_key(id) ==> self.player_map@[id].id == id
    }

    /// The ids of the players, in increasing order.
    pub open spec fn ids(&self) -> Seq<u64> {
        key_seq(self.player_map@)
    }

    /// Whether `player_id` is the acting player.
    pub fn is_acting_player(&self, player_id: u64) -> (r: bool)
        ensures
            r == (self.acting_player matches Some(a) && a.id == player_id),
    {
        match &self.acting_player {
            Some(a) => a.id == player_id,
            None => false,
        }
    }

    /// The acting player's position, or the button when nobody acts.
    pub(crate) fn get_ref_position(&self) -> (r: usize)
        ensures
            r == (match self.acting_player {
                Some(a) => a.position as usize,
                None => self.btn,
            }),
    {
        match &self.acting_player {
            Some(a) => a.position as usize,
            None => self.btn,
        }
    }

    /// The bet of a player on the current street, 0 when none.
    pub fn get_player_bet(&self, player_id: u64) -> (r: u64)
        ensures
            r == bet_of(self.bet_map@, player_id),
    {
        match self.bet_map.get(&player_id) {
            Some(b) => *b,
            None => 0,
        }
    }

    /// The next street.
    pub fn next_street(&mut self) -> (r: Street)
        ensures
            *final(self) == *old(self),
            r == (match old(self).street {
                Street::Init => Street::Preflop,
                Street::Preflop => Street::Flop,
                Street::Flop => Street::Turn,
                Street::Turn => Street::River,
                _ => Street::Showdown,
            }),
    {
        match self.street {
            Street::Init => Street::Preflop,
            Street::Preflop => Street::Flop,
            Street::Flop => Street::Turn,
            Street::Turn => Street::River,
            _ => Street::Showdown,
        }
    }

    /// Count the players who haven't folded.
    pub fn count_unfolded_players(&self) -> (r: usize)
        ensures
            r == self.ids().filter(unfolded_pred(self.player_map@)).len(),
    {
        let ids = sorted_keys(&self.player_map);
        let ghost pm = self.player_map@;
        let mut n: usize = 0;
        let mut i: usize = 0;
        while i < ids.len()
            invariant
                pm == self.player_map@,
                ids@.to_set() == pm.dom(),
                i <= ids@.len(),
                n <= i,
                n == ids@.take(i as int).filter(unfolded_pred(pm)).len(),
            decreases ids@.len() - i,
        {
            let id = ids[i];
            proof {
                lemma_filter_take_step(ids@, unfolded_pred(pm), i as int);
                assert(ids@.to_set().contains(id));
            }
            match self.player_map.get(&id) {
                Some(p) => {
                    if p.status == PlayerStatus::Acted || p.status == PlayerStatus::Allin
                        || p.status == PlayerStatus::Acting || p.status == PlayerStatus::Wait {
                        n = n + 1;
                    }
                },
                None => {},
            }
            i = i + 1;
        }
        assert(ids@.take(i as int) =~= ids@);
        n
    }

    /// Count the players whose status is not `Init`.
    pub fn count_ingame_players(&self) -> (r: usize)
        ensures
            r == self.ids().filter(ingame_pred(self.player_map@)).len(),
    {
        let ids = sorted_keys(&self.player_map);
        let ghost pm = self.player_map@;
        let mut n: usize = 0;
        let mut i: usize = 0;
        while i < ids.len()
            invariant
                pm == self.player_map@,
                ids@.to_set() == pm.dom(),
                i <= ids@.len(),
                n <= i,
                n == ids@.take(i as int).filter(ingame_pred(pm)).len(),
            decreases ids@.len() - i,
        {
            let id = ids[i];
            proof {
                lemma_filter_take_step(ids@, ingame_pred(pm), i as int);
                assert(ids@.to_set().contains(id));
            }
            match self.player_map.get(&id) {
                Some(p) => {
                    if p.status != PlayerStatus::Init {
                        n = n + 1;
                    }
                },
                None => {},
            }
            i = i + 1;
        }
        assert(ids@.take(i as int) =~= ids@);
        n
    }

    /// Set a player's status.
    pub fn set_player_status(&mut self, player_id: u64, status: PlayerStatus) -> (r: Result<(), GameError>)
        ensures
            r is Ok <==> old(self).player_map@.contains_key(player_id),
            r is Err ==> r->Err_0 == GameError::InvalidPlayer && *final(self) == *old(self),
            r is Ok ==> final(self).player_map@ == old(self).player_map@.insert(
                player_id,
                Player { status, ..old(self).player_map@[player_id] },
            ),
            *final(self) == (Holdem { player_map: final(self).player_map, ..*old(self) }),
    {
        match self.player_map.get(&player_id) {
            Some(p) => {
                let mut player = *p;
                player.status = status;
                self.player_map.insert(player_id, player);
                Ok(())
            },
            None => Err(GameError::InvalidPlayer),
        }
    }

    /// Mark a player as `Allin` when all in, else as `Acted`.
    pub fn set_player_acted(&mut self, player_id: u64, allin: bool) -> (r: Result<(), GameError>)
        ensures
            r is Ok <==> old(self).player_map@.contains_key(player_id),
            r is Err ==> r->Err_0 == GameError::InvalidPlayer && *final(self) == *old(self),
            r is Ok ==> final(self).player_map@ == old(self).player_map@.insert(
                player_id,
                Player {
                    status: if allin {
                        PlayerStatus::Allin
                    } else {
                        PlayerStatus::Acted
                    },
                    ..old(self).player_map@[player_id]
                },
            ),
            *final(self) == (Holdem { player_map: final(self).player_map, ..*old(self) }),
    {
        self.set_player_status(
            player_id,
            if allin {
                PlayerStatus::Allin
            } else {
                PlayerStatus::Acted
            },
        )
    }

    /// Clear a player's count of action timeouts.
    pub fn reset_player_timeout(&mut self, player_id: u64) -> (r: Result<(), GameError>)
        ensures
            r is Ok <==> old(self).player_map@.contains_key(player_id),
            r is Err ==> r->Err_0 == GameError::InvalidPlayer && *final(self) == *old(self),
            r is Ok ==> final(self).player_map@ == old(self).player_map@.insert(
                player_id,
                Player { timeout: 0, ..old(self).player_map@[player_id] },
            ),
            r is Ok ==> *final(self) == (Holdem { player_map: final(self).player_map, ..*old(self) }),
    {
        match self.player_map.get(&player_id) {
            Some(p) => {
                let mut player = *p;
                player.timeout = 0;
                self.player_map.insert(player_id, player);
                Ok(())
            },
            None => Err(GameError::InvalidPlayer),
        }
    }

    /// Take a bet from a player: the amount, or all the player's chips when
    /// they are fewer, moves to the bets of this street and of this hand.
    /// Returns whether the player went all in and the amount taken.
    pub fn take_bet(&mut self, player_id: u64, amount: u64) -> (r: Result<(bool, u64), GameError>)
        requires
            old(self).player_map@.contains_key(player_id) ==> bet_of(old(self).bet_map@, player_id)
                + old(self).player_map@[player_id].chips <= u64::MAX && bet_of(
                old(self).total_bet_map@,
                player_id,
            ) + old(self).player_map@[player_id].chips <= u64::MAX,
        ensures
            r is Ok <==> old(self).player_map@.contains_key(player_id),
            r is Err ==> r->Err_0 == GameError::InvalidPlayer && *final(self) == *old(self),
            r matches Ok((allin, taken)) ==> {
                let p = old(self).player_map@[player_id];
                &&& allin == (amount >= p.chips)
                &&& taken == (if amount < p.chips { amount } else { p.chips })
                &&& final(self).player_map@ == old(self).player_map@.insert(
                    player_id,
                    Player { chips: (p.chips - taken) as u64, ..p },
                )
                &&& final(self).bet_map@ == old(self).bet_map@.insert(
                    player_id,
                    (bet_of(old(self).bet_map@, player_id) + taken) as u64,
                )
                &&& final(self).total_bet_map@ == old(self).total_bet_map@.insert(
                    player_id,
                    (bet_of(old(self).total_bet_map@, player_id) + taken) as u64,
                )
            },
            r is Ok ==> *final(self) == (Holdem {
                player_map: final(self).player_map,
                bet_map: final(self).bet_map,
                total_bet_map: final(self).total_bet_map,
                ..*old(self)
            }),
    {
        let mut player = match self.player_map.get(&player_id) {
            Some(p) => *p,
            None => {
                return Err(GameError::InvalidPlayer);
            },
        };
        let (allin, real_amount) = player.take_bet(amount);
        self.player_map.insert(player_id, player);
        let bet = self.get_player_bet(player_id);
        self.bet_map.insert(player_id, bet + real_amount);
        let total = match self.total_bet_map.get(&player_id) {
            Some(t) => *t,
            None => 0,
        };
        self.total_bet_map.insert(player_id, total + real_amount);
        Ok((allin, real_amount))
    }

    /// The position of the first free seat, if any.
    pub fn find_position(&self) -> (r: Option<u8>)
        ensures
            r matches Some(p) ==> p < self.table_size && !has_position(self.player_map@, p as int)
                && forall|q: int| 0 <= q < p ==> has_position(self.player_map@, q),
            r is None ==> forall|q: int| 0 <= q < self.table_size ==> has_position(self.player_map@, q),
    {
        let mut i: u8 = 0;
        while i < self.table_size
            invariant
                i <= self.table_size,
                forall|q: int| 0 <= q < i ==> has_position(self.player_map@, q),
            decreases self.table_size - i,
        {
            if !self.position_occupied(i as usize) {
                return Some(i);
            }
            i = i + 1;
        }
        None
    }

    /// Whether a player sits at `position`.
    pub fn position_occupied(&self, position: usize) -> (r: bool)
        ensures
            r == has_position(self.player_map@, position as int),
    {
        let ids = sorted_keys(&self.player_map);
        let ghost pm = self.player_map@;
        let mut i: usize = 0;
        while i < ids.len()
            invariant
                pm == self.player_map@,
                ids@.to_set() == pm.dom(),
                i <= ids@.len(),
                forall|k: int| 0 <= k < i ==> pm[ids@[k]].position != position,
            decreases ids@.len() - i,
        {
            let id = ids[i];
            assert(ids@.to_set().contains(id));
            match self.player_map.get(&id) {
                Some(p) => {
                    if p.position as usize == position {
                        return true;
                    }
                },
                None => {},
            }
            i = i + 1;
        }
        assert forall|id: u64| pm.contains_key(id) implies pm[id].position != position by {
            assert(ids@.to_set().contains(id));
            let k = choose|k: int| 0 <= k < ids@.len() && ids@[k] == id;
        }
        false
    }
}

/// The key by which players are arranged after the reference position
/// `last`: the seats after it first, then the seats up to it.
pub open spec fn arrange_key(pos: u8, last: usize) -> int {
    if pos > last {
        pos - last
    } else {
        pos + 100
    }
}

/// The player order from SB: by arrange key, players with equal keys by id.
pub open spec fn arranged(pm: Map<u64, Player>, last: usize, o: Seq<u64>) -> bool {
    &&& o.no_duplicates()
    &&& o.to_set() == Set::new(|id: u64| pm.contains_key(id) && pm[id].status != PlayerStatus::Init)
    &&& forall|i: int, j: int|
        0 <= i < j < o.len() ==> arrange_key(pm[o[i]].position, last) < arrange_key(
            pm[o[j]].position,
            last,
        ) || (arrange_key(pm[o[i]].position, last) == arrange_key(pm[o[j]].position, last) && o[i]
            < o[j])
}

/// The order of play from the reference position `last`.
pub open spec fn arranged_order(pm: Map<u64, Player>, last: usize) -> Seq<u64> {
    choose|o: Seq<u64>| arranged(pm, last, o)
}

/// One player comes before another in the order of play.
pub open spec fn arrange_lt(pm: Map<u64, Player>, last: usize) -> spec_fn(u64, u64) -> bool {
    |x: u64, y: u64|
        arrange_key(pm[x].position, last) < arrange_key(pm[y].position, last) || (arrange_key(
            pm[x].position,
            last,
        ) == arrange_key(pm[y].position, last) && x < y)
}

/// Two sequences sorted by the same strict order, with the same elements,
/// are equal.
pub proof fn lemma_sorted_unique<T>(a: Seq<T>, b: Seq<T>, lt: spec_fn(T, T) -> bool)
    requires
        forall|x: T, y: T| #[trigger] lt(x, y) ==> !lt(y, x),
        forall|i: int, j: int| 0 <= i < j < a.len() ==> lt(a[i], a[j]),
        forall|i: int, j: int| 0 <= i < j < b.len() ==> lt(b[i], b[j]),
        a.to_set() == b.to_set(),
    ensures
        a == b,
    decreases a.len(),
{
    broadcast use vstd::seq_lib::group_seq_properties;

    if a.len() == 0 {
        if b.len() > 0 {
            assert(b.to_set().contains(b[0]));
        }
    } else {
        assert(a.to_set().contains(a[0]));
        assert(b.to_set().contains(a[0]));
        assert(b.len() > 0);
        assert(a.to_set().contains(b[0]));
        let i = choose|i: int| 0 <= i < a.len() && a[i] == b[0];
        let j = choose|j: int| 0 <= j < b.len() && b[j] == a[0];
        assert(a[0] == b[0]) by {
            if i > 0 && j > 0 {
                assert(lt(a[0], a[i]));
                assert(lt(b[0], b[j]));
            } else if i > 0 {
                assert(lt(a[0], a[i]));
                assert(lt(a[i], a[0]) == lt(a[0], a[i]));
            } else if j > 0 {
                assert(lt(b[0], b[j]));
            }
        }
        let a1 = a.drop_first();
        let b1 = b.drop_first();
        assert(a1.to_set() =~= b1.to_set()) by {
            assert forall|x: T| a1.to_set().contains(x) implies b1.to_set().contains(x) by {
                let k = choose|k: int| 0 <= k < a1.len() && a1[k] == x;
                assert(a[k + 1] == x);
                assert(b.to_set().contains(x));
                let l = choose|l: int| 0 <= l < b.len() && b[l] == x;
                if l == 0 {
                    assert(lt(a[0], a[k + 1]));
                }
                assert(b1[l - 1] == x);
            }
            assert forall|x: T| b1.to_set().contains(x) implies a1.to_set().contains(x) by {
                let k = choose|k: int| 0 <= k < b1.len() && b1[k] == x;
                assert(b[k + 1] == x);
                assert(a.to_set().contains(x));
                let l = choose|l: int| 0 <= l < a.len() && a[l] == x;
                if l == 0 {
                    assert(lt(b[0], b[k + 1]));
                }
                assert(a1[l - 1] == x);
            }
        }
        assert forall|p: int, q: int| 0 <= p < q < a1.len() implies lt(a1[p], a1[q]) by {
            assert(lt(a[p + 1], a[q + 1]));
        }
        assert forall|p: int, q: int| 0 <= p < q < b1.len() implies lt(b1[p], b1[q]) by {
            assert(lt(b[p + 1], b[q + 1]));
        }
        lemma_sorted_unique(a1, b1, lt);
        assert(a =~= b) by {
            assert forall|k: int| 0 <= k < a.len() implies a[k] == b[k] by {
                if k > 0 {
                    assert(a[k] == a1[k - 1]);
                    assert(b[k] == b1[k - 1]);
                }
            }
        }
    }
}

/// An arranged order is the order of play.
proof fn lemma_arranged_unique(pm: Map<u64, Player>, last: usize, o: Seq<u64>)
    requires
        arranged(pm, last, o),
    ensures
        arranged_order(pm, last) == o,
{
    let c = arranged_order(pm, last);
    assert(arranged(pm, last, c));
    let lt = arrange_lt(pm, last);
    assert forall|i: int, j: int| 0 <= i < j < o.len() implies lt(o[i], o[j]) by {}
    assert forall|i: int, j: int| 0 <= i < j < c.len() implies lt(c[i], c[j]) by {}
    lemma_sorted_unique(c, o, lt);
}

/// The first player of `ids` present in the map who still has to act on
/// this street: one who bet less than the street bet, or who waits.
pub open spec fn needs_action(h: Holdem, id: u64) -> bool {
    h.player_map@.contains_key(id) && (bet_of(h.bet_map@, id) < h.street_bet
        || h.player_map@[id].status == PlayerStatus::Wait)
}

/// The first of `s`, from the `i`-th on, who still has to act.
pub open spec fn first_needing(h: Holdem, s: Seq<u64>, i: int) -> Option<u64>
    decreases s.len() - i,
{
    if i < 0 || i >= s.len() {
        None
    } else if needs_action(h, s[i]) {
        Some(s[i])
    } else {
        first_needing(h, s, i + 1)
    }
}

/// What resetting a player for a new hand does: a player sitting out counts
/// one more timeout, the others wait.
pub open spec fn reset_player(p: Player) -> Player {
    if p.status == PlayerStatus::Out {
        Player { timeout: (p.timeout + 1) as u8, ..p }
    } else {
        Player { status: PlayerStatus::Wait, ..p }
    }
}

/// A player with no chips left who has not left is eliminated.
pub open spec fn eliminate_player(p: Player) -> Player {
    if p.status != PlayerStatus::Leave && p.chips + p.deposit == 0 {
        Player { status: PlayerStatus::Eliminated, ..p }
    } else {
        p
    }
}

/// Moving deposits to chips, up to the maximum deposit.
pub open spec fn refill_player(p: Player, max_deposit: u64) -> Player {
    if p.chips < max_deposit && p.deposit > 0 {
        let chips = if p.chips + p.deposit < max_deposit {
            p.chips + p.deposit
        } else {
            max_deposit as int
        };
        Player { chips: chips as u64, deposit: (p.deposit - (chips - p.chips)) as u64, ..p }
    } else {
        p
    }
}

/// The first free seat among 0..11 from `q` on, or -1.
pub open spec fn first_free_from(pm: Map<u64, Player>, q: int) -> int
    decreases 11 - q,
{
    if q < 0 || q >= 11 {
        -1
    } else if !has_position(pm, q) {
        q
    } else {
        first_free_from(pm, q + 1)
    }
}

/// Seating the joining players one by one at the first free seat; `None`
/// when one finds no seat.
pub open spec fn seat_players(pm: Map<u64, Player>, ps: Seq<InternalPlayerJoin>) -> Option<Map<u64, Player>>
    decreases ps.len(),
{
    if ps.len() == 0 {
        Some(pm)
    } else {
        match seat_players(pm, ps.drop_last()) {
            None => None,
            Some(m) => {
                let q = first_free_from(m, 0);
                let p = ps.last();
                if q < 0 {
                    None
                } else {
                    Some(
                        m.insert(
                            p.id,
                            Player {
                                id: p.id,
                                chips: p.chips,
                                position: q as u8,
                                status: PlayerStatus::Fold,
                                timeout: 0,
                                deposit: 0,
                                time_cards: crate::essential::DEFAULT_TIME_CARDS,
                                is_afk: false,
                            },
                        ),
                    )
                }
            },
        }
    }
}

impl Holdem {
    /// The button moves clockwise: the next button is the first seat after
    /// the current one that a player takes, or else the lowest taken seat.
    pub fn get_next_btn(&mut self) -> (r: Result<usize, GameError>)
        ensures
            *final(self) == *old(self),
            r is Err <==> old(self).player_map@.dom().len() == 0,
            r is Err ==> r->Err_0 == GameError::NextButtonPlayerNotFound,
            r matches Ok(b) ==> has_position(old(self).player_map@, b as int),
            r matches Ok(b) ==> (exists|id: u64|
                old(self).player_map@.contains_key(id) && old(self).player_map@[id].position
                    > old(self).btn) ==> b > old(self).btn && forall|id: u64|
                old(self).player_map@.contains_key(id) && old(self).player_map@[id].position
                    > old(self).btn ==> b <= old(self).player_map@[id].position,
            r matches Ok(b) ==> !(exists|id: u64|
                old(self).player_map@.contains_key(id) && old(self).player_map@[id].position
                    > old(self).btn) ==> forall|id: u64|
                old(self).player_map@.contains_key(id) ==> b <= old(self).player_map@[id].position,
    {
        let ids = sorted_keys(&self.player_map);
        let ghost pm = self.player_map@;
        let btn = self.btn;
        let mut best_after: Option<usize> = None;
        let mut lowest: Option<usize> = None;
        let mut i: usize = 0;
        while i < ids.len()
            invariant
                pm == self.player_map@,
                btn == self.btn,
                ids@.to_set() == pm.dom(),
                i <= ids@.len(),
                lowest is None <==> i == 0,
                lowest matches Some(l) ==> (exists|k: int| 0 <= k < i && pm[ids@[k]].position == l)
                    && forall|k: int| 0 <= k < i ==> l <= pm[ids@[k]].position,
                best_after is None <==> forall|k: int| 0 <= k < i ==> pm[ids@[k]].position <= btn,
                best_after matches Some(b) ==> b > btn && (exists|k: int|
                    0 <= k < i && pm[ids@[k]].position == b) && forall|k: int|
                    0 <= k < i && pm[ids@[k]].position > btn ==> b <= pm[ids@[k]].position,
            decreases ids@.len() - i,
        {
            let id = ids[i];
            assert(ids@.to_set().contains(id));
            let pos: usize = match self.player_map.get(&id) {
                Some(p) => p.position as usize,
                None => 0,
            };
            lowest = match lowest {
                Some(l) => if pos < l {
                    Some(pos)
                } else {
                    Some(l)
                },
                None => Some(pos),
            };
            if pos > btn {
                best_after = match best_after {
                    Some(b) => if pos < b {
                        Some(pos)
                    } else {
                        Some(b)
                    },
                    None => Some(pos),
                };
            }
            i = i + 1;
        }
        proof {
            assert forall|id: u64| pm.contains_key(id) implies exists|k: int|
                0 <= k < ids@.len() && ids@[k] == id by {
                assert(ids@.to_set().contains(id));
            }
            if pm.dom().len() == 0 {
                if ids@.len() > 0 {
                    assert(ids@.to_set().contains(ids@[0]));
                }
            } else {
                if ids@.len() == 0 {
                    let x = pm.dom().choose();
                    assert(pm.dom().contains(x));
                    assert(ids@.to_set().contains(x));
                }
            }
            match best_after {
                Some(b) => {
                    let k = choose|k: int| 0 <= k < ids@.len() && pm[ids@[k]].position == b;
                    assert(ids@.to_set().contains(ids@[k]));
                    assert(pm.contains_key(ids@[k]));
                    assert forall|id: u64| pm.contains_key(id) && pm[id].position > btn implies b <= pm[id].position by {
                        let k2 = choose|k2: int| 0 <= k2 < ids@.len() && ids@[k2] == id;
                    }
                },
                None => {
                    match lowest {
                        Some(l) => {
                            let k = choose|k: int| 0 <= k < ids@.len() && pm[ids@[k]].position == l;
                            assert(ids@.to_set().contains(ids@[k]));
                            assert(pm.contains_key(ids@[k]));
                            assert forall|id: u64| pm.contains_key(id) implies l <= pm[id].position by {
                                let k2 = choose|k2: int| 0 <= k2 < ids@.len() && ids@[k2] == id;
                            }
                            assert forall|id: u64| pm.contains_key(id) implies pm[id].position <= btn by {
                                let k2 = choose|k2: int| 0 <= k2 < ids@.len() && ids@[k2] == id;
                            }
                        },
                        None => {},
                    }
                },
            }
        }
        match best_after {
            Some(b) => Ok(b),
            None => match lowest {
                Some(l) => Ok(l),
                None => Err(GameError::NextButtonPlayerNotFound),
            },
        }
    }

    /// The players not in `Init`, by increasing id, with their arrange keys.
    fn eligible_keys(&self, last_pos: usize) -> (r: (Vec<u64>, Vec<usize>))
        ensures
            r.0@.len() == r.1@.len(),
            strictly_increasing(r.0@),
            r.0@.to_set() == Set::new(|id: u64| self.player_map@.contains_key(id) && self.player_map@[id].status != PlayerStatus::Init),
            forall|k: int| 0 <= k < r.0@.len() ==> r.1@[k] == arrange_key(self.player_map@[#[trigger] r.0@[k]].position, last_pos),
    {
        let ids = sorted_keys(&self.player_map);
        let ghost pm = self.player_map@;
        let mut out_ids: Vec<u64> = Vec::new();
        let mut out_keys: Vec<usize> = Vec::new();
        let mut i: usize = 0;
        while i < ids.len()
            invariant
                pm == self.player_map@,
                ids@.to_set() == pm.dom(),
                strictly_increasing(ids@),
                i <= ids@.len(),
                out_ids@.len() == out_keys@.len(),
                strictly_increasing(out_ids@),
                forall|k: int| 0 <= k < out_ids@.len() ==> out_keys@[k] == arrange_key(pm[#[trigger] out_ids@[k]].position, last_pos),
                out_ids@ == ids@.take(i as int).filter(ingame_pred(pm)),
                forall|k: int| 0 <= k < out_ids@.len() ==> out_ids@[k] < (if i < ids@.len() { ids@[i as int] } else { u64::MAX }) || i == ids@.len(),
            decreases ids@.len() - i,
        {
            let id = ids[i];
            proof {
                lemma_filter_take_step(ids@, ingame_pred(pm), i as int);
                assert(ids@.to_set().contains(id));
            }
            let p = match self.player_map.get(&id) {
                Some(p) => *p,
                None => Player::default(),
            };
            if p.status != PlayerStatus::Init {
                let key: usize = if p.position as usize > last_pos {
                    p.position as usize - last_pos
                } else {
                    p.position as usize + 100
                };
                out_ids.push(id);
                out_keys.push(key);
            }
            i = i + 1;
            proof {
                if i < ids@.len() {
                    assert(ids@[i - 1] < ids@[i as int]);
                }
            }
        }
        proof {
            assert(ids@.take(i as int) =~= ids@);
            let f = ids@.filter(ingame_pred(pm));
            assert(out_ids@.to_set() =~= Set::new(|id: u64| pm.contains_key(id) && pm[id].status != PlayerStatus::Init)) by {
                assert forall|x: u64| out_ids@.to_set().contains(x) implies pm.contains_key(x) && pm[x].status != PlayerStatus::Init by {
                    let k = choose|k: int| 0 <= k < f.len() && f[k] == x;
                    ids@.lemma_filter_pred(ingame_pred(pm), k);
                    assert(f.contains(x));
                    ids@.lemma_filter_contains_rev(ingame_pred(pm), x);
                    assert(ids@.to_set().contains(x));
                }
                assert forall|x: u64| pm.contains_key(x) && pm[x].status != PlayerStatus::Init implies out_ids@.to_set().contains(x) by {
                    assert(ids@.to_set().contains(x));
                    let j = choose|j: int| 0 <= j < ids@.len() && ids@[j] == x;
                    ids@.lemma_filter_contains(ingame_pred(pm), j);
                }
            }
        }
        (out_ids, out_keys)
    }

    /// Place the players (all but those in `Init`) in the order SB, BB, UTG,
    /// ..., BTN: first the seats after `last_pos`, then those up to it.
    pub fn arrange_players(&mut self, last_pos: usize) -> (r: Result<(), GameError>)
        ensures
            r is Ok,
            arranged(old(self).player_map@, last_pos, final(self).player_order@),
            final(self).player_order@ == arranged_order(old(self).player_map@, last_pos),
            *final(self) == (Holdem { player_order: final(self).player_order, ..*old(self) }),
    {
        let (ids, keys) = self.eligible_keys(last_pos);
        let ghost pm = self.player_map@;
        let mut order: Vec<u64> = Vec::new();
        let mut okeys: Vec<usize> = Vec::new();
        let mut i: usize = 0;
        while i < ids.len()
            invariant
                pm == self.player_map@,
                ids@.len() == keys@.len(),
                strictly_increasing(ids@),
                forall|k: int| 0 <= k < ids@.len() ==> keys@[k] == arrange_key(pm[#[trigger] ids@[k]].position, last_pos),
                i <= ids@.len(),
                order@.len() == okeys@.len(),
                forall|k: int| 0 <= k < order@.len() ==> okeys@[k] == arrange_key(pm[#[trigger] order@[k]].position, last_pos),
                forall|x: u64| order@.contains(x) <==> ids@.take(i as int).contains(x),
                order@.no_duplicates(),
                forall|k: int| 0 <= k < order@.len() ==> (i < ids@.len() ==> #[trigger] order@[k] < ids@[i as int]),
                forall|a: int, b: int|
                    0 <= a < b < order@.len() ==> okeys@[a] < okeys@[b] || (okeys@[a] == okeys@[b] && order@[a] < order@[b]),
            decreases ids@.len() - i,
        {
            let id = ids[i];
            let key = keys[i];
            let mut idx: usize = 0;
            while idx < order.len()
                invariant
                    idx <= order@.len(),
                    order@.len() == okeys@.len(),
                    forall|k: int| 0 <= k < idx ==> okeys@[k] <= key,
                ensures
                    idx <= order@.len(),
                    forall|k: int| 0 <= k < idx ==> okeys@[k] <= key,
                    idx == order@.len() || okeys@[idx as int] > key,
                decreases order@.len() - idx,
            {
                if okeys[idx] > key {
                    break;
                }
                idx = idx + 1;
            }
            let ghost before = order@;
            let ghost bkeys = okeys@;
            proof {
                assert forall|k: int| idx <= k < before.len() implies bkeys[k] > key by {
                    if k > idx {
                        assert(bkeys[idx as int] <= bkeys[k]);
                    }
                }
                assert(!before.contains(id)) by {
                    if before.contains(id) {
                        let k = choose|k: int| 0 <= k < before.len() && before[k] == id;
                    }
                }
            }
            order.insert(idx, id);
            okeys.insert(idx, key);
            proof {
                assert(ids@.take(i + 1) =~= ids@.take(i as int).push(id));
                assert forall|x: u64| order@.contains(x) <==> ids@.take(i + 1).contains(x) by {
                    if order@.contains(x) {
                        let k = choose|k: int| 0 <= k < order@.len() && order@[k] == x;
                        if k < idx {
                            assert(before[k] == x);
                            assert(before.contains(x));
                        } else if k > idx {
                            assert(before[k - 1] == x);
                            assert(before.contains(x));
                        } else {
                            assert(ids@.take(i + 1)[i as int] == x);
                        }
                        if x != id {
                            assert(ids@.take(i as int).contains(x));
                            let t = ids@.take(i as int);
                            let j = choose|j: int| 0 <= j < t.len() && t[j] == x;
                            assert(ids@.take(i + 1)[j] == x);
                        }
                    }
                    if ids@.take(i + 1).contains(x) {
                        if x == id {
                            assert(order@[idx as int] == id);
                        } else {
                            let t = ids@.take(i + 1);
                            let j = choose|j: int| 0 <= j < t.len() && t[j] == x;
                            assert(j < i);
                            assert(ids@.take(i as int)[j] == x);
                            assert(before.contains(x));
                            let k = choose|k: int| 0 <= k < before.len() && before[k] == x;
                            if k < idx {
                                assert(order@[k] == x);
                            } else {
                                assert(order@[k + 1] == x);
                            }
                        }
                    }
                }
                assert forall|k: int| 0 <= k < order@.len() && i + 1 < ids@.len() implies #[trigger] order@[k] < ids@[i + 1] by {
                    if i + 1 < ids@.len() {
                        assert(ids@[i as int] < ids@[i + 1]);
                        if k < idx {
                            assert(order@[k] == before[k]);
                        } else if k > idx {
                            assert(order@[k] == before[k - 1]);
                        }
                    }
                }
            }
            i = i + 1;
        }
        proof {
            assert(ids@.take(i as int) =~= ids@);
            assert(order@.to_set() =~= ids@.to_set());
            assert forall|a: int, b: int| 0 <= a < b < order@.len() implies arrange_key(pm[order@[a]].position, last_pos) < arrange_key(
                pm[order@[b]].position,
                last_pos,
            ) || (arrange_key(pm[order@[a]].position, last_pos) == arrange_key(pm[order@[b]].position, last_pos) && order@[a]
                < order@[b]) by {
                assert(okeys@[a] == arrange_key(pm[order@[a]].position, last_pos));
                assert(okeys@[b] == arrange_key(pm[order@[b]].position, last_pos));
            }
        }
        proof {
            lemma_arranged_unique(pm, last_pos, order@);
        }
        self.player_order = order;
        Ok(())
    }
}

/// Each player of the map changed by `f`.
pub open spec fn mapped(pm: Map<u64, Player>, f: spec_fn(Player) -> Player) -> Map<u64, Player> {
    Map::new(|id: u64| pm.contains_key(id), |id: u64| f(pm[id]))
}

/// Whether a player sitting out has counted the most timeouts a `u8` holds.
pub open spec fn timeout_overflows(pm: Map<u64, Player>) -> bool {
    exists|id: u64| #[trigger] pm.contains_key(id) && pm[id].status == PlayerStatus::Out && pm[id].timeout == u8::MAX
}

pub open spec fn reset_fn() -> spec_fn(Player) -> Player {
    |p: Player| reset_player(p)
}

pub open spec fn eliminate_fn() -> spec_fn(Player) -> Player {
    |p: Player| eliminate_player(p)
}

pub open spec fn refill_fn(max_deposit: u64) -> spec_fn(Player) -> Player {
    |p: Player| refill_player(p, max_deposit)
}

impl Holdem {
    /// Whether a player sitting out has counted the most timeouts a `u8` holds.
    fn any_timeout_full(&self) -> (r: bool)
        ensures
            r == timeout_overflows(self.player_map@),
    {
        let ids = sorted_keys(&self.player_map);
        let ghost pm = self.player_map@;
        let mut i: usize = 0;
        while i < ids.len()
            invariant
                pm == self.player_map@,
                ids@.to_set() == pm.dom(),
                i <= ids@.len(),
                forall|k: int| 0 <= k < i ==> !(pm[#[trigger] ids@[k]].status == PlayerStatus::Out && pm[ids@[k]].timeout == u8::MAX),
            decreases ids@.len() - i,
        {
            let id = ids[i];
            assert(ids@.to_set().contains(id));
            match self.player_map.get(&id) {
                Some(p) => {
                    if p.status == PlayerStatus::Out && p.timeout == u8::MAX {
                        return true;
                    }
                },
                None => {},
            }
            i = i + 1;
        }
        proof {
            assert forall|id: u64| #[trigger] pm.contains_key(id) implies !(pm[id].status == PlayerStatus::Out && pm[id].timeout == u8::MAX) by {
                assert(ids@.to_set().contains(id));
                let k = choose|k: int| 0 <= k < ids@.len() && ids@[k] == id;
            }
        }
        false
    }

    /// Make all players wait for the next hand, but count one more timeout
    /// for those sitting out.
    pub fn reset_player_map_status(&mut self) -> (r: Result<(), GameError>)
        ensures
            timeout_overflows(old(self).player_map@) ==> r == Err::<(), GameError>(GameError::InternalAmountOverflow)
                && *final(self) == *old(self),
            !timeout_overflows(old(self).player_map@) ==> r is Ok && final(self).player_map@ == mapped(
                old(self).player_map@,
                reset_fn(),
            ) && *final(self) == (Holdem { player_map: final(self).player_map, ..*old(self) }),
    {
        if self.any_timeout_full() {
            return Err(GameError::InternalAmountOverflow);
        }
        let ids = sorted_keys(&self.player_map);
        let ghost pm = self.player_map@;
        let mut i: usize = 0;
        while i < ids.len()
            invariant
                ids@.to_set() == pm.dom(),
                ids@.no_duplicates(),
                strictly_increasing(ids@),
                i <= ids@.len(),
                self.player_map@.dom() == pm.dom(),
                forall|id: u64| #[trigger] pm.contains_key(id) && pm[id].status == PlayerStatus::Out ==> pm[id].timeout < u8::MAX,
                forall|id: u64| #[trigger] self.player_map@.contains_key(id) ==> self.player_map@[id] == if ids@.take(i as int).contains(id) {
                    reset_player(pm[id])
                } else {
                    pm[id]
                },
                *self == (Holdem { player_map: self.player_map, ..*old(self) }),
            decreases ids@.len() - i,
        {
            let id = ids[i];
            assert(ids@.to_set().contains(id));
            assert(!ids@.take(i as int).contains(id)) by {
                if ids@.take(i as int).contains(id) {
                    let t = ids@.take(i as int);
                    let k = choose|k: int| 0 <= k < t.len() && t[k] == id;
                    assert(ids@[k] < ids@[i as int]);
                }
            }
            let mut p = match self.player_map.get(&id) {
                Some(p) => *p,
                None => Player::default(),
            };
            if p.status == PlayerStatus::Out {
                p.timeout = p.timeout + 1;
            } else {
                p.status = PlayerStatus::Wait;
            }
            self.player_map.insert(id, p);
            proof {
                assert forall|x: u64| ids@.take(i + 1).contains(x) <==> (ids@.take(i as int).contains(x) || x == id) by {
                    let t1 = ids@.take(i + 1);
                    let t0 = ids@.take(i as int);
                    if t1.contains(x) {
                        let k = choose|k: int| 0 <= k < t1.len() && t1[k] == x;
                        if k < i {
                            assert(t0[k] == x);
                        }
                    }
                    if t0.contains(x) {
                        let k = choose|k: int| 0 <= k < t0.len() && t0[k] == x;
                        assert(t1[k] == x);
                    }
                    if x == id {
                        assert(t1[i as int] == x);
                    }
                }
            }
            i = i + 1;
        }
        proof {
            assert(ids@.take(i as int) =~= ids@);
            assert forall|id: u64| pm.contains_key(id) implies ids@.contains(id) by {
                assert(ids@.to_set().contains(id));
            }
            assert(self.player_map@ =~= mapped(pm, reset_fn()));
        }
        Ok(())
    }

    /// Mark all eliminated players: those with no chips left who have not left.
    pub(crate) fn mark_eliminated_players(&mut self)
        ensures
            final(self).player_map@ == mapped(old(self).player_map@, eliminate_fn()),
            *final(self) == (Holdem { player_map: final(self).player_map, ..*old(self) }),
    {
        let ids = sorted_keys(&self.player_map);
        let ghost pm = self.player_map@;
        let mut i: usize = 0;
        while i < ids.len()
            invariant
                ids@.to_set() == pm.dom(),
                strictly_increasing(ids@),
                i <= ids@.len(),
                self.player_map@.dom() == pm.dom(),
                forall|id: u64| #[trigger] self.player_map@.contains_key(id) ==> self.player_map@[id] == if ids@.take(i as int).contains(id) {
                    eliminate_player(pm[id])
                } else {
                    pm[id]
                },
                *self == (Holdem { player_map: self.player_map, ..*old(self) }),
            decreases ids@.len() - i,
        {
            let id = ids[i];
            assert(ids@.to_set().contains(id));
            assert(!ids@.take(i as int).contains(id)) by {
                if ids@.take(i as int).contains(id) {
                    let t = ids@.take(i as int);
                    let k = choose|k: int| 0 <= k < t.len() && t[k] == id;
                    assert(ids@[k] < ids@[i as int]);
                }
            }
            let mut p = match self.player_map.get(&id) {
                Some(p) => *p,
                None => Player::default(),
            };
            if p.status != PlayerStatus::Leave && p.chips == 0 && p.deposit == 0 {
                p.status = PlayerStatus::Eliminated;
            }
            self.player_map.insert(id, p);
            proof {
                assert forall|x: u64| ids@.take(i + 1).contains(x) <==> (ids@.take(i as int).contains(x) || x == id) by {
                    let t1 = ids@.take(i + 1);
                    let t0 = ids@.take(i as int);
                    if t1.contains(x) {
                        let k = choose|k: int| 0 <= k < t1.len() && t1[k] == x;
                        if k < i {
                            assert(t0[k] == x);
                        }
                    }
                    if t0.contains(x) {
                        let k = choose|k: int| 0 <= k < t0.len() && t0[k] == x;
                        assert(t1[k] == x);
                    }
                    if x == id {
                        assert(t1[i as int] == x);
                    }
                }
            }
            i = i + 1;
        }
        proof {
            assert(ids@.take(i as int) =~= ids@);
            assert forall|id: u64| pm.contains_key(id) implies ids@.contains(id) by {
                assert(ids@.to_set().contains(id));
            }
            assert(self.player_map@ =~= mapped(pm, eliminate_fn()));
        }
    }

    /// Move deposits into chips, up to the maximum deposit.
    pub fn fill_player_chips_with_deposits(&mut self)
        ensures
            final(self).player_map@ == mapped(old(self).player_map@, refill_fn(old(self).max_deposit)),
            *final(self) == (Holdem { player_map: final(self).player_map, ..*old(self) }),
    {
        let ids = sorted_keys(&self.player_map);
        let ghost pm = self.player_map@;
        let max_deposit = self.max_deposit;
        let mut i: usize = 0;
        while i < ids.len()
            invariant
                ids@.to_set() == pm.dom(),
                strictly_increasing(ids@),
                i <= ids@.len(),
                max_deposit == self.max_deposit,
                self.player_map@.dom() == pm.dom(),
                forall|id: u64| #[trigger] self.player_map@.contains_key(id) ==> self.player_map@[id] == if ids@.take(i as int).contains(id) {
                    refill_player(pm[id], max_deposit)
                } else {
                    pm[id]
                },
                *self == (Holdem { player_map: self.player_map, ..*old(self) }),
            decreases ids@.len() - i,
        {
            let id = ids[i];
            assert(ids@.to_set().contains(id));
            assert(!ids@.take(i as int).contains(id)) by {
                if ids@.take(i as int).contains(id) {
                    let t = ids@.take(i as int);
                    let k = choose|k: int| 0 <= k < t.len() && t[k] == id;
                    assert(ids@[k] < ids@[i as int]);
                }
            }
            let mut p = match self.player_map.get(&id) {
                Some(p) => *p,
                None => Player::default(),
            };
            if p.chips < max_deposit && p.deposit > 0 {
                let old_chips = p.chips;
                let chips = if p.deposit < max_deposit - p.chips {
                    p.chips + p.deposit
                } else {
                    max_deposit
                };
                p.chips = chips;
                p.deposit = p.deposit - (chips - old_chips);
            }
            self.player_map.insert(id, p);
            proof {
                assert forall|x: u64| ids@.take(i + 1).contains(x) <==> (ids@.take(i as int).contains(x) || x == id) by {
                    let t1 = ids@.take(i + 1);
                    let t0 = ids@.take(i as int);
                    if t1.contains(x) {
                        let k = choose|k: int| 0 <= k < t1.len() && t1[k] == x;
                        if k < i {
                            assert(t0[k] == x);
                        }
                    }
                    if t0.contains(x) {
                        let k = choose|k: int| 0 <= k < t0.len() && t0[k] == x;
                        assert(t1[k] == x);
                    }
                    if x == id {
                        assert(t1[i as int] == x);
                    }
                }
            }
            i = i + 1;
        }
        proof {
            assert(ids@.take(i as int) =~= ids@);
            assert forall|id: u64| pm.contains_key(id) implies ids@.contains(id) by {
                assert(ids@.to_set().contains(id));
            }
            assert(self.player_map@ =~= mapped(pm, refill_fn(max_deposit)));
        }
    }

    /// Remove the players with `Leave`, `Out` or `Eliminated` status and
    /// return them, by increasing id.
    pub fn kick_players(&mut self) -> (r: Vec<Player>)
        ensures
            r@ == players_of(old(self).player_map@, old(self).ids().filter(removable_pred(old(self).player_map@))),
            final(self).player_map@ == old(self).player_map@.restrict(
                old(self).player_map@.dom().filter(|id: u64| !is_removable(old(self).player_map@[id].status)),
            ),
            *final(self) == (Holdem { player_map: final(self).player_map, ..*old(self) }),
    {
        let ids = sorted_keys(&self.player_map);
        let ghost pm = self.player_map@;
        let mut removed: Vec<Player> = Vec::new();
        let mut i: usize = 0;
        while i < ids.len()
            invariant
                ids@ == key_seq(pm),
                ids@.to_set() == pm.dom(),
                strictly_increasing(ids@),
                i <= ids@.len(),
                removed@ == players_of(pm, ids@.take(i as int).filter(removable_pred(pm))),
                forall|id: u64| #[trigger] self.player_map@.contains_key(id) <==> pm.contains_key(id) && !(ids@.take(i as int).contains(id) && is_removable(pm[id].status)),
                forall|id: u64| #[trigger] self.player_map@.contains_key(id) ==> self.player_map@[id] == pm[id],
                *self == (Holdem { player_map: self.player_map, ..*old(self) }),
            decreases ids@.len() - i,
        {
            let id = ids[i];
            assert(ids@.to_set().contains(id));
            proof {
                lemma_filter_take_step(ids@, removable_pred(pm), i as int);
                assert forall|x: u64| ids@.take(i + 1).contains(x) <==> (ids@.take(i as int).contains(x) || x == id) by {
                    let t1 = ids@.take(i + 1);
                    let t0 = ids@.take(i as int);
                    if t1.contains(x) {
                        let k = choose|k: int| 0 <= k < t1.len() && t1[k] == x;
                        if k < i {
                            assert(t0[k] == x);
                        }
                    }
                    if t0.contains(x) {
                        let k = choose|k: int| 0 <= k < t0.len() && t0[k] == x;
                        assert(t1[k] == x);
                    }
                    if x == id {
                        assert(t1[i as int] == x);
                    }
                }
            }
            let p = match self.player_map.get(&id) {
                Some(p) => *p,
                None => Player::default(),
            };
            if p.status == PlayerStatus::Leave || p.status == PlayerStatus::Out || p.status
                == PlayerStatus::Eliminated {
                self.player_map.remove(&id);
                let ghost before = removed@;
                removed.push(p);
                assert(removed@ =~= players_of(pm, ids@.take(i + 1).filter(removable_pred(pm))));
            }
            i = i + 1;
        }
        proof {
            assert(ids@.take(i as int) =~= ids@);
            assert forall|id: u64| pm.contains_key(id) implies ids@.contains(id) by {
                assert(ids@.to_set().contains(id));
            }
            assert(self.player_map@ =~= pm.restrict(pm.dom().filter(|id: u64| !is_removable(pm[id].status))));
        }
        removed
    }

    /// The first of `next_players` who still has to act on this street: one
    /// who bet less than the street bet, or who waits.
    pub(crate) fn next_action_player(&mut self, next_players: Vec<u64>) -> (r: Option<u64>)
        ensures
            *final(self) == *old(self),
            r == first_needing(*old(self), next_players@, 0),
    {
        let mut i: usize = 0;
        while i < next_players.len()
            invariant
                i <= next_players@.len(),
                first_needing(*self, next_players@, 0) == first_needing(*self, next_players@, i as int),
            decreases next_players@.len() - i,
        {
            let id = next_players[i];
            match self.player_map.get(&id) {
                Some(p) => {
                    let bet = self.get_player_bet(id);
                    if bet < self.street_bet || p.status == PlayerStatus::Wait {
                        return Some(id);
                    }
                },
                None => {},
            }
            i = i + 1;
        }
        None
    }

    /// Seat players joining by an internal event at the first free seats
    /// (among 11), folded until the next hand.
    pub fn internal_add_players(&mut self, add_players: Vec<InternalPlayerJoin>) -> (r: Result<(), GameError>)
        ensures
            r is Ok <==> seat_players(old(self).player_map@, add_players@) is Some,
            r is Err ==> r->Err_0 == GameError::CannotJoinFullTable,
            r is Ok ==> final(self).player_map@ == seat_players(old(self).player_map@, add_players@)->0,
            r is Ok ==> *final(self) == (Holdem { player_map: final(self).player_map, ..*old(self) }),
    {
        let mut i: usize = 0;
        while i < add_players.len()
            invariant
                i <= add_players@.len(),
                seat_players(old(self).player_map@, add_players@.take(i as int)) == Some(self.player_map@),
                *self == (Holdem { player_map: self.player_map, ..*old(self) }),
            decreases add_players@.len() - i,
        {
            let p = add_players[i];
            proof {
                assert(add_players@.take(i + 1).drop_last() =~= add_players@.take(i as int));
            }
            let mut pos: usize = 0;
            let mut found = false;
            while pos < 11
                invariant_except_break
                    !found,
                invariant
                    pos <= 11,
                    first_free_from(self.player_map@, 0) == first_free_from(self.player_map@, pos as int),
                ensures
                    found ==> pos < 11 && first_free_from(self.player_map@, 0) == pos as int,
                    !found ==> first_free_from(self.player_map@, 0) == -1,
                decreases 11 - pos,
            {
                if !self.position_occupied(pos) {
                    found = true;
                    break;
                }
                pos = pos + 1;
            }
            if !found {
                proof {
                    lemma_seat_none(old(self).player_map@, add_players@, i as int);
                }
                return Err(GameError::CannotJoinFullTable);
            }
            let player = Player::new_with_defaults(p.id, p.chips, pos as u8, PlayerStatus::Fold);
            self.player_map.insert(p.id, player);
            i = i + 1;
        }
        assert(add_players@.take(i as int) =~= add_players@);
        Ok(())
    }
}

/// Once a player finds no seat, seating the rest fails too.
proof fn lemma_seat_none(pm: Map<u64, Player>, ps: Seq<InternalPlayerJoin>, i: int)
    requires
        0 <= i < ps.len(),
        seat_players(pm, ps.take(i + 1)) is None,
    ensures
        seat_players(pm, ps) is None,
    decreases ps.len() - i,
{
    if i + 1 < ps.len() {
        assert(ps.take(i + 2).drop_last() =~= ps.take(i + 1));
        lemma_seat_none(pm, ps, i + 1);
    } else {
        assert(ps.take(i + 1) =~= ps);
    }
}

} // verus!
