//! What a tournament and its tables exchange: the state of a table, its
//! players, the players sitting in, and the results of a hand.

use vstd::prelude::*;

verus! {

pub const MTT_DEFAULT_TIME_CARDS: u8 = 5;

/// A player at a tournament table.
#[derive(Debug, Clone, Copy, PartialEq, Eq, Structural)]
pub struct MttTablePlayer {
    pub id: u64,
    pub chips: u64,
    pub position: u8,
    pub time_cards: u8,
}

impl MttTablePlayer {
    pub fn new(id: u64, chips: u64, position: u8, time_cards: u8) -> (r: Self)
        ensures
            r == (MttTablePlayer { id, chips, position, time_cards }),
    {
        MttTablePlayer { id, chips, position, time_cards }
    }

    /// A player with the default number of time cards.
    pub fn new_with_defaults(id: u64, chips: u64, position: u8) -> (r: Self)
        ensures
            r == (MttTablePlayer { id, chips, position, time_cards: MTT_DEFAULT_TIME_CARDS }),
    {
        Self::new(id, chips, position, MTT_DEFAULT_TIME_CARDS)
    }
}

/// A player sitting in at a table.
#[derive(Debug, Clone, Copy, PartialEq, Eq, Structural)]
pub struct MttTableSitin {
    pub id: u64,
    pub chips: u64,
    /// the time cards the player still has
    pub time_cards: u8,
    /// whether the player sits at a table for the first time (first entry
    /// or rebuy) rather than being moved from another table; such a player
    /// waits for the big blind before being dealt in
    pub first_time_sit: bool,
}

impl MttTableSitin {
    pub fn new(id: u64, chips: u64, time_cards: u8, first_time_sit: bool) -> (r: Self)
        ensures
            r == (MttTableSitin { id, chips, time_cards, first_time_sit }),
    {
        MttTableSitin { id, chips, time_cards, first_time_sit }
    }

    /// A first-time player with the default number of time cards.
    pub fn new_with_defaults(id: u64, chips: u64) -> (r: Self)
        ensures
            r == (MttTableSitin { id, chips, time_cards: MTT_DEFAULT_TIME_CARDS, first_time_sit: true }),
    {
        Self::new(id, chips, MTT_DEFAULT_TIME_CARDS, true)
    }
}

/// A player a table starts with.
#[derive(Debug, Clone, Copy, PartialEq, Eq, Structural)]
pub struct MttTablePlayerInit {
    pub id: u64,
    pub chips: u64,
}

impl MttTablePlayerInit {
    pub fn new(id: u64, chips: u64) -> (r: Self)
        ensures
            r == (MttTablePlayerInit { id, chips }),
    {
        MttTablePlayerInit { id, chips }
    }
}

/// What a table starts with.
#[derive(Debug, Clone, PartialEq, Eq)]
pub struct MttTableInit {
    pub table_id: usize,
    pub sb: u64,
    pub bb: u64,
    pub ante: u64,
    pub players: Vec<MttTablePlayerInit>,
}

impl MttTableInit {
    pub fn new(table_id: usize, sb: u64, bb: u64, ante: u64, players: Vec<MttTablePlayerInit>) -> (r: Self)
        ensures
            r.table_id == table_id && r.sb == sb && r.bb == bb && r.ante == ante,
            r.players@ == players@,
    {
        MttTableInit { table_id, sb, bb, ante, players }
    }
}

/// The state of a table as the tournament sees it.
#[derive(Debug, Clone, PartialEq, Eq)]
pub struct MttTableState {
    pub table_id: usize,
    pub hand_id: usize,
    pub btn: u8,
    pub sb: u64,
    pub bb: u64,
    pub ante: u64,
    pub players: Vec<MttTablePlayer>,
    pub next_game_start: u64,
}

/// Whether some player of `ps` sits at `position`.
pub open spec fn seat_taken(ps: Seq<MttTablePlayer>, position: int) -> bool {
    exists|i: int| 0 <= i < ps.len() && ps[i].position == position
}

/// The players a table starts with: seated in their order, with the
/// default number of time cards.
pub open spec fn seated(ps: Seq<MttTablePlayerInit>) -> Seq<MttTablePlayer> {
    Seq::new(
        ps.len(),
        |i: int|
            MttTablePlayer { id: ps[i].id, chips: ps[i].chips, position: i as u8, time_cards: MTT_DEFAULT_TIME_CARDS },
    )
}

/// Players other than `id`.
pub open spec fn not_id(id: u64) -> spec_fn(MttTablePlayer) -> bool {
    |p: MttTablePlayer| p.id != id
}

impl MttTableState {
    pub fn new(table_id: usize, sb: u64, bb: u64, ante: u64, players: Vec<MttTablePlayer>) -> (r: Self)
        ensures
            r.table_id == table_id && r.hand_id == 0 && r.btn == 0 && r.sb == sb && r.bb == bb && r.ante == ante,
            r.players@ == players@,
            r.next_game_start == 0,
    {
        MttTableState { table_id, hand_id: 0, btn: 0, sb, bb, ante, players, next_game_start: 0 }
    }

    /// The state of a new table: no hand played yet, the players seated in
    /// their order.
    pub fn from_init(init: MttTableInit) -> (r: Self)
        ensures
            r.table_id == init.table_id && r.hand_id == 0 && r.btn == 0,
            r.sb == init.sb && r.bb == init.bb && r.ante == init.ante,
            r.players@ == seated(init.players@),
            r.next_game_start == 0,
    {
        let mut players: Vec<MttTablePlayer> = Vec::new();
        let mut i: usize = 0;
        while i < init.players.len()
            invariant
                i <= init.players@.len(),
                players@ == seated(init.players@.take(i as int)),
            decreases init.players@.len() - i,
        {
            let p = init.players[i];
            players.push(MttTablePlayer::new(p.id, p.chips, i as u8, MTT_DEFAULT_TIME_CARDS));
            assert(players@ =~= seated(init.players@.take(i + 1)));
            i = i + 1;
        }
        assert(init.players@.take(i as int) =~= init.players@);
        MttTableState {
            table_id: init.table_id,
            hand_id: 0,
            btn: 0,
            sb: init.sb,
            bb: init.bb,
            ante: init.ante,
            players,
            next_game_start: 0,
        }
    }

    /// Remove a player from the table; removing one who is not there
    /// changes nothing, so this always succeeds.
    pub fn remove_player(&mut self, player_id: u64) -> (r: bool)
        ensures
            r,
            final(self).players@ == old(self).players@.filter(not_id(player_id)),
            *final(self) == (MttTableState { players: final(self).players, ..*old(self) }),
    {
        let mut kept: Vec<MttTablePlayer> = Vec::new();
        let mut i: usize = 0;
        while i < self.players.len()
            invariant
                i <= self.players@.len(),
                kept@ == self.players@.take(i as int).filter(not_id(player_id)),
            decreases self.players@.len() - i,
        {
            proof {
                crate::holdem_evaluator::lemma_filter_take_step(self.players@, not_id(player_id), i as int);
            }
            let p = self.players[i];
            if p.id != player_id {
                kept.push(p);
            }
            i = i + 1;
        }
        assert(self.players@.take(i as int) =~= self.players@);
        self.players = kept;
        true
    }

    /// Seat a player at the first free seat of a table of `table_size`
    /// seats; when the table is full, nothing changes and false is
    /// returned.
    pub fn add_player(&mut self, player: &mut MttTablePlayer, table_size: u8) -> (r: bool)
        ensures
            r ==> {
                let p = final(player).position;
                &&& p < table_size && !seat_taken(old(self).players@, p as int)
                &&& forall|q: int| 0 <= q < p ==> seat_taken(old(self).players@, q)
                &&& *final(player) == (MttTablePlayer { position: p, ..*old(player) })
                &&& final(self).players@ == old(self).players@.push(*final(player))
                &&& *final(self) == (MttTableState { players: final(self).players, ..*old(self) })
            },
            !r ==> {
                &&& forall|q: int| 0 <= q < table_size ==> seat_taken(old(self).players@, q)
                &&& *final(self) == *old(self) && *final(player) == *old(player)
            },
    {
        match self.find_position(table_size) {
            Some(p) => {
                player.position = p;
                self.players.push(*player);
                true
            },
            None => false,
        }
    }

    /// The first free seat of a table of `table_size` seats, if any.
    pub fn find_position(&self, table_size: u8) -> (r: Option<u8>)
        ensures
            r matches Some(p) ==> p < table_size && !seat_taken(self.players@, p as int) && forall|q: int|
                0 <= q < p ==> seat_taken(self.players@, q),
            r is None ==> forall|q: int| 0 <= q < table_size ==> seat_taken(self.players@, q),
    {
        let mut i: u8 = 0;
        while i < table_size
            invariant
                i <= table_size,
                forall|q: int| 0 <= q < i ==> seat_taken(self.players@, q),
            decreases table_size - i,
        {
            let mut found = false;
            let mut j: usize = 0;
            while j < self.players.len()
                invariant
                    j <= self.players@.len(),
                    found <==> exists|k: int| 0 <= k < j && self.players@[k].position == i,
                decreases self.players@.len() - j,
            {
                if self.players[j].position == i {
                    found = true;
                }
                j = j + 1;
            }
            if !found {
                return Some(i);
            }
            i = i + 1;
        }
        None
    }
}

/// What became of a player in a hand.
#[derive(Debug, Clone, Copy, PartialEq, Eq, Structural)]
pub enum PlayerResultStatus {
    Normal,
    Sitout,
    Eliminated,
}

/// A player's chips won or lost in a hand.
#[derive(Debug, Clone, Copy, PartialEq, Eq, Structural)]
pub enum ChipsChange {
    Add(u64),
    Sub(u64),
}

/// A player's result of a hand.
#[derive(Debug, Clone, Copy, PartialEq, Eq, Structural)]
pub struct PlayerResult {
    pub player_id: u64,
    pub chips: u64,
    pub chips_change: Option<ChipsChange>,
    /// the player's seat in this hand
    pub position: u8,
    pub status: PlayerResultStatus,
}

impl PlayerResult {
    pub fn new(
        player_id: u64,
        chips: u64,
        chips_change: Option<ChipsChange>,
        position: u8,
        status: PlayerResultStatus,
    ) -> (r: Self)
        ensures
            r == (PlayerResult { player_id, chips, chips_change, position, status }),
    {
        PlayerResult { player_id, chips, chips_change, position, status }
    }
}

/// What the tournament and its tables tell each other.
#[derive(Debug, Clone, PartialEq, Eq)]
pub enum HoldemBridgeEvent {
    /// from the tournament: start a hand with these blinds, without the
    /// players who moved away
    StartGame { sb: u64, bb: u64, ante: u64, sitout_players: Vec<u64> },
    /// from the tournament: players sit in at the table
    SitinPlayers { sitins: Vec<MttTableSitin> },
    /// from the tournament: all players leave and the table closes
    CloseTable,
    /// from a table: the result of a hand
    GameResult {
        hand_id: usize,
        table_id: usize,
        btn: u8,
        player_results: Vec<PlayerResult>,
        table: MttTableState,
    },
    /// from a table: which of the players sent there sat in, and which
    /// could not and sat out
    SitResult { table_id: usize, sitin_players: Vec<u64>, sitout_players: Vec<u64> },
}

/// The first index of `s`, from `i` on, holding `x`, if any.
pub open spec fn index_from(s: Seq<u8>, x: u8, i: int) -> Option<int>
    decreases s.len() - i,
{
    if i < 0 || i >= s.len() {
        None
    } else if s[i] == x {
        Some(i)
    } else {
        index_from(s, x, i + 1)
    }
}

/// The first result of the player, if any.
pub open spec fn result_from(rs: Seq<PlayerResult>, id: u64, i: int) -> Option<PlayerResult>
    decreases rs.len() - i,
{
    if i < 0 || i >= rs.len() {
        None
    } else if rs[i].player_id == id {
        Some(rs[i])
    } else {
        result_from(rs, id, i + 1)
    }
}

/// The seats of the results, in order.
pub open spec fn seats(rs: Seq<PlayerResult>) -> Seq<u8> {
    rs.map_values(|r: PlayerResult| r.position)
}

/// The place of a player's seat counted from the button: the button is 0,
/// the small blind 1, the big blind 2, and so on, going round the seats of
/// the results in their order from the button's.
pub open spec fn relative_position(player_id: u64, btn: u8, rs: Seq<PlayerResult>) -> Option<int> {
    match result_from(rs, player_id, 0) {
        None => None,
        Some(p) => {
            let ps = seats(rs);
            match index_from(ps, btn, 0) {
                None => None,
                Some(mid) => index_from(ps.skip(mid) + ps.take(mid), p.position, 0),
            }
        },
    }
}

/// The first index of `x` in `s`.
fn find_index(s: &Vec<u8>, x: u8) -> (r: Option<usize>)
    ensures
        r matches Some(i) ==> index_from(s@, x, 0) == Some(i as int) && i < s@.len(),
        r is None ==> index_from(s@, x, 0) is None,
{
    let mut i: usize = 0;
    while i < s.len()
        invariant
            i <= s@.len(),
            index_from(s@, x, 0) == index_from(s@, x, i as int),
        decreases s@.len() - i,
    {
        if s[i] == x {
            return Some(i);
        }
        i = i + 1;
    }
    None
}

/// Where a player's seat lies counted from the button: the button is 0,
/// the small blind 1, the big blind 2, and so on.  None when the player or
/// the button has no result.
pub fn get_relative_position(player_id: u64, btn: u8, player_results: &Vec<PlayerResult>) -> (r: Option<u8>)
    ensures
        match relative_position(player_id, btn, player_results@) {
            Some(i) => r == Some(i as u8),
            None => r is None,
        },
{
    let ghost rs = player_results@;
    let mut k: usize = 0;
    let mut found: Option<PlayerResult> = None;
    while k < player_results.len()
        invariant_except_break
            found is None,
            result_from(rs, player_id, 0) == result_from(rs, player_id, k as int),
        invariant
            rs == player_results@,
            k <= rs.len(),
        ensures
            found == result_from(rs, player_id, 0),
        decreases rs.len() - k,
    {
        if player_results[k].player_id == player_id {
            assert(result_from(rs, player_id, k as int) == Some(rs[k as int]));
            found = Some(player_results[k]);
            break;
        }
        k = k + 1;
    }
    let player = match found {
        Some(p) => p,
        None => {
            return None;
        },
    };
    let mut positions: Vec<u8> = Vec::new();
    let mut i: usize = 0;
    while i < player_results.len()
        invariant
            rs == player_results@,
            i <= rs.len(),
            positions@ == seats(rs.take(i as int)),
        decreases rs.len() - i,
    {
        positions.push(player_results[i].position);
        assert(positions@ =~= seats(rs.take(i + 1)));
        i = i + 1;
    }
    assert(rs.take(i as int) =~= rs);
    let mid = match find_index(&positions, btn) {
        Some(m) => m,
        None => {
            return None;
        },
    };
    let mut rotated: Vec<u8> = Vec::new();
    let n = positions.len();
    let mut j: usize = mid;
    while j < n
        invariant
            n == positions@.len(),
            mid <= j <= n,
            rotated@ == positions@.subrange(mid as int, j as int),
        decreases n - j,
    {
        rotated.push(positions[j]);
        assert(rotated@ =~= positions@.subrange(mid as int, j + 1));
        j = j + 1;
    }
    let mut t: usize = 0;
    while t < mid
        invariant
            n == positions@.len(),
            mid <= n,
            t <= mid,
            rotated@ == positions@.skip(mid as int) + positions@.take(t as int),
        decreases mid - t,
    {
        rotated.push(positions[t]);
        assert(rotated@ =~= positions@.skip(mid as int) + positions@.take(t + 1));
        t = t + 1;
    }
    assert(positions@.subrange(mid as int, n as int) =~= positions@.skip(mid as int));
    match find_index(&rotated, player.position) {
        Some(idx) => Some(idx as u8),
        None => None,
    }
}

} // verus!
