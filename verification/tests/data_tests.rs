//! The game's data goes through borsh and comes back the same: each value
//! is written as the borsh tuple of its fields and read back.

use borsh::{BorshDeserialize, BorshSerialize};
use race_poker::account::HoldemAccount;
use race_poker::essential::{GameEvent, Player, PlayerStatus, Pot};

const ALICE: u64 = 0;
const BOB: u64 = 1;
const CAROL: u64 = 2;

fn status_tag(s: PlayerStatus) -> u8 {
    match s {
        PlayerStatus::Wait => 0,
        PlayerStatus::Waitbb => 1,
        PlayerStatus::Acted => 2,
        PlayerStatus::Acting => 3,
        PlayerStatus::Allin => 4,
        PlayerStatus::Fold => 5,
        PlayerStatus::Init => 6,
        PlayerStatus::Leave => 7,
        PlayerStatus::Out => 8,
        PlayerStatus::Eliminated => 9,
    }
}

fn status_of(tag: u8) -> PlayerStatus {
    match tag {
        0 => PlayerStatus::Wait,
        1 => PlayerStatus::Waitbb,
        2 => PlayerStatus::Acted,
        3 => PlayerStatus::Acting,
        4 => PlayerStatus::Allin,
        5 => PlayerStatus::Fold,
        6 => PlayerStatus::Init,
        7 => PlayerStatus::Leave,
        8 => PlayerStatus::Out,
        _ => PlayerStatus::Eliminated,
    }
}

fn event_fields(e: GameEvent) -> (u8, u64) {
    match e {
        GameEvent::Bet(a) => (0, a),
        GameEvent::Check => (1, 0),
        GameEvent::Call => (2, 0),
        GameEvent::Fold => (3, 0),
        GameEvent::Raise(a) => (4, a),
        GameEvent::SitIn => (5, 0),
        GameEvent::SitOut => (6, 0),
        GameEvent::UseTimeCard => (7, 0),
    }
}

fn event_of(fields: (u8, u64)) -> GameEvent {
    match fields.0 {
        0 => GameEvent::Bet(fields.1),
        1 => GameEvent::Check,
        2 => GameEvent::Call,
        3 => GameEvent::Fold,
        4 => GameEvent::Raise(fields.1),
        5 => GameEvent::SitIn,
        6 => GameEvent::SitOut,
        _ => GameEvent::UseTimeCard,
    }
}

#[test]
fn test_borsh_player() {
    let player = Player::new_with_timeout(ALICE, 1000, 1, 0);
    let fields = (
        player.id,
        player.chips,
        player.position,
        status_tag(player.status),
        player.timeout,
        player.deposit,
        player.time_cards,
        player.is_afk,
    );
    let player_ser = fields.try_to_vec().unwrap();
    let (id, chips, position, status, timeout, deposit, time_cards, is_afk) =
        <(u64, u64, u8, u8, u8, u64, u8, bool)>::try_from_slice(&player_ser).unwrap();
    let mut player_de = Player::new(id, chips, position, status_of(status), timeout, deposit, time_cards);
    player_de.is_afk = is_afk;
    assert_eq!(player_de, player);
}

#[test]
fn test_borsh_pot() {
    let pot = Pot {
        owners: vec![ALICE, BOB, CAROL],
        winners: vec![ALICE],
        amount: 120,
    };
    let pot_ser = (pot.owners.clone(), pot.winners.clone(), pot.amount).try_to_vec().unwrap();
    let (owners, winners, amount) = <(Vec<u64>, Vec<u64>, u64)>::try_from_slice(&pot_ser).unwrap();
    let pot_de = Pot { owners, winners, amount };
    assert_eq!(pot_de, pot);
}

#[test]
fn test_borsh_holdem_account() {
    let acct = HoldemAccount {
        sb: 10,
        bb: 20,
        ante: 0,
        rake: 3,
        rake_cap: 1,
        max_deposit: 2000,
        theme: None,
    };
    let acct_ser = (acct.sb, acct.bb, acct.ante, acct.rake, acct.rake_cap, acct.max_deposit, acct.theme.clone())
        .try_to_vec()
        .unwrap();
    println!("Game Account Ser data {:?}", acct_ser);
    let (sb, bb, ante, rake, rake_cap, max_deposit, theme) =
        <(u64, u64, u64, u16, u8, u64, Option<String>)>::try_from_slice(&acct_ser).unwrap();
    let acct_de = HoldemAccount { sb, bb, ante, rake, rake_cap, max_deposit, theme };
    assert_eq!(acct_de, acct);
}

#[test]
fn test_borsh_game_event() {
    let evts = vec![
        GameEvent::Call,
        GameEvent::Bet(20),
        GameEvent::Fold,
        GameEvent::Check,
        GameEvent::Raise(60),
    ];
    for evt in evts.into_iter() {
        println!("Event: {:?}", evt);
        let evt_ser = event_fields(evt).try_to_vec().unwrap();
        let evt_de = event_of(<(u8, u64)>::try_from_slice(&evt_ser).unwrap());
        assert_eq!(evt_de, evt);
    }
}
