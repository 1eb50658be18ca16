//! Errors raised by the poker game logic.

use vstd::prelude::*;

verus! {

/// The reasons for which a poker operation is refused.
#[derive(Debug, Clone, Copy, PartialEq, Eq, Structural)]
pub enum GameError {
    InvalidPlayer,
    InternalPlayerNotFound,
    InternalPotHasNoOwner,
    InternalMalformedTotalBet,
    InternalCannotFindActionPlayer,
    InternalPlayerNotInGameButAssignedCards,
    InternalFailedToRevealBoard,
    InternalUnexpectedStreet,
    InternalAmountOverflow,
    HeadsUpMissingSb,
    HeadsUpMissingBb,
    MplayersMissingSb,
    MplayersMissingBb,
    NotTheActingPlayer,
    NotTheActingPlayerToBet,
    NotTheActingPlayerToRaise,
    NotTheActingPlayerToCheck,
    NotTheActingPlayerToFold,
    NotTheActingPlayerToCall,
    PlayerCantBet,
    BetAmountIsTooSmall,
    BetExceedsPotLimit,
    RaiseAmountIsTooSmall,
    RaiseExceedsPotLimit,
    PlayerAlreadyBetted,
    PlayerCantCheck,
    PlayerCantRaise,
    NextButtonPlayerNotFound,
    NextActionPlayerMissing,
    PotWinnerMissing,
    CannotJoinFullTable,
    InvalidHoleCardsNumber,
    HoleCardMissing,
    InvalidCards,
    StrongestHandNotFound,
    SingleWinnerMissing,
    NoTimeCards,
    TimeCardAlreadyInUse,
    WaitTimeoutErrorInSettle,
    FlopCardsError,
    TurnCardError,
    RiverCardError,
    TableNotFound,
    PlayerNotFound,
    EmptyBlindRules,
    InvalidBridgeEvent,
    InternalInvalidBridgeEvent,
    DuplicatedPlayerInRelocate,
    InvalidPlayerInStartGame,
    CustomEventNotAllowed,
    LeaveNotAllowed,
    InvalidTableId,
    InvalidIndexUsage,
    PlayerIdNotFound,
    InvalidEntryCloseTime,
    InvalidPrizeRules,
    InvalidRakeAndBounty,
    StartChipsTooLow,
    BountyWinnerMissing,
    PrizeSharesMissing,
    MalformedGameAccountData,
}

/// A successful result with nothing in it is `Ok(())`.
pub proof fn lemma_ok_unit(r: Result<(), GameError>)
    requires
        r is Ok,
    ensures
        r == Ok::<(), GameError>(()),
{
    match r {
        Ok(u) => {
            assert(u == ());
        },
        Err(_) => {},
    }
}

} // verus!
