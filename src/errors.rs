use vstd::prelude::*;

verus! {

/// Failures that game operations report to their caller.
#[derive(Debug, Clone, Copy, PartialEq, Eq, Structural)]
pub enum GameError {
    InvalidMove,
    PlayerNotFound,
    DeckInvalid,
    GameNotFound,
    EmptyDeck,
    InvalidTarget,
    NoValidCard,
}

/// Failures that deck and player validation report.
#[derive(Debug, Clone, Copy, PartialEq, Eq, Structural)]
pub enum ValidationError {
    InvalidDeckSize,
    InvalidCardCount,
    InvalidPlayerState,
}

} // verus!
