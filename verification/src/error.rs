use vstd::prelude::*;

verus! {

/// Stable machine-readable errors of the engine.
#[derive(Debug, Clone, Copy, PartialEq, Eq, Structural)]
pub enum EngineError {
    InvalidInitialState,
    HandAlreadyDecided,
    NoActiveHand,
    HandStillInProgress,
    MatchAlreadyDecided,
    ActOutOfTurn,
    CardNotInHand,
    HideNotAllowedInFirstRound,
    RaiseNotAllowed,
    InvalidRaiseTarget,
    NoPendingRaise,
    NoPendingElevenDecision,
    RaisePending,
    DecisionPending,
    InvalidPlayer,
    SerializationFailed,
}

/// The machine-readable code of each error.
pub open spec fn engine_error_code(error: EngineError) -> Seq<char> {
    match error {
        EngineError::InvalidInitialState => "INVALID_INITIAL_STATE"@,
        EngineError::HandAlreadyDecided => "HAND_ALREADY_DECIDED"@,
        EngineError::NoActiveHand => "NO_ACTIVE_HAND"@,
        EngineError::HandStillInProgress => "HAND_STILL_IN_PROGRESS"@,
        EngineError::MatchAlreadyDecided => "MATCH_ALREADY_DECIDED"@,
        EngineError::ActOutOfTurn => "ACT_OUT_OF_TURN"@,
        EngineError::CardNotInHand => "CARD_NOT_IN_HAND"@,
        EngineError::HideNotAllowedInFirstRound => "HIDE_NOT_ALLOWED_IN_FIRST_ROUND"@,
        EngineError::RaiseNotAllowed => "RAISE_NOT_ALLOWED"@,
        EngineError::InvalidRaiseTarget => "INVALID_RAISE_TARGET"@,
        EngineError::NoPendingRaise => "NO_PENDING_RAISE"@,
        EngineError::NoPendingElevenDecision => "NO_PENDING_ELEVEN_DECISION"@,
        EngineError::RaisePending => "RAISE_PENDING"@,
        EngineError::DecisionPending => "DECISION_PENDING"@,
        EngineError::InvalidPlayer => "INVALID_PLAYER"@,
        EngineError::SerializationFailed => "SERIALIZATION_FAILED"@,
    }
}

/// The human-readable message of each error.
pub open spec fn engine_error_message(error: EngineError) -> Seq<char> {
    match error {
        EngineError::InvalidInitialState => "invalid initial state"@,
        EngineError::HandAlreadyDecided => "hand already decided"@,
        EngineError::NoActiveHand => "no active hand"@,
        EngineError::HandStillInProgress => "hand still in progress"@,
        EngineError::MatchAlreadyDecided => "match already decided"@,
        EngineError::ActOutOfTurn => "act out of turn"@,
        EngineError::CardNotInHand => "card not in hand"@,
        EngineError::HideNotAllowedInFirstRound => "hide not allowed in first round"@,
        EngineError::RaiseNotAllowed => "raise not allowed"@,
        EngineError::InvalidRaiseTarget => "invalid raise target"@,
        EngineError::NoPendingRaise => "no pending raise"@,
        EngineError::NoPendingElevenDecision => "no pending eleven decision"@,
        EngineError::RaisePending => "a pending raise must be answered first"@,
        EngineError::DecisionPending => "a pending decision must be answered first"@,
        EngineError::InvalidPlayer => "invalid player"@,
        EngineError::SerializationFailed => "serialization failed"@,
    }
}

impl EngineError {
    pub fn code(&self) -> (r: &'static str)
        ensures
            r@ == engine_error_code(*self),
    {
        match self {
            EngineError::InvalidInitialState => "INVALID_INITIAL_STATE",
            EngineError::HandAlreadyDecided => "HAND_ALREADY_DECIDED",
            EngineError::NoActiveHand => "NO_ACTIVE_HAND",
            EngineError::HandStillInProgress => "HAND_STILL_IN_PROGRESS",
            EngineError::MatchAlreadyDecided => "MATCH_ALREADY_DECIDED",
            EngineError::ActOutOfTurn => "ACT_OUT_OF_TURN",
            EngineError::CardNotInHand => "CARD_NOT_IN_HAND",
            EngineError::HideNotAllowedInFirstRound => "HIDE_NOT_ALLOWED_IN_FIRST_ROUND",
            EngineError::RaiseNotAllowed => "RAISE_NOT_ALLOWED",
            EngineError::InvalidRaiseTarget => "INVALID_RAISE_TARGET",
            EngineError::NoPendingRaise => "NO_PENDING_RAISE",
            EngineError::NoPendingElevenDecision => "NO_PENDING_ELEVEN_DECISION",
            EngineError::RaisePending => "RAISE_PENDING",
            EngineError::DecisionPending => "DECISION_PENDING",
            EngineError::InvalidPlayer => "INVALID_PLAYER",
            EngineError::SerializationFailed => "SERIALIZATION_FAILED",
        }
    }

    /// The human-readable message of the error.
    pub fn message(&self) -> (r: &'static str)
        ensures
            r@ == engine_error_message(*self),
    {
        match self {
            EngineError::InvalidInitialState => "invalid initial state",
            EngineError::HandAlreadyDecided => "hand already decided",
            EngineError::NoActiveHand => "no active hand",
            EngineError::HandStillInProgress => "hand still in progress",
            EngineError::MatchAlreadyDecided => "match already decided",
            EngineError::ActOutOfTurn => "act out of turn",
            EngineError::CardNotInHand => "card not in hand",
            EngineError::HideNotAllowedInFirstRound => "hide not allowed in first round",
            EngineError::RaiseNotAllowed => "raise not allowed",
            EngineError::InvalidRaiseTarget => "invalid raise target",
            EngineError::NoPendingRaise => "no pending raise",
            EngineError::NoPendingElevenDecision => "no pending eleven decision",
            EngineError::RaisePending => "a pending raise must be answered first",
            EngineError::DecisionPending => "a pending decision must be answered first",
            EngineError::InvalidPlayer => "invalid player",
            EngineError::SerializationFailed => "serialization failed",
        }
    }
}

} // verus!
