use vstd::prelude::*;

use crate::cards::{Rank, Suit};
use crate::state::{PendingDecisionKind, PendingRaise, Player, Score, Visibility};

verus! {

/// What both players may see of a hand.
#[derive(Debug, Clone, PartialEq, Eq)]
pub struct PublicState {
    pub next_player: Option<Player>,
    pub hand_value: u8,
    pub hand_winner: Option<Player>,
    pub match_winner: Option<Player>,
    pub score: Score,
    pub completed_rounds: Vec<PublicCompletedRound>,
    pub current_round: PublicRound,
    pub pending_raise: Option<PendingRaise>,
    pub pending_decision: Option<PublicDecision>,
}

#[derive(Debug, Clone, Copy, PartialEq, Eq, Structural)]
pub struct PublicCompletedRound {
    pub leader: Player,
    pub winner: Option<Player>,
}

#[derive(Debug, Clone, PartialEq, Eq)]
pub struct PublicRound {
    pub leader: Player,
    pub plays: Vec<PublicPlay>,
}

/// A play as the opponent sees it: the card is shown only when it was played face up.
#[derive(Debug, Clone, Copy, PartialEq, Eq, Structural)]
pub struct PublicPlay {
    pub player: Player,
    pub visibility: Visibility,
    pub card: Option<PublicCard>,
}

#[derive(Debug, Clone, Copy, PartialEq, Eq, Structural)]
pub struct PublicCard {
    pub rank: Rank,
    pub suit: Suit,
}

#[derive(Debug, Clone, Copy, PartialEq, Eq, Structural)]
pub struct PublicDecision {
    pub kind: PendingDecisionKind,
    pub player: Player,
}

} // verus!
