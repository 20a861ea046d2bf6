use vstd::prelude::*;

use crate::cards::Card;
use crate::engine_types::PublicState;
use crate::state::{GameState, Player, Score};

verus! {

/// A hand's full state together with its outcome so far.
#[derive(Debug, Clone, PartialEq, Eq)]
pub struct EngineState {
    pub state: GameState,
    pub hand_winner: Option<Player>,
    pub match_winner: Option<Player>,
}

/// The full state of a match.
#[derive(Debug, Clone, PartialEq, Eq)]
pub struct MatchState {
    pub next_dealer: Player,
    pub score: Score,
    pub winner: Option<Player>,
    pub current_hand: Option<EngineState>,
}

/// What both players may see of a match.
#[derive(Debug, Clone, PartialEq, Eq)]
pub struct MatchSnapshot {
    pub score: Score,
    pub winner: Option<Player>,
    pub next_dealer: Player,
    pub current_player: Option<Player>,
    pub hand_in_progress: bool,
    pub hand: Option<PublicState>,
}

/// A hand as one player sees it: the public state and that player's own cards.
#[derive(Debug, Clone, PartialEq, Eq)]
pub struct PlayerHandView {
    pub public_state: PublicState,
    pub hand: Vec<Card>,
}

/// A match as one player sees it.
#[derive(Debug, Clone, PartialEq, Eq)]
pub struct PlayerMatchView {
    pub player: Player,
    pub score: Score,
    pub winner: Option<Player>,
    pub next_dealer: Player,
    pub current_player: Option<Player>,
    pub hand_in_progress: bool,
    pub hand: Option<PlayerHandView>,
}

} // verus!
