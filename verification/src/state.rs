use vstd::prelude::*;

use crate::cards::{Card, Turnup};
use crate::lists::{CardList, PlayList, RoundList};
use crate::MATCH_TARGET;

verus! {

/// Players are numbered 0 and 1.
pub type Player = u8;

/// Whether a value names one of the two players.
pub open spec fn is_player_id(player: Player) -> bool {
    player == 0 || player == 1
}

/// The other player (anything but 0 maps to 0).
pub open spec fn opponent_of(player: Player) -> Player {
    if player == 0 { 1 } else { 0 }
}

#[derive(Debug, Clone, Copy, PartialEq, Eq, Structural)]
pub struct Score {
    pub zero: u8,
    pub one: u8,
}

/// The points a player has.
pub open spec fn points_of(score: Score, player: Player) -> u8 {
    if player == 0 { score.zero } else { score.one }
}

/// The score after `player` is awarded `points`, saturating at the match target.
pub open spec fn awarded(score: Score, player: Player, points: u8) -> Score {
    let capped = |current: u8| -> u8 {
        if current + points >= MATCH_TARGET { MATCH_TARGET } else { (current + points) as u8 }
    };
    if player == 0 {
        Score { zero: capped(score.zero), one: score.one }
    } else {
        Score { zero: score.zero, one: capped(score.one) }
    }
}

impl Score {
    /// Awards points to a player, saturating at the match target.
    pub fn award(&mut self, player: Player, points: u8)
        requires
            is_player_id(player),
        ensures
            *final(self) == awarded(*old(self), player, points),
    {
        if player == 0 {
            self.zero = cap_points(self.zero, points);
        } else {
            self.one = cap_points(self.one, points);
        }
    }
}

fn cap_points(current: u8, points: u8) -> (r: u8)
    ensures
        r == (if current + points >= MATCH_TARGET { MATCH_TARGET } else { (current + points) as u8 }),
{
    let total = current.saturating_add(points);
    if total >= MATCH_TARGET { MATCH_TARGET } else { total }
}

#[derive(Debug, Clone, Copy, PartialEq, Eq, Structural)]
pub enum Visibility {
    Up,
    Down,
}

#[derive(Debug, Clone, PartialEq, Eq)]
pub struct PlayedCard {
    pub player: Player,
    pub visibility: Visibility,
    pub card: Card,
}

impl PlayedCard {
    pub fn duplicate(&self) -> (r: PlayedCard)
        ensures
            r == *self,
    {
        PlayedCard { player: self.player, visibility: self.visibility, card: self.card.duplicate() }
    }
}

#[derive(Debug, Clone, PartialEq, Eq)]
pub struct CompletedRound {
    pub leader: Player,
    pub winner: Option<Player>,
    pub plays: PlayList,
}

/// What a completed round records: its leader, its winner (none on a tie) and its plays.
pub struct RoundView {
    pub leader: Player,
    pub winner: Option<Player>,
    pub plays: Seq<PlayedCard>,
}

impl View for CompletedRound {
    type V = RoundView;

    open spec fn view(&self) -> RoundView {
        RoundView { leader: self.leader, winner: self.winner, plays: self.plays@ }
    }
}

impl CompletedRound {
    pub fn duplicate(&self) -> (r: CompletedRound)
        ensures
            r@ == self@,
    {
        CompletedRound { leader: self.leader, winner: self.winner, plays: self.plays.clone() }
    }
}

#[derive(Debug, Clone, PartialEq, Eq)]
pub struct CurrentRound {
    pub leader: Player,
    pub plays: PlayList,
}

#[derive(Debug, Clone, Copy, PartialEq, Eq, Structural)]
pub struct PendingRaise {
    pub raised_by: Player,
    pub to: u8,
    pub previous_value: u8,
}

#[derive(Debug, Clone, Copy, PartialEq, Eq, Structural)]
pub enum PendingDecisionKind {
    MaoDeOnze,
}

#[derive(Debug, Clone, Copy, PartialEq, Eq, Structural)]
pub struct PendingDecision {
    pub kind: PendingDecisionKind,
    pub player: Player,
}

#[derive(Debug, Clone, PartialEq, Eq)]
pub struct Hands {
    pub zero: CardList,
    pub one: CardList,
}

/// The cards a player holds (none for an id that names no player).
pub open spec fn hand_cards(zero: Seq<Card>, one: Seq<Card>, player: Player) -> Seq<Card> {
    if player == 0 {
        zero
    } else if player == 1 {
        one
    } else {
        Seq::empty()
    }
}

impl Hands {
    pub fn player(&self, player: Player) -> (r: &[Card])
        ensures
            r@ == hand_cards(self.zero@, self.one@, player),
    {
        if player == 0 {
            self.zero.as_slice()
        } else if player == 1 {
            self.one.as_slice()
        } else {
            let empty: &[Card] = &[];
            assert(empty@ =~= Seq::<Card>::empty());
            empty
        }
    }
}

#[derive(Debug, Clone, PartialEq, Eq)]
pub struct GameState {
    pub dealer: Player,
    pub next_player: Option<Player>,
    pub score: Score,
    pub hand_value: u8,
    pub turnup: Turnup,
    pub hands: Hands,
    pub completed_rounds: RoundList,
    pub current_round: CurrentRound,
    pub last_raised_by: Option<Player>,
    pub pending_raise: Option<PendingRaise>,
    pub pending_decision: Option<PendingDecision>,
}

/// The mathematical content of a hand's state.
pub struct StateView {
    pub dealer: Player,
    pub next_player: Option<Player>,
    pub score: Score,
    pub hand_value: u8,
    pub turnup: Turnup,
    pub hand_zero: Seq<Card>,
    pub hand_one: Seq<Card>,
    pub completed_rounds: Seq<RoundView>,
    pub current_leader: Player,
    pub current_plays: Seq<PlayedCard>,
    pub last_raised_by: Option<Player>,
    pub pending_raise: Option<PendingRaise>,
    pub pending_decision: Option<PendingDecision>,
}

impl StateView {
    /// The cards `player` holds.
    pub open spec fn hand(self, player: Player) -> Seq<Card> {
        hand_cards(self.hand_zero, self.hand_one, player)
    }
}

impl View for GameState {
    type V = StateView;

    open spec fn view(&self) -> StateView {
        StateView {
            dealer: self.dealer,
            next_player: self.next_player,
            score: self.score,
            hand_value: self.hand_value,
            turnup: self.turnup,
            hand_zero: self.hands.zero@,
            hand_one: self.hands.one@,
            completed_rounds: self.completed_rounds@,
            current_leader: self.current_round.leader,
            current_plays: self.current_round.plays@,
            last_raised_by: self.last_raised_by,
            pending_raise: self.pending_raise,
            pending_decision: self.pending_decision,
        }
    }
}

impl GameState {
    /// A copy of the state with the same view.
    pub fn duplicate(&self) -> (r: GameState)
        ensures
            r@ == self@,
    {
        GameState {
            dealer: self.dealer,
            next_player: self.next_player,
            score: self.score,
            hand_value: self.hand_value,
            turnup: self.turnup,
            hands: Hands { zero: self.hands.zero.clone(), one: self.hands.one.clone() },
            completed_rounds: self.completed_rounds.clone(),
            current_round: CurrentRound {
                leader: self.current_round.leader,
                plays: self.current_round.plays.clone(),
            },
            last_raised_by: self.last_raised_by,
            pending_raise: self.pending_raise,
            pending_decision: self.pending_decision,
        }
    }
}

} // verus!
