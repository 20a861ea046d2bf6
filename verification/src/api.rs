use vstd::prelude::*;

use crate::actions::Action;
use crate::cards::Turnup;
use crate::engine::{action_result, legal_action_seq, shows_public};
use crate::error::EngineError;
use crate::game_match::{exports, match_restored, synced, Match, MatchView};
use crate::match_types::{MatchSnapshot, MatchState, PlayerMatchView};
use crate::rules::match_winner_of;
use crate::state::{is_player_id, Hands, Player, Score};

verus! {

/// How a match starts.
#[derive(Debug, Clone, Copy, PartialEq, Eq, Structural)]
pub struct MatchConfig {
    pub starting_dealer: Player,
    pub score: Score,
}

/// The deal of a hand.
#[derive(Debug, Clone, PartialEq, Eq)]
pub struct HandStart {
    pub turnup: Turnup,
    pub hands: Hands,
}

/// Who acted, and the match as it stands afterwards.
#[derive(Debug, Clone, PartialEq, Eq)]
pub struct ActionResult {
    pub acted_by: Player,
    pub snapshot: MatchSnapshot,
}

/// `snapshot` shows exactly the public part of the match `m`.
pub open spec fn snapshot_of(m: MatchView, snapshot: MatchSnapshot) -> bool {
    &&& snapshot.score == m.score
    &&& snapshot.winner == m.winner
    &&& snapshot.next_dealer == m.next_dealer
    &&& snapshot.current_player == match m.current_hand {
        Some(h) => h.state.next_player,
        None => None,
    }
    &&& snapshot.hand_in_progress == (m.current_hand matches Some(h) && h.hand_winner is None)
    &&& match m.current_hand {
        Some(h) => snapshot.hand matches Some(p) && shows_public(h, p),
        None => snapshot.hand is None,
    }
}

/// The match interface used by bindings: whole values in, whole values out.
#[derive(Debug, Clone)]
pub struct ApiMatch {
    inner: Match,
}

impl View for ApiMatch {
    type V = MatchView;

    closed spec fn view(&self) -> MatchView {
        self.inner@
    }
}

impl ApiMatch {
    pub closed spec fn wf(&self) -> bool {
        self.inner.wf()
    }

    pub fn new(config: MatchConfig) -> (r: Result<Self, EngineError>)
        ensures
            match r {
                Ok(m) => is_player_id(config.starting_dealer) && m.wf() && m@ == MatchView {
                    next_dealer: config.starting_dealer,
                    score: config.score,
                    winner: match_winner_of(config.score),
                    current_hand: None,
                },
                Err(e) => !is_player_id(config.starting_dealer) && e
                    == EngineError::InvalidInitialState,
            },
    {
        match Match::new(config.starting_dealer, config.score) {
            Ok(inner) => Ok(ApiMatch { inner }),
            Err(e) => Err(e),
        }
    }

    pub fn from_state(state: MatchState) -> (r: Result<Self, EngineError>)
        ensures
            match r {
                Ok(m) => m.wf() && match_restored(state) == Ok::<MatchView, EngineError>(m@),
                Err(e) => match_restored(state) == Err::<MatchView, EngineError>(e),
            },
    {
        match Match::from_state(state) {
            Ok(inner) => Ok(ApiMatch { inner }),
            Err(e) => Err(e),
        }
    }

    pub fn public_view(&self) -> (r: MatchSnapshot)
        ensures
            snapshot_of(self@, r),
    {
        self.inner.public_view()
    }

    pub fn export_state(&self) -> (r: MatchState)
        ensures
            exports(r, self@),
    {
        self.inner.export_state()
    }

    /// Deals a hand and returns the resulting snapshot.
    pub fn start_hand(&mut self, hand: HandStart) -> (r: Result<MatchSnapshot, EngineError>)
        requires
            old(self).wf(),
        ensures
            final(self).wf(),
            old(self)@.winner is Some ==> r == Err::<MatchSnapshot, EngineError>(
                EngineError::MatchAlreadyDecided,
            ) && final(self)@ == old(self)@,
            old(self)@.winner is None && (old(self)@.current_hand matches Some(h)
                && h.hand_winner is None) ==> r == Err::<MatchSnapshot, EngineError>(
                EngineError::HandStillInProgress,
            ) && final(self)@ == old(self)@,
            old(self)@.winner is None && !(old(self)@.current_hand matches Some(h)
                && h.hand_winner is None) ==> {
                let dealt = crate::engine::loaded(
                    crate::engine::fresh_state(
                        old(self)@.next_dealer,
                        old(self)@.score,
                        hand.turnup,
                        hand.hands.zero@,
                        hand.hands.one@,
                    ),
                );
                match r {
                    Ok(snapshot) => dealt matches Ok(h) && final(self)@ == MatchView {
                        current_hand: Some(h),
                        ..old(self)@
                    } && snapshot_of(final(self)@, snapshot),
                    Err(e) => dealt == Err::<crate::engine::EngineView, EngineError>(e)
                        && final(self)@ == old(self)@,
                }
            },
    {
        match self.inner.start_hand(hand.turnup, hand.hands) {
            Ok(_) => {},
            Err(e) => {
                return Err(e);
            },
        }
        Ok(self.public_view())
    }

    pub fn legal_actions_for_current_player(&self) -> (r: Result<Vec<Action>, EngineError>)
        ensures
            match self@.current_hand {
                None => r == Err::<Vec<Action>, EngineError>(EngineError::NoActiveHand),
                Some(h) => match h.state.next_player {
                    None => r == Err::<Vec<Action>, EngineError>(EngineError::HandAlreadyDecided),
                    Some(p) => match r {
                        Ok(actions) => legal_action_seq(h, p) == Ok::<Seq<Action>, EngineError>(
                            actions@,
                        ),
                        Err(e) => legal_action_seq(h, p) == Err::<Seq<Action>, EngineError>(e),
                    },
                },
            },
    {
        self.inner.legal_actions_for_current_player()
    }

    pub fn player_view(&self, player: Player) -> (r: Result<PlayerMatchView, EngineError>)
        ensures
            match r {
                Ok(v) => {
                    &&& is_player_id(player)
                    &&& v.player == player
                    &&& v.score == self@.score
                    &&& v.winner == self@.winner
                    &&& v.next_dealer == self@.next_dealer
                    &&& v.current_player == match self@.current_hand {
                        Some(h) => h.state.next_player,
                        None => None,
                    }
                    &&& v.hand_in_progress == (self@.current_hand matches Some(h)
                        && h.hand_winner is None)
                    &&& match self@.current_hand {
                        Some(h) => v.hand matches Some(view) && shows_public(h, view.public_state)
                            && view.hand@ == h.state.hand(player),
                        None => v.hand is None,
                    }
                },
                Err(e) => !is_player_id(player) && e == EngineError::InvalidPlayer,
            },
    {
        self.inner.player_view(player)
    }

    /// Applies `action` for the player whose turn it is; returns who acted and the
    /// resulting snapshot.
    pub fn apply_action_for_current_player(&mut self, action: &Action) -> (r: Result<
        ActionResult,
        EngineError,
    >)
        requires
            old(self).wf(),
        ensures
            final(self).wf(),
            match old(self)@.current_hand {
                None => r == Err::<ActionResult, EngineError>(EngineError::NoActiveHand)
                    && final(self)@ == old(self)@,
                Some(h) => match h.state.next_player {
                    None => r == Err::<ActionResult, EngineError>(EngineError::HandAlreadyDecided)
                        && final(self)@ == old(self)@,
                    Some(p) => match action_result(h, p, *action) {
                        Ok(v) => r matches Ok(result) && result.acted_by == p && final(self)@
                            == synced(old(self)@, v) && snapshot_of(final(self)@, result.snapshot),
                        Err(e) => r == Err::<ActionResult, EngineError>(e) && final(self)@ == old(
                            self,
                        )@,
                    },
                },
            },
    {
        let acted_by = match self.inner.apply_action_for_current_player(action) {
            Ok(p) => p,
            Err(e) => {
                return Err(e);
            },
        };
        Ok(ActionResult { acted_by, snapshot: self.public_view() })
    }
}

} // verus!
