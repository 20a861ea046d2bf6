use vstd::prelude::*;

use crate::actions::Action;
use crate::cards::Turnup;
use crate::engine::{
    action_result, fresh_state, legal_action_seq, loaded, restored, shows_public,
    strategic_only, Engine, EngineView,
};
use crate::error::EngineError;
use crate::match_types::{MatchSnapshot, MatchState, PlayerMatchView};
use crate::rules::{match_winner_of, other_player, score_winner};
use crate::state::{is_player_id, opponent_of, Hands, Player, Score, StateView};

verus! {

/// The mathematical content of a match.
pub struct MatchView {
    pub next_dealer: Player,
    pub score: Score,
    pub winner: Option<Player>,
    pub current_hand: Option<EngineView>,
}

/// A well-formed match: its score and winner agree with its hand, and the next dealer
/// is the hand's dealer while the hand is live and the other player once it is over.
pub open spec fn match_ok(m: MatchView) -> bool {
    &&& is_player_id(m.next_dealer)
    &&& m.winner == match_winner_of(m.score)
    &&& (m.current_hand matches Some(h) ==> {
        &&& h.state.score == m.score
        &&& h.match_winner == m.winner
        &&& m.next_dealer == if h.hand_winner is Some {
            opponent_of(h.state.dealer)
        } else {
            h.state.dealer
        }
    })
}

/// The match after its hand moved to `hand`: score and winner follow the hand, and the
/// deal passes to the other player once the hand is over.
pub open spec fn synced(m: MatchView, hand: EngineView) -> MatchView {
    MatchView {
        next_dealer: if hand.hand_winner is Some {
            opponent_of(hand.state.dealer)
        } else {
            m.next_dealer
        },
        score: hand.state.score,
        winner: hand.match_winner,
        current_hand: Some(hand),
    }
}

/// A saved hand as plain values: its state, its hand winner and its match winner.
pub type HandRecord = (StateView, Option<Player>, Option<Player>);

/// The saved hand of a match state, as plain values.
pub open spec fn hand_record(state: MatchState) -> Option<HandRecord> {
    match state.current_hand {
        Some(h) => Some((h.state@, h.hand_winner, h.match_winner)),
        None => None,
    }
}

/// The match restored from saved parts, or why they are rejected.
pub open spec fn record_restored(
    next_dealer: Player,
    score: Score,
    saved_winner: Option<Player>,
    hand: Option<HandRecord>,
) -> Result<MatchView, EngineError> {
    let winner = match_winner_of(score);
    if !is_player_id(next_dealer) || saved_winner != winner {
        Err(EngineError::InvalidInitialState)
    } else {
        match hand {
            None => Ok(MatchView { next_dealer, score, winner, current_hand: None }),
            Some(rec) => match restored(rec.0, rec.1, rec.2) {
                Err(e) => Err(e),
                Ok(h) => if h.state.score != score || h.match_winner != winner || next_dealer
                    != if h.hand_winner is Some {
                    opponent_of(h.state.dealer)
                } else {
                    h.state.dealer
                } {
                    Err(EngineError::InvalidInitialState)
                } else {
                    Ok(MatchView { next_dealer, score, winner, current_hand: Some(h) })
                },
            },
        }
    }
}

/// A saved match as plain values: next dealer, score, winner and hand.
pub type MatchRecord = (Player, Score, Option<Player>, Option<HandRecord>);

/// The plain values of a saved match.
pub open spec fn match_record(state: MatchState) -> MatchRecord {
    (state.next_dealer, state.score, state.winner, hand_record(state))
}

/// The plain values that saving the match `m` gives.
pub open spec fn view_record(m: MatchView) -> MatchRecord {
    (
        m.next_dealer,
        m.score,
        m.winner,
        match m.current_hand {
            Some(h) => Some((h.state, h.hand_winner, h.match_winner)),
            None => None,
        },
    )
}

/// The match restored from a saved state, or why it is rejected.
pub open spec fn match_restored(state: MatchState) -> Result<MatchView, EngineError> {
    record_restored(state.next_dealer, state.score, state.winner, hand_record(state))
}

/// `state` saves exactly the match `m`.
pub open spec fn exports(state: MatchState, m: MatchView) -> bool {
    &&& state.next_dealer == m.next_dealer
    &&& state.score == m.score
    &&& state.winner == m.winner
    &&& match m.current_hand {
        Some(h) => state.current_hand matches Some(x) && x.state@ == h.state && x.hand_winner
            == h.hand_winner && x.match_winner == h.match_winner,
        None => state.current_hand is None,
    }
}

/// A match of consecutive hands between two players.
#[derive(Debug, Clone)]
pub struct Match {
    next_dealer: Player,
    score: Score,
    current_hand: Option<Engine>,
    winner: Option<Player>,
}

impl View for Match {
    type V = MatchView;

    closed spec fn view(&self) -> MatchView {
        MatchView {
            next_dealer: self.next_dealer,
            score: self.score,
            winner: self.winner,
            current_hand: match self.current_hand {
                Some(h) => Some(h@),
                None => None,
            },
        }
    }
}

impl Match {
    /// Whether the match is well formed: its hand, if any, is a well-formed engine
    /// agreeing with the match.
    pub closed spec fn wf(&self) -> bool {
        &&& match_ok(self@)
        &&& (self.current_hand matches Some(h) ==> h.wf())
    }

    /// Restores a match from a saved state.
    pub fn from_state(state: MatchState) -> (r: Result<Match, EngineError>)
        ensures
            match r {
                Ok(m) => m.wf() && match_restored(state) == Ok::<MatchView, EngineError>(m@),
                Err(e) => match_restored(state) == Err::<MatchView, EngineError>(e),
            },
    {
        if !(state.next_dealer == 0 || state.next_dealer == 1) {
            return Err(EngineError::InvalidInitialState);
        }
        let winner = score_winner(&state.score);
        if state.winner != winner {
            return Err(EngineError::InvalidInitialState);
        }
        let current_hand = match state.current_hand {
            Some(current_hand) => {
                let engine = match Engine::from_exported_state(current_hand) {
                    Ok(engine) => engine,
                    Err(e) => {
                        return Err(e);
                    },
                };
                if engine.state().score != state.score {
                    return Err(EngineError::InvalidInitialState);
                }
                if engine.match_winner() != winner {
                    return Err(EngineError::InvalidInitialState);
                }
                let expected_dealer = if engine.is_hand_over() {
                    other_player(engine.state().dealer)
                } else {
                    engine.state().dealer
                };
                if state.next_dealer != expected_dealer {
                    return Err(EngineError::InvalidInitialState);
                }
                Some(engine)
            },
            None => None,
        };
        Ok(Match { next_dealer: state.next_dealer, score: state.score, current_hand, winner })
    }

    /// A match with no hand dealt yet.
    pub fn new(starting_dealer: Player, score: Score) -> (r: Result<Match, EngineError>)
        ensures
            match r {
                Ok(m) => is_player_id(starting_dealer) && m.wf() && m@ == MatchView {
                    next_dealer: starting_dealer,
                    score,
                    winner: match_winner_of(score),
                    current_hand: None,
                },
                Err(e) => !is_player_id(starting_dealer) && e == EngineError::InvalidInitialState,
            },
    {
        if !(starting_dealer == 0 || starting_dealer == 1) {
            return Err(EngineError::InvalidInitialState);
        }
        Ok(
            Match {
                next_dealer: starting_dealer,
                winner: score_winner(&score),
                score,
                current_hand: None,
            },
        )
    }

    /// A copy of the match with the same view.
    pub fn duplicate(&self) -> (r: Match)
        requires
            self.wf(),
        ensures
            r@ == self@,
            r.wf(),
    {
        Match {
            next_dealer: self.next_dealer,
            score: self.score,
            current_hand: match &self.current_hand {
                Some(h) => Some(h.duplicate()),
                None => None,
            },
            winner: self.winner,
        }
    }

    pub fn score(&self) -> (r: &Score)
        ensures
            *r == self@.score,
    {
        &self.score
    }

    pub fn winner(&self) -> (r: Option<Player>)
        ensures
            r == self@.winner,
    {
        self.winner
    }

    pub fn current_hand(&self) -> (r: Option<&Engine>)
        requires
            self.wf(),
        ensures
            match r {
                Some(h) => self@.current_hand == Some(h@) && h.wf(),
                None => self@.current_hand is None,
            },
    {
        self.current_hand.as_ref()
    }

    pub fn dealer_for_next_hand(&self) -> (r: Player)
        ensures
            r == self@.next_dealer,
    {
        self.next_dealer
    }

    /// The player whose turn it is in the current hand.
    pub fn current_player(&self) -> (r: Option<Player>)
        ensures
            r == match self@.current_hand {
                Some(h) => h.state.next_player,
                None => None,
            },
    {
        match &self.current_hand {
            Some(hand) => hand.current_player(),
            None => None,
        }
    }

    fn hand_in_progress(&self) -> (r: bool)
        ensures
            r == (self@.current_hand matches Some(h) && h.hand_winner is None),
    {
        match &self.current_hand {
            Some(hand) => !hand.is_hand_over(),
            None => false,
        }
    }

    /// Deals the next hand; refused while the match is decided or a hand is still live.
    pub fn start_hand(&mut self, turnup: Turnup, hands: Hands) -> (r: Result<&Engine, EngineError>)
        requires
            old(self).wf(),
        ensures
            final(self).wf(),
            old(self)@.winner is Some ==> r == Err::<&Engine, EngineError>(
                EngineError::MatchAlreadyDecided,
            ) && final(self)@ == old(self)@,
            old(self)@.winner is None && (old(self)@.current_hand matches Some(h)
                && h.hand_winner is None) ==> r == Err::<&Engine, EngineError>(
                EngineError::HandStillInProgress,
            ) && final(self)@ == old(self)@,
            old(self)@.winner is None && !(old(self)@.current_hand matches Some(h)
                && h.hand_winner is None) ==> {
                let dealt = loaded(
                    fresh_state(
                        old(self)@.next_dealer,
                        old(self)@.score,
                        turnup,
                        hands.zero@,
                        hands.one@,
                    ),
                );
                match r {
                    Ok(h) => dealt == Ok::<EngineView, EngineError>(h@) && final(self)@
                        == MatchView { current_hand: Some(h@), ..old(self)@ },
                    Err(e) => dealt == Err::<EngineView, EngineError>(e) && final(self)@ == old(
                        self,
                    )@,
                }
            },
            match r {
                Ok(_) => match_dealt(old(self)@, turnup, hands.zero@, hands.one@) == Ok::<
                    MatchView,
                    EngineError,
                >(final(self)@),
                Err(e) => match_dealt(old(self)@, turnup, hands.zero@, hands.one@) == Err::<
                    MatchView,
                    EngineError,
                >(e),
            },
    {
        if self.winner.is_some() {
            return Err(EngineError::MatchAlreadyDecided);
        }
        if self.hand_in_progress() {
            return Err(EngineError::HandStillInProgress);
        }
        let hand = match Engine::new_hand(self.next_dealer, self.score, turnup, hands) {
            Ok(hand) => hand,
            Err(e) => {
                return Err(e);
            },
        };
        self.current_hand = Some(hand);
        match &self.current_hand {
            Some(hand) => Ok(hand),
            None => Err(EngineError::NoActiveHand),
        }
    }
}

} // verus!

verus! {

impl Match {
    /// What both players may see of the match.
    pub fn public_view(&self) -> (r: MatchSnapshot)
        ensures
            r.score == self@.score,
            r.winner == self@.winner,
            r.next_dealer == self@.next_dealer,
            r.current_player == match self@.current_hand {
                Some(h) => h.state.next_player,
                None => None,
            },
            r.hand_in_progress == (self@.current_hand matches Some(h) && h.hand_winner is None),
            match self@.current_hand {
                Some(h) => r.hand matches Some(p) && shows_public(h, p),
                None => r.hand is None,
            },
    {
        let hand = match &self.current_hand {
            Some(h) => Some(h.public_state()),
            None => None,
        };
        MatchSnapshot {
            score: self.score,
            winner: self.winner,
            next_dealer: self.next_dealer,
            current_player: self.current_player(),
            hand_in_progress: self.hand_in_progress(),
            hand,
        }
    }

    /// The match as `player` sees it: the public view plus that player's own cards.
    pub fn player_view(&self, player: Player) -> (r: Result<PlayerMatchView, EngineError>)
        ensures
            match r {
                Ok(v) => {
                    &&& is_player_id(player)
                    &&& v.player == player
                    &&& v.score == self@.score
                    &&& v.winner == self@.winner
                    &&& v.next_dealer == self@.next_dealer
                    &&& v.current_player == match self@.current_hand {
                        Some(h) => h.state.next_player,
                        None => None,
                    }
                    &&& v.hand_in_progress == (self@.current_hand matches Some(h)
                        && h.hand_winner is None)
                    &&& match self@.current_hand {
                        Some(h) => v.hand matches Some(view) && shows_public(h, view.public_state)
                            && view.hand@ == h.state.hand(player),
                        None => v.hand is None,
                    }
                },
                Err(e) => !is_player_id(player) && e == EngineError::InvalidPlayer,
            },
    {
        if !(player == 0 || player == 1) {
            return Err(EngineError::InvalidPlayer);
        }
        let hand = match &self.current_hand {
            Some(h) => match h.player_view(player) {
                Ok(view) => Some(view),
                Err(e) => {
                    return Err(e);
                },
            },
            None => None,
        };
        Ok(
            PlayerMatchView {
                player,
                score: self.score,
                winner: self.winner,
                next_dealer: self.next_dealer,
                current_player: self.current_player(),
                hand_in_progress: self.hand_in_progress(),
                hand,
            },
        )
    }

    /// The match's full state, for saving and restoring.
    pub fn export_state(&self) -> (r: MatchState)
        ensures
            exports(r, self@),
    {
        let current_hand = match &self.current_hand {
            Some(h) => Some(h.export_state()),
            None => None,
        };
        MatchState {
            next_dealer: self.next_dealer,
            score: self.score,
            winner: self.winner,
            current_hand,
        }
    }

    pub fn legal_actions_for_current_player(&self) -> (r: Result<Vec<Action>, EngineError>)
        ensures
            match self@.current_hand {
                None => r == Err::<Vec<Action>, EngineError>(EngineError::NoActiveHand),
                Some(h) => match h.state.next_player {
                    None => r == Err::<Vec<Action>, EngineError>(EngineError::HandAlreadyDecided),
                    Some(p) => match r {
                        Ok(actions) => legal_action_seq(h, p) == Ok::<Seq<Action>, EngineError>(
                            actions@,
                        ),
                        Err(e) => legal_action_seq(h, p) == Err::<Seq<Action>, EngineError>(e),
                    },
                },
            },
    {
        match &self.current_hand {
            Some(h) => h.legal_actions_for_current_player(),
            None => Err(EngineError::NoActiveHand),
        }
    }

    pub fn strategic_legal_actions_for_current_player(&self) -> (r: Result<
        Vec<Action>,
        EngineError,
    >)
        ensures
            match self@.current_hand {
                None => r == Err::<Vec<Action>, EngineError>(EngineError::NoActiveHand),
                Some(h) => match h.state.next_player {
                    None => r == Err::<Vec<Action>, EngineError>(EngineError::HandAlreadyDecided),
                    Some(p) => match r {
                        Ok(actions) => legal_action_seq(h, p) matches Ok(all) && actions@
                            == strategic_only(all),
                        Err(e) => legal_action_seq(h, p) == Err::<Seq<Action>, EngineError>(e),
                    },
                },
            },
    {
        match &self.current_hand {
            Some(h) => h.strategic_legal_actions_for_current_player(),
            None => Err(EngineError::NoActiveHand),
        }
    }

    pub fn legal_actions(&self, player: Player) -> (r: Result<Vec<Action>, EngineError>)
        ensures
            match self@.current_hand {
                None => r == Err::<Vec<Action>, EngineError>(EngineError::NoActiveHand),
                Some(h) => match r {
                    Ok(actions) => legal_action_seq(h, player) == Ok::<Seq<Action>, EngineError>(
                        actions@,
                    ),
                    Err(e) => legal_action_seq(h, player) == Err::<Seq<Action>, EngineError>(e),
                },
            },
    {
        match &self.current_hand {
            Some(h) => h.legal_actions(player),
            None => Err(EngineError::NoActiveHand),
        }
    }

    pub fn strategic_legal_actions(&self, player: Player) -> (r: Result<Vec<Action>, EngineError>)
        ensures
            match self@.current_hand {
                None => r == Err::<Vec<Action>, EngineError>(EngineError::NoActiveHand),
                Some(h) => match r {
                    Ok(actions) => legal_action_seq(h, player) matches Ok(all) && actions@
                        == strategic_only(all),
                    Err(e) => legal_action_seq(h, player) == Err::<Seq<Action>, EngineError>(e),
                },
            },
    {
        match &self.current_hand {
            Some(h) => h.strategic_legal_actions(player),
            None => Err(EngineError::NoActiveHand),
        }
    }

    /// Applies `action` for `player` in the current hand and brings the match's score,
    /// winner and next dealer up to date with the hand.
    pub fn apply_action(&mut self, player: Player, action: &Action) -> (r: Result<(), EngineError>)
        requires
            old(self).wf(),
        ensures
            final(self).wf(),
            match old(self)@.current_hand {
                None => r == Err::<(), EngineError>(EngineError::NoActiveHand) && final(self)@
                    == old(self)@,
                Some(h) => match action_result(h, player, *action) {
                    Ok(v) => r is Ok && final(self)@ == synced(old(self)@, v),
                    Err(e) => r == Err::<(), EngineError>(e) && final(self)@ == old(self)@,
                },
            },
            match r {
                Ok(_) => match_acted(old(self)@, player, *action) == Ok::<MatchView, EngineError>(
                    final(self)@,
                ),
                Err(e) => match_acted(old(self)@, player, *action) == Err::<MatchView, EngineError>(
                    e,
                ),
            },
    {
        proof {
            if let Some(h) = self@.current_hand {
                if action_result(h, player, *action) is Ok {
                    crate::invariants::lemma_action_keeps_dealer(h, player, *action);
                }
            }
        }
        let outcome = match &mut self.current_hand {
            Some(hand) => hand.apply_action(player, action),
            None => Err(EngineError::NoActiveHand),
        };
        match outcome {
            Ok(()) => {
                self.sync_from_active_hand();
                Ok(())
            },
            Err(e) => Err(e),
        }
    }

    /// Applies `action` for the player whose turn it is, and returns that player.
    pub fn apply_action_for_current_player(&mut self, action: &Action) -> (r: Result<
        Player,
        EngineError,
    >)
        requires
            old(self).wf(),
        ensures
            final(self).wf(),
            match old(self)@.current_hand {
                None => r == Err::<Player, EngineError>(EngineError::NoActiveHand) && final(self)@
                    == old(self)@,
                Some(h) => match h.state.next_player {
                    None => r == Err::<Player, EngineError>(EngineError::HandAlreadyDecided)
                        && final(self)@ == old(self)@,
                    Some(p) => match action_result(h, p, *action) {
                        Ok(v) => r == Ok::<Player, EngineError>(p) && final(self)@ == synced(
                            old(self)@,
                            v,
                        ),
                        Err(e) => r == Err::<Player, EngineError>(e) && final(self)@ == old(
                            self,
                        )@,
                    },
                },
            },
            r matches Ok(p) ==> match_acted(old(self)@, p, *action) == Ok::<MatchView, EngineError>(
                final(self)@,
            ),
    {
        proof {
            if let Some(h) = self@.current_hand {
                if let Some(p) = h.state.next_player {
                    if action_result(h, p, *action) is Ok {
                        crate::invariants::lemma_action_keeps_dealer(h, p, *action);
                    }
                }
            }
        }
        let outcome = match &mut self.current_hand {
            Some(hand) => hand.apply_action_for_current_player(action),
            None => Err(EngineError::NoActiveHand),
        };
        match outcome {
            Ok(player) => {
                self.sync_from_active_hand();
                Ok(player)
            },
            Err(e) => Err(e),
        }
    }

    fn sync_from_active_hand(&mut self)
        requires
            old(self).current_hand matches Some(h) && h.wf(),
            is_player_id(old(self).next_dealer),
            old(self).next_dealer == old(self)@.current_hand.unwrap().state.dealer,
        ensures
            final(self).wf(),
            final(self)@ == synced(old(self)@, old(self)@.current_hand.unwrap()),
    {
        match &self.current_hand {
            Some(hand) => {
                let score = hand.state().score;
                let winner = hand.match_winner();
                let over = hand.is_hand_over();
                let dealer = hand.state().dealer;
                self.score = score;
                self.winner = winner;
                if over {
                    self.next_dealer = other_player(dealer);
                }
            },
            None => {},
        }
    }
}

} // verus!

verus! {

impl Match {
    /// What well-formedness says of the match's view.
    pub proof fn lemma_wf_view(&self)
        requires
            self.wf(),
        ensures
            match_ok(self@),
            self@.current_hand matches Some(h) ==> crate::engine::engine_ok(h),
    {
    }
}

/// The hand of a restored match: a saved hand comes back over its normalized state.
pub open spec fn normalized_hand(m: MatchView) -> MatchView {
    MatchView {
        current_hand: match m.current_hand {
            Some(h) => Some(EngineView { state: crate::validation::normalized(h.state), ..h }),
            None => None,
        },
        ..m
    }
}

/// Saving a well-formed match and restoring what was saved always succeeds, and gives
/// back the same match, its hand over the normalized state (a live hand's state is
/// already normalized, so a match in the middle of a hand comes back unchanged).
pub proof fn lemma_match_export_restore_round_trip(m: MatchView, saved: MatchState)
    requires
        match_ok(m),
        m.current_hand matches Some(h) ==> crate::engine::engine_ok(h),
        exports(saved, m),
    ensures
        match_restored(saved) == Ok::<MatchView, EngineError>(normalized_hand(m)),
        (m.current_hand matches Some(h) ==> h.hand_winner is None) ==> normalized_hand(m) == m,
{
    if let Some(h) = m.current_hand {
        crate::invariants::lemma_export_restore_round_trip(h);
    }
    assert(match_record(saved) == view_record(m));
}

} // verus!

verus! {

/// An undecided match has at most 22 points on the board; since every finished hand
/// adds at least one point (`lemma_action_scoring`), a match is decided within 23 hands.
pub proof fn lemma_undecided_score_bound(m: MatchView)
    requires
        match_ok(m),
        m.winner is None,
    ensures
        m.score.zero < crate::MATCH_TARGET,
        m.score.one < crate::MATCH_TARGET,
        m.score.zero + m.score.one <= 22,
{
}

} // verus!

verus! {

/// One step of a match: dealing a hand (turnup and the two players' cards) or one
/// player's action.
pub enum MatchEvent {
    Deal(Turnup, Seq<crate::cards::Card>, Seq<crate::cards::Card>),
    Act(Player, Action),
}

/// The match after dealing a hand, or why the deal is refused (as `Match::start_hand`).
pub open spec fn match_dealt(
    m: MatchView,
    turnup: Turnup,
    zero: Seq<crate::cards::Card>,
    one: Seq<crate::cards::Card>,
) -> Result<MatchView, EngineError> {
    if m.winner is Some {
        Err(EngineError::MatchAlreadyDecided)
    } else if m.current_hand matches Some(h) && h.hand_winner is None {
        Err(EngineError::HandStillInProgress)
    } else {
        match loaded(fresh_state(m.next_dealer, m.score, turnup, zero, one)) {
            Err(e) => Err(e),
            Ok(h) => Ok(MatchView { current_hand: Some(h), ..m }),
        }
    }
}

/// The match after `player` takes `action`, or why it is refused (as `Match::apply_action`).
pub open spec fn match_acted(m: MatchView, player: Player, action: Action) -> Result<MatchView, EngineError> {
    match m.current_hand {
        None => Err(EngineError::NoActiveHand),
        Some(h) => match action_result(h, player, action) {
            Err(e) => Err(e),
            Ok(v) => Ok(synced(m, v)),
        },
    }
}

/// The match after a sequence of events, or the first refusal.
pub open spec fn run_match(m: MatchView, events: Seq<MatchEvent>) -> Result<MatchView, EngineError>
    decreases events.len(),
{
    if events.len() == 0 {
        Ok(m)
    } else {
        match run_match(m, events.drop_last()) {
            Err(e) => Err(e),
            Ok(prev) => match events.last() {
                MatchEvent::Deal(turnup, zero, one) => match_dealt(prev, turnup, zero, one),
                MatchEvent::Act(player, action) => match_acted(prev, player, action),
            },
        }
    }
}

/// How many hands the events deal.
pub open spec fn deals(events: Seq<MatchEvent>) -> nat
    decreases events.len(),
{
    if events.len() == 0 {
        0
    } else {
        deals(events.drop_last()) + if events.last() is Deal {
            1nat
        } else {
            0nat
        }
    }
}

/// Both players' points together.
pub open spec fn score_total(m: MatchView) -> int {
    m.score.zero + m.score.one
}

/// Whether the match has a hand still in play.
pub open spec fn hand_live(m: MatchView) -> int {
    if m.current_hand matches Some(h) && h.hand_winner is None {
        1
    } else {
        0
    }
}

/// A well-formed match: the match agrees with its hand, and the hand is well formed.
pub open spec fn match_wf(m: MatchView) -> bool {
    &&& match_ok(m)
    &&& m.current_hand matches Some(h) ==> crate::engine::engine_ok(h)
}

/// Dealing into a well-formed match keeps it well formed, starts a live hand on an
/// undecided board, and leaves the score alone.
proof fn lemma_deal_step(
    m: MatchView,
    turnup: Turnup,
    zero: Seq<crate::cards::Card>,
    one: Seq<crate::cards::Card>,
)
    requires
        match_wf(m),
        match_dealt(m, turnup, zero, one) is Ok,
    ensures
        ({
            let m2 = match_dealt(m, turnup, zero, one).unwrap();
            &&& match_wf(m2)
            &&& m.winner is None
            &&& hand_live(m) == 0
            &&& hand_live(m2) == 1
            &&& score_total(m2) == score_total(m)
            &&& score_total(m2) <= 22
        }),
{
    let fresh = fresh_state(m.next_dealer, m.score, turnup, zero, one);
    assert(restored(fresh, None, None) == loaded(fresh));
    crate::invariants::lemma_restored_ok(fresh, None, None);
}

/// An accepted action in a well-formed match keeps it well formed; it acts in a live hand
/// on an undecided board, and a hand it ends puts at least one more point on the board.
proof fn lemma_act_step(m: MatchView, player: Player, action: Action)
    requires
        match_wf(m),
        match_acted(m, player, action) is Ok,
    ensures
        ({
            let m2 = match_acted(m, player, action).unwrap();
            &&& match_wf(m2)
            &&& m.winner is None
            &&& hand_live(m) == 1
            &&& score_total(m) <= 22
            &&& hand_live(m2) == 1 ==> score_total(m2) == score_total(m)
            &&& hand_live(m2) == 0 ==> score_total(m) + 1 <= score_total(m2) <= 23
        }),
{
    let h = m.current_hand.unwrap();
    crate::invariants::lemma_action_keeps_engine_ok(h, player, action);
    crate::invariants::lemma_action_scoring(h, player, action);
    crate::invariants::lemma_action_keeps_dealer(h, player, action);
}

/// Every run of accepted deals and actions keeps a match well formed, and every hand but
/// a live one adds at least one point to the board; so from a board of `t` points a
/// match deals at most `23 - t` hands, and from a fresh match at most 23. With
/// `invariants::lemma_hand_action_bound`, each hand takes at most 20 accepted actions,
/// and with `invariants::lemma_legal_actions_apply` every listed action is accepted.
pub proof fn lemma_match_run(m: MatchView, events: Seq<MatchEvent>)
    requires
        match_wf(m),
        run_match(m, events) is Ok,
    ensures
        match_wf(run_match(m, events).unwrap()),
        deals(events) <= score_total(run_match(m, events).unwrap()) - score_total(m) + hand_live(
            run_match(m, events).unwrap(),
        ),
        deals(events) > 0 ==> score_total(run_match(m, events).unwrap()) + hand_live(
            run_match(m, events).unwrap(),
        ) <= 23,
        deals(events) > 0 ==> deals(events) + score_total(m) <= 23,
    decreases events.len(),
{
    if events.len() > 0 {
        let prev = events.drop_last();
        lemma_match_run(m, prev);
        match events.last() {
            MatchEvent::Deal(turnup, zero, one) => {
                lemma_deal_step(run_match(m, prev).unwrap(), turnup, zero, one);
            },
            MatchEvent::Act(player, action) => {
                lemma_act_step(run_match(m, prev).unwrap(), player, action);
            },
        }
    }
}

} // verus!
