use vstd::prelude::*;

use crate::actions::Action;
use crate::cards::Card;
use crate::engine_types::{
    PublicCard, PublicCompletedRound, PublicDecision, PublicPlay, PublicRound, PublicState,
};
use crate::error::EngineError;
use crate::lists::{CardList, PlayList, RoundList};
use crate::match_types::{EngineState, PlayerHandView};
use crate::rules::{
    compare_plays, decide_hand_winner, eleven_decider, eleven_hand, eleven_hand_decision_player,
    first_round_leader, hand_winner_of, ladder_next, match_winner_of, next_raise_after,
    opening_hand_value, opening_leader, other_player, round_winner, score_triggers_eleven_hand,
    score_winner, starting_hand_value, ELEVEN_AUTO_HAND_VALUE, ELEVEN_FOLD_AWARD,
};
use crate::state::{
    awarded, hand_cards, is_player_id, opponent_of, CompletedRound, CurrentRound, GameState, Hands,
    PendingDecision, PendingDecisionKind, PendingRaise, PlayedCard, Player, RoundView, Score,
    StateView, Visibility,
};
use crate::validation::{
    find_card_index, finished_ok, id_position, live_result, normalize_state, normalized,
    validate_finished_normalized_state, validate_normalized_state,
};
use crate::cards::Turnup;
use crate::MATCH_TARGET;

verus! {

// ---------------------------------------------------------------------------
// The rules of a hand, as transitions of an abstract engine
// ---------------------------------------------------------------------------
/// The mathematical content of an engine: the hand's state and its outcome.
pub struct EngineView {
    pub state: StateView,
    pub hand_winner: Option<Player>,
    pub match_winner: Option<Player>,
    pub first_round_leader: Player,
}

/// An engine over `state` whose hand is still in play.
pub open spec fn live_engine(state: StateView) -> EngineView {
    EngineView {
        state,
        hand_winner: None,
        match_winner: None,
        first_round_leader: opening_leader(state.dealer, state.completed_rounds),
    }
}

/// A well-formed engine: a valid live hand whose state is normalized, or a finished
/// hand whose normalized state is a valid finished state and whose cards keep
/// distinct ids.
pub open spec fn engine_ok(e: EngineView) -> bool {
    &&& e.first_round_leader == opening_leader(e.state.dealer, e.state.completed_rounds)
    &&& match e.hand_winner {
        None => {
            &&& live_result(e.state) is Ok
            &&& normalized(e.state) == e.state
            &&& e.match_winner is None
        },
        Some(w) => {
            &&& finished_ok(normalized(e.state), w, e.match_winner)
            &&& crate::validation::ids_distinct(e.state)
        },
    }
}

/// The engine loaded from a live state: normalized, then validated.
pub open spec fn loaded(state: StateView) -> Result<EngineView, EngineError> {
    let n = normalized(state);
    match live_result(n) {
        Err(e) => Err(e),
        Ok(()) => Ok(live_engine(n)),
    }
}

/// The engine restored from an exported state.
pub open spec fn restored(
    state: StateView,
    hand_winner: Option<Player>,
    match_winner: Option<Player>,
) -> Result<EngineView, EngineError> {
    let n = normalized(state);
    let checked = match hand_winner {
        Some(w) => if finished_ok(n, w, match_winner) {
            Ok(())
        } else {
            Err(EngineError::InvalidInitialState)
        },
        None => match live_result(n) {
            Err(e) => Err(e),
            Ok(()) => if match_winner_of(n.score) is Some || match_winner is Some {
                Err(EngineError::InvalidInitialState)
            } else {
                Ok(())
            },
        },
    };
    match checked {
        Err(e) => Err(e),
        Ok(()) => if match_winner != match_winner_of(n.score) {
            Err(EngineError::InvalidInitialState)
        } else {
            Ok(
                EngineView {
                    state: n,
                    hand_winner,
                    match_winner,
                    first_round_leader: opening_leader(n.dealer, n.completed_rounds),
                },
            )
        },
    }
}

/// The state in which a fresh hand opens.
pub open spec fn fresh_state(
    dealer: Player,
    score: Score,
    turnup: Turnup,
    zero: Seq<Card>,
    one: Seq<Card>,
) -> StateView {
    let decision = match eleven_decider(score) {
        Some(p) => Some(PendingDecision { kind: PendingDecisionKind::MaoDeOnze, player: p }),
        None => None,
    };
    StateView {
        dealer,
        next_player: Some(
            match eleven_decider(score) {
                Some(p) => p,
                None => opponent_of(dealer),
            },
        ),
        score,
        hand_value: opening_hand_value(score),
        turnup,
        hand_zero: zero,
        hand_one: one,
        completed_rounds: Seq::empty(),
        current_leader: opponent_of(dealer),
        current_plays: Seq::empty(),
        last_raised_by: None,
        pending_raise: None,
        pending_decision: decision,
    }
}

/// The error that keeps `player` from acting, if any.
pub open spec fn turn_error(e: EngineView, player: Player) -> Option<EngineError> {
    if e.hand_winner is Some {
        Some(EngineError::HandAlreadyDecided)
    } else if e.state.next_player != Some(player) {
        Some(EngineError::ActOutOfTurn)
    } else {
        None
    }
}

/// Face-down plays are allowed from the second round on.
pub open spec fn hiding_allowed(s: StateView) -> bool {
    s.completed_rounds.len() > 0
}

/// Whether `player` may open a raise.
pub open spec fn raise_open(s: StateView, player: Player) -> bool {
    &&& s.pending_raise is None
    &&& s.pending_decision is None
    &&& s.hand_value < MATCH_TARGET
    &&& !eleven_hand(s.score)
    &&& s.last_raised_by != Some(player)
}

/// Whether `player` may answer a pending raise with a higher one.
pub open spec fn reraise_open(s: StateView, player: Player) -> bool {
    match s.pending_raise {
        Some(raise) => {
            &&& ladder_next(raise.to) is Some
            &&& raise.raised_by != player
            &&& s.last_raised_by != Some(player)
        },
        None => false,
    }
}

/// The engine after `winner` takes the hand for `points`.
pub open spec fn hand_over(e: EngineView, winner: Player, points: u8) -> EngineView {
    let score = awarded(e.state.score, winner, points);
    EngineView {
        state: StateView {
            pending_raise: None,
            pending_decision: None,
            next_player: None,
            score,
            ..e.state
        },
        hand_winner: Some(winner),
        match_winner: match_winner_of(score),
        ..e
    }
}

/// `s` with the cards of `player` replaced by `hand`.
pub open spec fn with_hand(s: StateView, player: Player, hand: Seq<Card>) -> StateView {
    if player == 0 {
        StateView { hand_zero: hand, ..s }
    } else if player == 1 {
        StateView { hand_one: hand, ..s }
    } else {
        s
    }
}

/// The engine after the two plays of the current round are compared: the round is
/// recorded, its winner (or, on a tie, its leader) leads next, and the hand ends if
/// the rounds decide it.
pub open spec fn round_resolved(e: EngineView) -> EngineView {
    let s = e.state;
    let winner = round_winner(s.turnup, s.current_plays[0], s.current_plays[1]);
    let rounds = s.completed_rounds.push(
        RoundView { leader: s.current_leader, winner, plays: s.current_plays },
    );
    let leader = match winner {
        Some(w) => w,
        None => s.current_leader,
    };
    let s2 = StateView {
        completed_rounds: rounds,
        current_plays: Seq::empty(),
        current_leader: leader,
        ..s
    };
    match hand_winner_of(rounds, e.first_round_leader) {
        Some(w) => hand_over(EngineView { state: s2, ..e }, w, s.hand_value),
        None => EngineView { state: StateView { next_player: Some(leader), ..s2 }, ..e },
    }
}

/// Playing the card with id `card_id`, face up or face down.
pub open spec fn play_result(
    e: EngineView,
    player: Player,
    card_id: Seq<char>,
    visibility: Visibility,
) -> Result<EngineView, EngineError> {
    let s = e.state;
    if s.pending_decision is Some {
        Err(EngineError::DecisionPending)
    } else if s.pending_raise is Some {
        Err(EngineError::RaisePending)
    } else if visibility == Visibility::Down && !hiding_allowed(s) {
        Err(EngineError::HideNotAllowedInFirstRound)
    } else {
        match id_position(s.hand(player), card_id) {
            None => Err(EngineError::CardNotInHand),
            Some(i) => {
                let card = s.hand(player)[i];
                let s1 = StateView {
                    current_plays: s.current_plays.push(PlayedCard { player, visibility, card }),
                    ..with_hand(s, player, s.hand(player).remove(i))
                };
                if s1.current_plays.len() == 1 {
                    Ok(
                        EngineView {
                            state: StateView { next_player: Some(opponent_of(player)), ..s1 },
                            ..e
                        },
                    )
                } else {
                    Ok(round_resolved(EngineView { state: s1, ..e }))
                }
            },
        }
    }
}

/// Raising (or re-raising) the hand to `to`.
pub open spec fn raise_result(e: EngineView, player: Player, to: u8) -> Result<
    EngineView,
    EngineError,
> {
    let s = e.state;
    let (available, from) = match s.pending_raise {
        Some(raise) => (reraise_open(s, player), raise.to),
        None => (raise_open(s, player), s.hand_value),
    };
    if s.pending_decision is Some || eleven_hand(s.score) || !available {
        Err(EngineError::RaiseNotAllowed)
    } else {
        match ladder_next(from) {
            None => Err(EngineError::RaiseNotAllowed),
            Some(expected) => if to != expected {
                Err(EngineError::InvalidRaiseTarget)
            } else {
                Ok(
                    EngineView {
                        state: StateView {
                            pending_raise: Some(
                                PendingRaise { raised_by: player, to, previous_value: from },
                            ),
                            last_raised_by: Some(player),
                            next_player: Some(opponent_of(player)),
                            ..s
                        },
                        ..e
                    },
                )
            },
        }
    }
}

/// Accepting the pending raise: the hand is worth the raised value and play
/// resumes where it stopped.
pub open spec fn accept_raise_result(e: EngineView) -> Result<EngineView, EngineError> {
    let s = e.state;
    match s.pending_raise {
        None => Err(EngineError::NoPendingRaise),
        Some(raise) => Ok(
            EngineView {
                state: StateView {
                    pending_raise: None,
                    hand_value: raise.to,
                    next_player: Some(
                        if s.current_plays.len() == 0 {
                            s.current_leader
                        } else {
                            opponent_of(s.current_plays[0].player)
                        },
                    ),
                    ..s
                },
                ..e
            },
        ),
    }
}

/// Folding to the pending raise: the raiser takes the value the hand had before it.
pub open spec fn fold_result(e: EngineView) -> Result<EngineView, EngineError> {
    match e.state.pending_raise {
        None => Err(EngineError::NoPendingRaise),
        Some(raise) => Ok(
            hand_over(
                EngineView { state: StateView { pending_raise: None, ..e.state }, ..e },
                raise.raised_by,
                raise.previous_value,
            ),
        ),
    }
}

/// Accepting to play a hand on eleven: it is worth three and the round leader plays.
pub open spec fn accept_eleven_result(e: EngineView) -> Result<EngineView, EngineError> {
    let s = e.state;
    match s.pending_decision {
        None => Err(EngineError::NoPendingElevenDecision),
        Some(_) => Ok(
            EngineView {
                state: StateView {
                    pending_decision: None,
                    hand_value: ELEVEN_AUTO_HAND_VALUE,
                    next_player: Some(s.current_leader),
                    ..s
                },
                ..e
            },
        ),
    }
}

/// Declining to play a hand on eleven: the opponent takes one point.
pub open spec fn fold_eleven_result(e: EngineView) -> Result<EngineView, EngineError> {
    match e.state.pending_decision {
        None => Err(EngineError::NoPendingElevenDecision),
        Some(decision) => Ok(
            hand_over(
                EngineView { state: StateView { pending_decision: None, ..e.state }, ..e },
                opponent_of(decision.player),
                ELEVEN_FOLD_AWARD,
            ),
        ),
    }
}

/// What conceding pays the opponent: the value before a pending raise, else the hand value.
pub open spec fn concession_value(s: StateView) -> u8 {
    match s.pending_raise {
        Some(raise) => raise.previous_value,
        None => s.hand_value,
    }
}

/// Conceding the hand.
pub open spec fn concede_result(e: EngineView, player: Player) -> Result<EngineView, EngineError> {
    Ok(hand_over(e, opponent_of(player), concession_value(e.state)))
}

/// The engine after `player` takes `action`, or the error that rejects it.
pub open spec fn action_result(e: EngineView, player: Player, action: Action) -> Result<
    EngineView,
    EngineError,
> {
    match turn_error(e, player) {
        Some(err) => Err(err),
        None => match action {
            Action::PlayFaceUp { card_id } => play_result(e, player, card_id@, Visibility::Up),
            Action::PlayFaceDown { card_id } => play_result(e, player, card_id@, Visibility::Down),
            Action::Raise { to } => raise_result(e, player, to),
            Action::AcceptRaise => accept_raise_result(e),
            Action::Fold => fold_result(e),
            Action::AcceptEleven => accept_eleven_result(e),
            Action::FoldEleven => fold_eleven_result(e),
            Action::ConcedeHand => concede_result(e, player),
        },
    }
}

/// The card plays offered for `hand`: each card face up, then face down when hiding is allowed.
pub open spec fn card_actions(hand: Seq<Card>, hidden: bool) -> Seq<Action>
    decreases hand.len(),
{
    if hand.len() == 0 {
        Seq::empty()
    } else {
        let before = card_actions(hand.drop_last(), hidden);
        let up = before.push(Action::PlayFaceUp { card_id: hand.last().id });
        if hidden {
            up.push(Action::PlayFaceDown { card_id: hand.last().id })
        } else {
            up
        }
    }
}

/// The actions `player` may take, in the order the engine lists them.
pub open spec fn legal_action_seq(e: EngineView, player: Player) -> Result<
    Seq<Action>,
    EngineError,
> {
    let s = e.state;
    match turn_error(e, player) {
        Some(err) => Err(err),
        None => if let Some(decision) = s.pending_decision {
            if decision.player != player {
                Err(EngineError::ActOutOfTurn)
            } else {
                Ok(seq![Action::AcceptEleven, Action::FoldEleven, Action::ConcedeHand])
            }
        } else if let Some(raise) = s.pending_raise {
            let base = seq![Action::AcceptRaise, Action::Fold, Action::ConcedeHand];
            if reraise_open(s, player) {
                Ok(base.push(Action::Raise { to: ladder_next(raise.to).unwrap() }))
            } else {
                Ok(base)
            }
        } else {
            let cards = card_actions(s.hand(player), hiding_allowed(s));
            let with_raise = if raise_open(s, player) && ladder_next(s.hand_value) is Some {
                cards.push(Action::Raise { to: ladder_next(s.hand_value).unwrap() })
            } else {
                cards
            };
            Ok(with_raise.push(Action::ConcedeHand))
        },
    }
}

/// The actions of `actions` other than conceding the hand.
pub open spec fn strategic_only(actions: Seq<Action>) -> Seq<Action> {
    actions.filter(|action: Action| !(action is ConcedeHand))
}

} // verus!

verus! {

// ---------------------------------------------------------------------------
// Public views of a hand
// ---------------------------------------------------------------------------
pub open spec fn public_round(round: RoundView) -> PublicCompletedRound {
    PublicCompletedRound { leader: round.leader, winner: round.winner }
}

/// A play as the public sees it: face-down cards are not shown.
pub open spec fn public_play(play: PlayedCard) -> PublicPlay {
    PublicPlay {
        player: play.player,
        visibility: play.visibility,
        card: match play.visibility {
            Visibility::Up => Some(PublicCard { rank: play.card.rank, suit: play.card.suit }),
            Visibility::Down => None,
        },
    }
}

pub open spec fn public_decision(decision: Option<PendingDecision>) -> Option<PublicDecision> {
    match decision {
        Some(d) => Some(PublicDecision { kind: d.kind, player: d.player }),
        None => None,
    }
}

/// `p` shows exactly the public part of the engine `e`.
pub open spec fn shows_public(e: EngineView, p: PublicState) -> bool {
    &&& p.next_player == e.state.next_player
    &&& p.hand_value == e.state.hand_value
    &&& p.hand_winner == e.hand_winner
    &&& p.match_winner == e.match_winner
    &&& p.score == e.state.score
    &&& p.completed_rounds@ == e.state.completed_rounds.map_values(
        |round: RoundView| public_round(round),
    )
    &&& p.current_round.leader == e.state.current_leader
    &&& p.current_round.plays@ == e.state.current_plays.map_values(
        |play: PlayedCard| public_play(play),
    )
    &&& p.pending_raise == e.state.pending_raise
    &&& p.pending_decision == public_decision(e.state.pending_decision)
}

/// The engine of one hand of Truco.
#[derive(Debug, Clone)]
pub struct Engine {
    state: GameState,
    hand_winner: Option<Player>,
    match_winner: Option<Player>,
    first_round_leader: Player,
}

impl View for Engine {
    type V = EngineView;

    closed spec fn view(&self) -> EngineView {
        EngineView {
            state: self.state@,
            hand_winner: self.hand_winner,
            match_winner: self.match_winner,
            first_round_leader: self.first_round_leader,
        }
    }
}

fn filter_strategic_actions(actions: Vec<Action>) -> (r: Vec<Action>)
    ensures
        r@ == strategic_only(actions@),
{
    let mut out: Vec<Action> = Vec::new();
    let mut i: usize = 0;
    assert(actions@.subrange(0, 0) =~= Seq::<Action>::empty());
    while i < actions.len()
        invariant
            i <= actions@.len(),
            out@ == strategic_only(actions@.subrange(0, i as int)),
        decreases actions@.len() - i,
    {
        let ghost next = actions@.subrange(0, i + 1);
        assert(next.drop_last() =~= actions@.subrange(0, i as int));
        assert(next.last() == actions@[i as int]);
        reveal(Seq::filter);
        assert(strategic_only(next) == if !(next.last() is ConcedeHand) {
            strategic_only(next.drop_last()).push(next.last())
        } else {
            strategic_only(next.drop_last())
        });
        if actions[i].is_strategic() {
            out.push(actions[i].duplicate());
        }
        i += 1;
    }
    assert(actions@.subrange(0, i as int) =~= actions@);
    out
}

fn public_rounds(rounds: &[CompletedRound]) -> (r: Vec<PublicCompletedRound>)
    ensures
        r@ == rounds@.map_values(|round: CompletedRound| round@).map_values(
            |round: RoundView| public_round(round),
        ),
{
    let mut out: Vec<PublicCompletedRound> = Vec::new();
    let mut i: usize = 0;
    while i < rounds.len()
        invariant
            i <= rounds@.len(),
            out@.len() == i,
            forall|k: int| 0 <= k < i ==> #[trigger] out@[k] == public_round(rounds@[k]@),
        decreases rounds@.len() - i,
    {
        out.push(PublicCompletedRound { leader: rounds[i].leader, winner: rounds[i].winner });
        i += 1;
    }
    assert(out@ =~= rounds@.map_values(|round: CompletedRound| round@).map_values(
        |round: RoundView| public_round(round),
    ));
    out
}

fn public_plays(plays: &[PlayedCard]) -> (r: Vec<PublicPlay>)
    ensures
        r@ == plays@.map_values(|play: PlayedCard| public_play(play)),
{
    let mut out: Vec<PublicPlay> = Vec::new();
    let mut i: usize = 0;
    while i < plays.len()
        invariant
            i <= plays@.len(),
            out@.len() == i,
            forall|k: int| 0 <= k < i ==> #[trigger] out@[k] == public_play(plays@[k]),
        decreases plays@.len() - i,
    {
        let play = &plays[i];
        let card = match play.visibility {
            Visibility::Up => Some(PublicCard { rank: play.card.rank, suit: play.card.suit }),
            Visibility::Down => None,
        };
        out.push(PublicPlay { player: play.player, visibility: play.visibility, card });
        i += 1;
    }
    assert(out@ =~= plays@.map_values(|play: PlayedCard| public_play(play)));
    out
}

} // verus!

verus! {

impl Engine {
    /// Whether the engine is well formed; every constructor establishes it and every
    /// action keeps it.
    pub open spec fn wf(&self) -> bool {
        engine_ok(self@)
    }

    /// Deals a fresh hand: the dealer's opponent leads, and a player alone on eleven
    /// must first decide whether to play it.
    pub fn new_hand(dealer: Player, score: Score, turnup: Turnup, hands: Hands) -> (r: Result<
        Engine,
        EngineError,
    >)
        ensures
            match r {
                Ok(e) => e.wf() && loaded(
                    fresh_state(dealer, score, turnup, hands.zero@, hands.one@),
                ) == Ok::<EngineView, EngineError>(e@),
                Err(err) => loaded(fresh_state(dealer, score, turnup, hands.zero@, hands.one@))
                    == Err::<EngineView, EngineError>(err),
            },
    {
        let leader = other_player(dealer);
        let hand_value = starting_hand_value(&score);
        let pending_decision = match eleven_hand_decision_player(&score) {
            Some(player) => Some(PendingDecision { kind: PendingDecisionKind::MaoDeOnze, player }),
            None => None,
        };
        let next_player = match pending_decision {
            Some(decision) => decision.player,
            None => leader,
        };
        let state = GameState {
            dealer,
            next_player: Some(next_player),
            score,
            hand_value,
            turnup,
            hands,
            completed_rounds: RoundList::new(),
            current_round: CurrentRound { leader, plays: PlayList::new() },
            last_raised_by: None,
            pending_raise: None,
            pending_decision,
        };
        assert(state@ =~= fresh_state(dealer, score, turnup, hands.zero@, hands.one@));
        Self::from_state(state)
    }

    /// A copy of the engine with the same view.
    pub fn duplicate(&self) -> (r: Engine)
        ensures
            r@ == self@,
    {
        Engine {
            state: self.state.duplicate(),
            hand_winner: self.hand_winner,
            match_winner: self.match_winner,
            first_round_leader: self.first_round_leader,
        }
    }

    /// Builds an engine over a live hand state, normalized and then validated.
    pub fn from_state(state: GameState) -> (r: Result<Engine, EngineError>)
        ensures
            match r {
                Ok(e) => e.wf() && loaded(state@) == Ok::<EngineView, EngineError>(e@),
                Err(err) => loaded(state@) == Err::<EngineView, EngineError>(err),
            },
    {
        let state = normalize_state(state);
        let checked = validate_normalized_state(&state);
        match checked {
            Err(e) => Err(e),
            Ok(()) => {
                let first_round_leader = first_round_leader(
                    state.dealer,
                    state.completed_rounds.as_slice(),
                );
                let engine = Engine {
                    state,
                    hand_winner: None,
                    match_winner: None,
                    first_round_leader,
                };
                proof {
                    lemma_normalized_is_fixed(engine@.state);
                }
                Ok(engine)
            },
        }
    }

    /// Restores an engine from an exported state, live or finished.
    pub fn from_exported_state(exported: EngineState) -> (r: Result<Engine, EngineError>)
        ensures
            match r {
                Ok(e) => e.wf() && restored(
                    exported.state@,
                    exported.hand_winner,
                    exported.match_winner,
                ) == Ok::<EngineView, EngineError>(e@),
                Err(err) => restored(exported.state@, exported.hand_winner, exported.match_winner)
                    == Err::<EngineView, EngineError>(err),
            },
    {
        let state = normalize_state(exported.state);
        let checked = match exported.hand_winner {
            Some(winner) => validate_finished_normalized_state(&state, winner, exported.match_winner),
            None => match validate_normalized_state(&state) {
                Err(e) => Err(e),
                Ok(()) => if score_winner(&state.score).is_some()
                    || exported.match_winner.is_some() {
                    Err(EngineError::InvalidInitialState)
                } else {
                    Ok(())
                },
            },
        };
        if let Err(e) = checked {
            return Err(e);
        }
        let match_winner = score_winner(&state.score);
        if exported.match_winner != match_winner {
            return Err(EngineError::InvalidInitialState);
        }
        let first_round_leader = first_round_leader(state.dealer, state.completed_rounds.as_slice());
        let engine = Engine {
            state,
            hand_winner: exported.hand_winner,
            match_winner,
            first_round_leader,
        };
        proof {
            lemma_normalized_is_fixed(engine@.state);
        }
        Ok(engine)
    }

    pub fn current_player(&self) -> (r: Option<Player>)
        ensures
            r == self@.state.next_player,
    {
        self.state.next_player
    }

    pub fn hand_winner(&self) -> (r: Option<Player>)
        ensures
            r == self@.hand_winner,
    {
        self.hand_winner
    }

    pub fn match_winner(&self) -> (r: Option<Player>)
        ensures
            r == self@.match_winner,
    {
        self.match_winner
    }

    pub fn is_hand_over(&self) -> (r: bool)
        ensures
            r == self@.hand_winner is Some,
    {
        self.hand_winner.is_some()
    }

    pub fn is_match_over(&self) -> (r: bool)
        ensures
            r == self@.match_winner is Some,
    {
        self.match_winner.is_some()
    }

    pub fn state(&self) -> (r: &GameState)
        ensures
            r@ == self@.state,
    {
        &self.state
    }

    /// The hand's full state and outcome, for saving and restoring.
    pub fn export_state(&self) -> (r: EngineState)
        ensures
            r.state@ == self@.state,
            r.hand_winner == self@.hand_winner,
            r.match_winner == self@.match_winner,
    {
        EngineState {
            state: self.state.duplicate(),
            hand_winner: self.hand_winner,
            match_winner: self.match_winner,
        }
    }

    /// What both players may see of the hand.
    pub fn public_state(&self) -> (r: PublicState)
        ensures
            shows_public(self@, r),
    {
        let rounds = self.state.completed_rounds.as_slice();
        let completed_rounds = public_rounds(rounds);
        let plays = public_plays(self.state.current_round.plays.as_slice());
        let pending_decision = match self.state.pending_decision {
            Some(decision) => Some(PublicDecision { kind: decision.kind, player: decision.player }),
            None => None,
        };
        PublicState {
            next_player: self.state.next_player,
            hand_value: self.state.hand_value,
            hand_winner: self.hand_winner,
            match_winner: self.match_winner,
            score: self.state.score,
            completed_rounds,
            current_round: PublicRound { leader: self.state.current_round.leader, plays },
            pending_raise: self.state.pending_raise,
            pending_decision,
        }
    }

    /// The public state together with `player`'s own cards.
    pub fn player_view(&self, player: Player) -> (r: Result<PlayerHandView, EngineError>)
        ensures
            match r {
                Ok(view) => is_player_id(player) && shows_public(self@, view.public_state)
                    && view.hand@ == self@.state.hand(player),
                Err(err) => !is_player_id(player) && err == EngineError::InvalidPlayer,
            },
    {
        if !(player == 0 || player == 1) {
            return Err(EngineError::InvalidPlayer);
        }
        let hand = crate::lists::copy_cards(self.state.hands.player(player));
        Ok(PlayerHandView { public_state: self.public_state(), hand })
    }
}

/// A normalized state whose card ids are distinct is its own normal form.
pub proof fn lemma_normalized_is_fixed(n: StateView)
    requires
        exists|s: StateView| normalized(s) == n,
        crate::validation::ids_distinct(n),
    ensures
        normalized(n) == n,
{
    let s = choose|s: StateView| normalized(s) == n;
    crate::validation::lemma_strip_unchanged(n);
    assert(normalized(n) =~= n);
}

} // verus!

verus! {

fn card_play_actions(hand: &[Card], hidden: bool) -> (r: Vec<Action>)
    ensures
        r@ == card_actions(hand@, hidden),
{
    let mut actions: Vec<Action> = Vec::new();
    let mut i: usize = 0;
    assert(hand@.subrange(0, 0) =~= Seq::<Card>::empty());
    while i < hand.len()
        invariant
            i <= hand@.len(),
            actions@ == card_actions(hand@.subrange(0, i as int), hidden),
        decreases hand@.len() - i,
    {
        let ghost next = hand@.subrange(0, i + 1);
        assert(next.drop_last() =~= hand@.subrange(0, i as int));
        assert(next.last() == hand@[i as int]);
        actions.push(Action::PlayFaceUp { card_id: hand[i].id.clone() });
        if hidden {
            actions.push(Action::PlayFaceDown { card_id: hand[i].id.clone() });
        }
        i += 1;
    }
    assert(hand@.subrange(0, i as int) =~= hand@);
    actions
}

impl Engine {
    fn ensure_active_turn(&self, player: Player) -> (r: Result<(), EngineError>)
        ensures
            r == match turn_error(self@, player) {
                Some(e) => Err::<(), EngineError>(e),
                None => Ok(()),
            },
    {
        if self.hand_winner.is_some() {
            return Err(EngineError::HandAlreadyDecided);
        }
        match self.state.next_player {
            Some(expected) => if expected == player {
                Ok(())
            } else {
                Err(EngineError::ActOutOfTurn)
            },
            None => Err(EngineError::ActOutOfTurn),
        }
    }

    fn hidden_play_allowed(&self) -> (r: bool)
        ensures
            r == hiding_allowed(self@.state),
    {
        self.state.completed_rounds.len() > 0
    }

    fn raise_available(&self, player: Player) -> (r: bool)
        ensures
            r == raise_open(self@.state, player),
    {
        self.state.pending_raise.is_none() && self.state.pending_decision.is_none()
            && self.state.hand_value < MATCH_TARGET && !score_triggers_eleven_hand(
            &self.state.score,
        ) && self.state.last_raised_by != Some(player)
    }

    fn re_raise_available(&self, player: Player) -> (r: bool)
        ensures
            r == reraise_open(self@.state, player),
    {
        match self.state.pending_raise {
            Some(raise) => next_raise_after(raise.to).is_some() && raise.raised_by != player
                && self.state.last_raised_by != Some(player),
            None => false,
        }
    }

    /// The actions `player` may take now, in a stable order.
    pub fn legal_actions(&self, player: Player) -> (r: Result<Vec<Action>, EngineError>)
        ensures
            match r {
                Ok(actions) => legal_action_seq(self@, player) == Ok::<Seq<Action>, EngineError>(
                    actions@,
                ),
                Err(e) => legal_action_seq(self@, player) == Err::<Seq<Action>, EngineError>(e),
            },
    {
        if let Err(e) = self.ensure_active_turn(player) {
            return Err(e);
        }
        if let Some(decision) = self.state.pending_decision {
            if decision.player != player {
                return Err(EngineError::ActOutOfTurn);
            }
            let actions = vec![Action::AcceptEleven, Action::FoldEleven, Action::ConcedeHand];
            assert(actions@ =~= seq![Action::AcceptEleven, Action::FoldEleven, Action::ConcedeHand]);
            return Ok(actions);
        }
        if let Some(raise) = self.state.pending_raise {
            let mut actions = vec![Action::AcceptRaise, Action::Fold, Action::ConcedeHand];
            assert(actions@ =~= seq![Action::AcceptRaise, Action::Fold, Action::ConcedeHand]);
            if self.re_raise_available(player) {
                match next_raise_after(raise.to) {
                    Some(next_value) => {
                        actions.push(Action::Raise { to: next_value });
                    },
                    None => {},
                }
            }
            return Ok(actions);
        }
        let mut actions = card_play_actions(self.state.hands.player(player), self.hidden_play_allowed());
        if self.raise_available(player) {
            if let Some(next_value) = next_raise_after(self.state.hand_value) {
                actions.push(Action::Raise { to: next_value });
            }
        }
        actions.push(Action::ConcedeHand);
        Ok(actions)
    }

    /// The legal actions other than conceding the hand.
    pub fn strategic_legal_actions(&self, player: Player) -> (r: Result<Vec<Action>, EngineError>)
        ensures
            match r {
                Ok(actions) => legal_action_seq(self@, player) matches Ok(all) && actions@
                    == strategic_only(all),
                Err(e) => legal_action_seq(self@, player) == Err::<Seq<Action>, EngineError>(e),
            },
    {
        match self.legal_actions(player) {
            Ok(actions) => Ok(filter_strategic_actions(actions)),
            Err(e) => Err(e),
        }
    }

    /// The legal actions of the player whose turn it is.
    pub fn legal_actions_for_current_player(&self) -> (r: Result<Vec<Action>, EngineError>)
        ensures
            match self@.state.next_player {
                None => r == Err::<Vec<Action>, EngineError>(EngineError::HandAlreadyDecided),
                Some(p) => match r {
                    Ok(actions) => legal_action_seq(self@, p) == Ok::<Seq<Action>, EngineError>(
                        actions@,
                    ),
                    Err(e) => legal_action_seq(self@, p) == Err::<Seq<Action>, EngineError>(e),
                },
            },
    {
        match self.current_player() {
            None => Err(EngineError::HandAlreadyDecided),
            Some(player) => self.legal_actions(player),
        }
    }

    /// The strategic legal actions of the player whose turn it is.
    pub fn strategic_legal_actions_for_current_player(&self) -> (r: Result<
        Vec<Action>,
        EngineError,
    >)
        ensures
            match self@.state.next_player {
                None => r == Err::<Vec<Action>, EngineError>(EngineError::HandAlreadyDecided),
                Some(p) => match r {
                    Ok(actions) => legal_action_seq(self@, p) matches Ok(all) && actions@
                        == strategic_only(all),
                    Err(e) => legal_action_seq(self@, p) == Err::<Seq<Action>, EngineError>(e),
                },
            },
    {
        match self.legal_actions_for_current_player() {
            Ok(actions) => Ok(filter_strategic_actions(actions)),
            Err(e) => Err(e),
        }
    }
}

} // verus!

verus! {

proof fn lemma_first_round_winner_is_player(rounds: Seq<RoundView>)
    requires
        forall|i: int|
            0 <= i < rounds.len() ==> ((#[trigger] rounds[i]).winner matches Some(w)
                ==> is_player_id(w)),
    ensures
        first_round_winner_is_player(rounds),
    decreases rounds.len(),
{
    if rounds.len() > 0 && rounds[0].winner is None {
        let rest = rounds.drop_first();
        assert forall|i: int| 0 <= i < rest.len() implies ((#[trigger] rest[i]).winner matches Some(
            w,
        ) ==> is_player_id(w)) by {
            assert(rest[i] == rounds[i + 1]);
        }
        lemma_first_round_winner_is_player(rest);
    }
}

pub open spec fn first_round_winner_is_player(rounds: Seq<RoundView>) -> bool {
    crate::rules::first_round_winner(rounds) matches Some(w) ==> is_player_id(w)
}

/// When every round's winner and the first leader are players, so is the hand's winner.
pub proof fn lemma_hand_winner_is_player_for(rounds: Seq<RoundView>, first_leader: Player)
    requires
        is_player_id(first_leader),
        forall|i: int|
            0 <= i < rounds.len() ==> ((#[trigger] rounds[i]).winner matches Some(w)
                ==> is_player_id(w)),
    ensures
        hand_winner_of(rounds, first_leader) matches Some(w) ==> is_player_id(w),
{
    lemma_first_round_winner_is_player(rounds);
}

proof fn lemma_hand_winner_is_player(rounds: Seq<RoundView>, first_leader: Player)
    requires
        is_player_id(first_leader),
        forall|i: int|
            0 <= i < rounds.len() ==> ((#[trigger] rounds[i]).winner matches Some(w)
                ==> is_player_id(w)),
    ensures
        hand_winner_of(rounds, first_leader) matches Some(w) ==> is_player_id(w),
{
    lemma_first_round_winner_is_player(rounds);
}

impl Engine {
    fn end_hand(&mut self, winner: Player, awarded_value: u8)
        requires
            is_player_id(winner),
        ensures
            final(self)@ == hand_over(old(self)@, winner, awarded_value),
    {
        self.hand_winner = Some(winner);
        self.state.pending_raise = None;
        self.state.pending_decision = None;
        self.state.next_player = None;
        self.state.score.award(winner, awarded_value);
        self.match_winner = score_winner(&self.state.score);
    }

    fn resolve_round(&mut self)
        requires
            old(self)@.state.current_plays.len() >= 2,
            old(self)@.state.completed_rounds.len() < 3,
            is_player_id(old(self)@.state.current_plays[0].player),
            is_player_id(old(self)@.state.current_plays[1].player),
            is_player_id(old(self)@.state.current_leader),
            is_player_id(old(self).first_round_leader),
            forall|i: int|
                0 <= i < old(self)@.state.completed_rounds.len() ==> ((#[trigger] old(
                    self,
                )@.state.completed_rounds[i]).winner matches Some(w) ==> is_player_id(w)),
        ensures
            final(self)@ == round_resolved(old(self)@),
    {
        let ghost e = self@;
        let plays = self.state.current_round.plays.as_slice();
        let winner = compare_plays(&self.state.turnup, &plays[0], &plays[1]);
        let leader = self.state.current_round.leader;
        let round_plays = self.state.current_round.plays.clone();
        self.state.completed_rounds.push(CompletedRound { leader, winner, plays: round_plays });
        assert(self@.state.completed_rounds =~= e.state.completed_rounds.push(
            RoundView { leader, winner, plays: e.state.current_plays },
        ));
        self.state.current_round.plays.clear();
        let next_leader = match winner {
            Some(w) => w,
            None => leader,
        };
        self.state.current_round.leader = next_leader;
        proof {
            let rounds_view = self@.state.completed_rounds;
            assert forall|i: int| 0 <= i < rounds_view.len() implies ((
            #[trigger] rounds_view[i]).winner matches Some(w) ==> is_player_id(w)) by {
                if i < e.state.completed_rounds.len() {
                    assert(rounds_view[i] == e.state.completed_rounds[i]);
                }
            }
            lemma_hand_winner_is_player(rounds_view, e.first_round_leader);
        }
        match decide_hand_winner(self.state.completed_rounds.as_slice(), self.first_round_leader) {
            Some(hand_winner) => {
                let value = self.state.hand_value;
                self.end_hand(hand_winner, value);
            },
            None => {
                self.state.next_player = Some(next_leader);
            },
        }
    }
}

} // verus!

verus! {

impl Engine {
    fn apply_play(&mut self, player: Player, card_id: &String, visibility: Visibility) -> (r: Result<
        (),
        EngineError,
    >)
        requires
            old(self).wf(),
            old(self)@.hand_winner is None,
            old(self)@.state.next_player == Some(player),
        ensures
            match play_result(old(self)@, player, card_id@, visibility) {
                Ok(v) => r is Ok && final(self)@ == v,
                Err(e) => r == Err::<(), EngineError>(e) && final(self)@ == old(self)@,
            },
    {
        let ghost e = self@;
        if self.state.pending_decision.is_some() {
            return Err(EngineError::DecisionPending);
        }
        if self.state.pending_raise.is_some() {
            return Err(EngineError::RaisePending);
        }
        if visibility == Visibility::Down && !self.hidden_play_allowed() {
            return Err(EngineError::HideNotAllowedInFirstRound);
        }
        let hand = self.state.hands.player(player);
        let index = match find_card_index(hand, card_id) {
            Some(index) => index,
            None => {
                return Err(EngineError::CardNotInHand);
            },
        };
        let card = if player == 0 {
            self.state.hands.zero.remove(index)
        } else {
            self.state.hands.one.remove(index)
        };
        self.state.current_round.plays.push(PlayedCard { player, visibility, card });
        let count = self.state.current_round.plays.len();
        if count == 1 {
            self.state.next_player = Some(other_player(player));
            assert(self@ =~= play_result(e, player, card_id@, visibility).unwrap());
            return Ok(());
        }
        proof {
            assert(self@.state.current_plays[1].player == player);
            assert(self@.state.current_plays[0] == e.state.current_plays[0]);
        }
        let ghost before = self@;
        assert(before =~= EngineView {
            state: StateView {
                current_plays: e.state.current_plays.push(PlayedCard { player, visibility, card }),
                ..with_hand(e.state, player, e.state.hand(player).remove(index as int))
            },
            ..e
        });
        self.resolve_round();
        Ok(())
    }

    fn apply_raise(&mut self, player: Player, to: u8) -> (r: Result<(), EngineError>)
        ensures
            match raise_result(old(self)@, player, to) {
                Ok(v) => r is Ok && final(self)@ == v,
                Err(e) => r == Err::<(), EngineError>(e) && final(self)@ == old(self)@,
            },
    {
        if self.state.pending_decision.is_some() {
            return Err(EngineError::RaiseNotAllowed);
        }
        if score_triggers_eleven_hand(&self.state.score) {
            return Err(EngineError::RaiseNotAllowed);
        }
        let (available, escalates_from) = match self.state.pending_raise {
            Some(raise) => (self.re_raise_available(player), raise.to),
            None => (self.raise_available(player), self.state.hand_value),
        };
        if !available {
            return Err(EngineError::RaiseNotAllowed);
        }
        let expected = match next_raise_after(escalates_from) {
            Some(expected) => expected,
            None => {
                return Err(EngineError::RaiseNotAllowed);
            },
        };
        if to != expected {
            return Err(EngineError::InvalidRaiseTarget);
        }
        self.state.pending_raise = Some(
            PendingRaise { raised_by: player, to, previous_value: escalates_from },
        );
        self.state.last_raised_by = Some(player);
        self.state.next_player = Some(other_player(player));
        Ok(())
    }

    fn apply_accept_raise(&mut self) -> (r: Result<(), EngineError>)
        ensures
            match accept_raise_result(old(self)@) {
                Ok(v) => r is Ok && final(self)@ == v,
                Err(e) => r == Err::<(), EngineError>(e) && final(self)@ == old(self)@,
            },
    {
        let raise = match self.state.pending_raise {
            Some(raise) => raise,
            None => {
                return Err(EngineError::NoPendingRaise);
            },
        };
        self.state.pending_raise = None;
        self.state.hand_value = raise.to;
        let plays = self.state.current_round.plays.as_slice();
        self.state.next_player = if plays.len() == 0 {
            Some(self.state.current_round.leader)
        } else {
            Some(other_player(plays[0].player))
        };
        Ok(())
    }

    fn apply_fold(&mut self) -> (r: Result<(), EngineError>)
        requires
            old(self)@.state.pending_raise matches Some(raise) ==> is_player_id(raise.raised_by),
        ensures
            match fold_result(old(self)@) {
                Ok(v) => r is Ok && final(self)@ == v,
                Err(e) => r == Err::<(), EngineError>(e) && final(self)@ == old(self)@,
            },
    {
        let raise = match self.state.pending_raise {
            Some(raise) => raise,
            None => {
                return Err(EngineError::NoPendingRaise);
            },
        };
        self.state.pending_raise = None;
        self.end_hand(raise.raised_by, raise.previous_value);
        Ok(())
    }

    fn apply_accept_eleven(&mut self) -> (r: Result<(), EngineError>)
        ensures
            match accept_eleven_result(old(self)@) {
                Ok(v) => r is Ok && final(self)@ == v,
                Err(e) => r == Err::<(), EngineError>(e) && final(self)@ == old(self)@,
            },
    {
        if self.state.pending_decision.is_none() {
            return Err(EngineError::NoPendingElevenDecision);
        }
        self.state.pending_decision = None;
        self.state.hand_value = ELEVEN_AUTO_HAND_VALUE;
        self.state.next_player = Some(self.state.current_round.leader);
        Ok(())
    }

    fn apply_fold_eleven(&mut self) -> (r: Result<(), EngineError>)
        ensures
            match fold_eleven_result(old(self)@) {
                Ok(v) => r is Ok && final(self)@ == v,
                Err(e) => r == Err::<(), EngineError>(e) && final(self)@ == old(self)@,
            },
    {
        let decision = match self.state.pending_decision {
            Some(decision) => decision,
            None => {
                return Err(EngineError::NoPendingElevenDecision);
            },
        };
        self.state.pending_decision = None;
        self.end_hand(other_player(decision.player), ELEVEN_FOLD_AWARD);
        Ok(())
    }

    fn apply_concede_hand(&mut self, player: Player) -> (r: Result<(), EngineError>)
        ensures
            match concede_result(old(self)@, player) {
                Ok(v) => r is Ok && final(self)@ == v,
                Err(e) => r == Err::<(), EngineError>(e) && final(self)@ == old(self)@,
            },
    {
        let awarded_value = match self.state.pending_raise {
            Some(raise) => raise.previous_value,
            None => self.state.hand_value,
        };
        self.end_hand(other_player(player), awarded_value);
        Ok(())
    }

    /// Applies `action` for `player`. On success the engine moves to the state the
    /// rules prescribe; on error it is left unchanged.
    pub fn apply_action(&mut self, player: Player, action: &Action) -> (r: Result<(), EngineError>)
        requires
            old(self).wf(),
        ensures
            final(self).wf(),
            match action_result(old(self)@, player, *action) {
                Ok(v) => r is Ok && final(self)@ == v,
                Err(e) => r == Err::<(), EngineError>(e) && final(self)@ == old(self)@,
            },
    {
        if let Err(e) = self.ensure_active_turn(player) {
            return Err(e);
        }
        proof {
            if action_result(self@, player, *action) is Ok {
                crate::invariants::lemma_action_keeps_engine_ok(self@, player, *action);
            }
        }
        match action {
            Action::PlayFaceUp { card_id } => self.apply_play(player, card_id, Visibility::Up),
            Action::PlayFaceDown { card_id } => self.apply_play(player, card_id, Visibility::Down),
            Action::Raise { to } => self.apply_raise(player, *to),
            Action::AcceptRaise => self.apply_accept_raise(),
            Action::Fold => self.apply_fold(),
            Action::AcceptEleven => self.apply_accept_eleven(),
            Action::FoldEleven => self.apply_fold_eleven(),
            Action::ConcedeHand => self.apply_concede_hand(player),
        }
    }

    /// Applies `action` for the player whose turn it is, and returns that player.
    pub fn apply_action_for_current_player(&mut self, action: &Action) -> (r: Result<
        Player,
        EngineError,
    >)
        requires
            old(self).wf(),
        ensures
            final(self).wf(),
            match old(self)@.state.next_player {
                None => r == Err::<Player, EngineError>(EngineError::HandAlreadyDecided)
                    && final(self)@ == old(self)@,
                Some(p) => match action_result(old(self)@, p, *action) {
                    Ok(v) => r == Ok::<Player, EngineError>(p) && final(self)@ == v,
                    Err(e) => r == Err::<Player, EngineError>(e) && final(self)@ == old(self)@,
                },
            },
    {
        let player = match self.current_player() {
            Some(player) => player,
            None => {
                return Err(EngineError::HandAlreadyDecided);
            },
        };
        match self.apply_action(player, action) {
            Ok(()) => Ok(player),
            Err(e) => Err(e),
        }
    }
}

} // verus!
