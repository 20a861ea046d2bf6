//! Fixtures: a hand's initial state and a script of steps that check what the engine
//! allows, apply actions, and compare what the engine shows with expected JSON.
use vstd::prelude::*;

use crate::actions::Action;
use crate::engine::{action_result, legal_action_seq, restored, shows_public, Engine, EngineView};
use crate::engine_types::PublicState;
use crate::error::{engine_error_code, EngineError};
use crate::json_model::{
    assert_expected_subset, mismatch_agrees, mismatch_view, subset_mismatch, JsonValue,
    SubsetMismatch,
};
use crate::state::{GameState, Player};
use crate::validation::{live_result, normalized};

verus! {

/// A fixture document.
#[derive(Debug)]
pub struct EngineFixture {
    pub fixture_version: String,
    pub id: String,
    pub ruleset: String,
    pub description: String,
    pub initial_state: GameState,
    pub steps: Vec<FixtureStep>,
    pub expect_initial_state_error: Option<String>,
}

/// One step of a fixture's script.
#[derive(Debug)]
pub enum FixtureStep {
    AssertLegalActions { player: Player, must_include: Vec<Action>, must_exclude: Vec<Action> },
    ApplyAction { player: Player, action: Action },
    AssertState { expect: JsonValue },
    AssertExportRoundTrip { expect: JsonValue },
    AssertRejectedAction { player: Player, action: Action, error_code: String },
}

/// The outcome of running a fixture.
#[derive(Debug, Clone, PartialEq, Eq)]
pub struct FixtureRunReport {
    pub fixture_id: String,
    pub status: FixtureRunStatus,
    pub message: String,
}

#[derive(Debug, Clone, Copy, PartialEq, Eq, Structural)]
pub enum FixtureRunStatus {
    Pass,
    Fail,
}

/// Why a step failed.
#[derive(Debug)]
pub enum StepFailure {
    LegalActions(EngineError),
    MissingLegalAction(Action),
    UnexpectedLegalAction(Action),
    ApplyAction(EngineError),
    StateMismatch(SubsetMismatch),
    RestoreFailed(EngineError),
    RoundTripChanged,
    RoundTripMismatch(SubsetMismatch),
    RejectedActionSucceeded(Action),
    WrongRejection(EngineError),
}

/// How a fixture's expected initial-state error compares with the validator's verdict.
#[derive(Debug, Clone, Copy, PartialEq, Eq, Structural)]
pub enum InitialStateCheck {
    Accepted,
    RejectedAsExpected,
    RejectedWith(EngineError),
}

/// Whether two actions are the same action (card ids compared by their text).
pub open spec fn same_action(a: Action, b: Action) -> bool {
    match (a, b) {
        (Action::PlayFaceUp { card_id: x }, Action::PlayFaceUp { card_id: y }) => x@ == y@,
        (Action::PlayFaceDown { card_id: x }, Action::PlayFaceDown { card_id: y }) => x@ == y@,
        (Action::Raise { to: x }, Action::Raise { to: y }) => x == y,
        (Action::AcceptRaise, Action::AcceptRaise) => true,
        (Action::Fold, Action::Fold) => true,
        (Action::AcceptEleven, Action::AcceptEleven) => true,
        (Action::FoldEleven, Action::FoldEleven) => true,
        (Action::ConcedeHand, Action::ConcedeHand) => true,
        _ => false,
    }
}

/// Whether `actions` holds the action `a`.
pub open spec fn holds_action(actions: Seq<Action>, a: Action) -> bool {
    exists|i: int| 0 <= i < actions.len() && same_action(#[trigger] actions[i], a)
}

/// The first of `wanted` that `actions` lacks.
pub open spec fn first_missing(actions: Seq<Action>, wanted: Seq<Action>) -> Option<int>
    decreases wanted.len(),
{
    if wanted.len() == 0 {
        None
    } else if !holds_action(actions, wanted[0]) {
        Some(0)
    } else {
        match first_missing(actions, wanted.drop_first()) {
            Some(i) => Some(i + 1),
            None => None,
        }
    }
}

/// The first of `unwanted` that `actions` holds.
pub open spec fn first_present(actions: Seq<Action>, unwanted: Seq<Action>) -> Option<int>
    decreases unwanted.len(),
{
    if unwanted.len() == 0 {
        None
    } else if holds_action(actions, unwanted[0]) {
        Some(0)
    } else {
        match first_present(actions, unwanted.drop_first()) {
            Some(i) => Some(i + 1),
            None => None,
        }
    }
}

/// What a step does to the engine `e`, given the JSON `rendered` of the public state
/// `e` shows: the engine it leaves and the result it gives.
pub open spec fn step_outcome(
    e: EngineView,
    step: FixtureStep,
    rendered: JsonValue,
    after: EngineView,
    r: Result<(), StepFailure>,
) -> bool {
    match step {
        FixtureStep::AssertLegalActions { player, must_include, must_exclude } => after == e
            && match legal_action_seq(e, player) {
            Err(err) => r matches Err(StepFailure::LegalActions(x)) && x == err,
            Ok(actions) => match first_missing(actions, must_include@) {
                Some(i) => r matches Err(StepFailure::MissingLegalAction(a)) && same_action(
                    a,
                    must_include@[i],
                ),
                None => match first_present(actions, must_exclude@) {
                    Some(i) => r matches Err(StepFailure::UnexpectedLegalAction(a)) && same_action(
                        a,
                        must_exclude@[i],
                    ),
                    None => r is Ok,
                },
            },
        },
        FixtureStep::ApplyAction { player, action } => match action_result(e, player, action) {
            Ok(v) => r is Ok && after == v,
            Err(err) => r matches Err(StepFailure::ApplyAction(x)) && x == err && after == e,
        },
        FixtureStep::AssertState { expect } => after == e && match subset_mismatch(rendered, expect) {
            None => r is Ok,
            Some(m) => r matches Err(StepFailure::StateMismatch(x)) && mismatch_agrees(
                mismatch_view(x),
                m,
            ),
        },
        FixtureStep::AssertExportRoundTrip { expect } => match restored(
            e.state,
            e.hand_winner,
            e.match_winner,
        ) {
            Err(err) => r matches Err(StepFailure::RestoreFailed(x)) && x == err && after == e,
            Ok(v) => match subset_mismatch(rendered, expect) {
                None => r is Ok && after == v,
                Some(m) => r matches Err(StepFailure::RoundTripMismatch(x)) && mismatch_agrees(
                    mismatch_view(x),
                    m,
                ) && after == e,
            },
        },
        FixtureStep::AssertRejectedAction { player, action, error_code } => match action_result(
            e,
            player,
            action,
        ) {
            Ok(v) => r matches Err(StepFailure::RejectedActionSucceeded(a)) && same_action(a, action)
                && after == v,
            Err(err) => after == e && if engine_error_code(err) == error_code@ {
                r is Ok
            } else {
                r matches Err(StepFailure::WrongRejection(x)) && x == err
            },
        },
    }
}

/// Whether two actions are the same action.
pub fn actions_match(a: &Action, b: &Action) -> (r: bool)
    ensures
        r == same_action(*a, *b),
{
    match (a, b) {
        (Action::PlayFaceUp { card_id: x }, Action::PlayFaceUp { card_id: y }) => x.eq(y),
        (Action::PlayFaceDown { card_id: x }, Action::PlayFaceDown { card_id: y }) => x.eq(y),
        (Action::Raise { to: x }, Action::Raise { to: y }) => *x == *y,
        (Action::AcceptRaise, Action::AcceptRaise) => true,
        (Action::Fold, Action::Fold) => true,
        (Action::AcceptEleven, Action::AcceptEleven) => true,
        (Action::FoldEleven, Action::FoldEleven) => true,
        (Action::ConcedeHand, Action::ConcedeHand) => true,
        _ => false,
    }
}

fn contains_action(actions: &Vec<Action>, a: &Action) -> (r: bool)
    ensures
        r == holds_action(actions@, *a),
{
    let mut i: usize = 0;
    while i < actions.len()
        invariant
            i <= actions@.len(),
            forall|k: int| 0 <= k < i ==> !same_action(#[trigger] actions@[k], *a),
        decreases actions@.len() - i,
    {
        if actions_match(&actions[i], a) {
            return true;
        }
        i += 1;
    }
    false
}

fn find_missing(actions: &Vec<Action>, wanted: &Vec<Action>) -> (r: Option<usize>)
    ensures
        match r {
            Some(i) => i < wanted@.len() && first_missing(actions@, wanted@) == Some(i as int),
            None => first_missing(actions@, wanted@) is None,
        },
{
    let mut i: usize = 0;
    assert(wanted@.skip(0) =~= wanted@);
    while i < wanted.len()
        invariant
            i <= wanted@.len(),
            first_missing(actions@, wanted@) == match first_missing(actions@, wanted@.skip(i as int)) {
                Some(k) => Some(k + i),
                None => None,
            },
        decreases wanted@.len() - i,
    {
        assert(wanted@.skip(i as int).drop_first() =~= wanted@.skip(i as int + 1));
        assert(wanted@.skip(i as int)[0] == wanted@[i as int]);
        if !contains_action(actions, &wanted[i]) {
            return Some(i);
        }
        i += 1;
    }
    assert(wanted@.skip(i as int).len() == 0);
    None
}

fn find_present(actions: &Vec<Action>, unwanted: &Vec<Action>) -> (r: Option<usize>)
    ensures
        match r {
            Some(i) => i < unwanted@.len() && first_present(actions@, unwanted@) == Some(i as int),
            None => first_present(actions@, unwanted@) is None,
        },
{
    let mut i: usize = 0;
    assert(unwanted@.skip(0) =~= unwanted@);
    while i < unwanted.len()
        invariant
            i <= unwanted@.len(),
            first_present(actions@, unwanted@) == match first_present(
                actions@,
                unwanted@.skip(i as int),
            ) {
                Some(k) => Some(k + i),
                None => None,
            },
        decreases unwanted@.len() - i,
    {
        assert(unwanted@.skip(i as int).drop_first() =~= unwanted@.skip(i as int + 1));
        assert(unwanted@.skip(i as int)[0] == unwanted@[i as int]);
        if contains_action(actions, &unwanted[i]) {
            return Some(i);
        }
        i += 1;
    }
    assert(unwanted@.skip(i as int).len() == 0);
    None
}

/// Whether two public states are equal.
pub open spec fn public_eq(a: PublicState, b: PublicState) -> bool {
    &&& a.next_player == b.next_player
    &&& a.hand_value == b.hand_value
    &&& a.hand_winner == b.hand_winner
    &&& a.match_winner == b.match_winner
    &&& a.score == b.score
    &&& a.completed_rounds@ == b.completed_rounds@
    &&& a.current_round.leader == b.current_round.leader
    &&& a.current_round.plays@ == b.current_round.plays@
    &&& a.pending_raise == b.pending_raise
    &&& a.pending_decision == b.pending_decision
}

fn same_public_state(a: &PublicState, b: &PublicState) -> (r: bool)
    ensures
        r == public_eq(*a, *b),
{
    if a.next_player != b.next_player || a.hand_value != b.hand_value || a.hand_winner
        != b.hand_winner || a.match_winner != b.match_winner || a.score != b.score
        || a.current_round.leader != b.current_round.leader || a.pending_raise != b.pending_raise
        || a.pending_decision != b.pending_decision {
        return false;
    }
    if a.completed_rounds.len() != b.completed_rounds.len() || a.current_round.plays.len()
        != b.current_round.plays.len() {
        return false;
    }
    let mut i: usize = 0;
    while i < a.completed_rounds.len()
        invariant
            i <= a.completed_rounds@.len(),
            a.completed_rounds@.len() == b.completed_rounds@.len(),
            forall|k: int| 0 <= k < i ==> a.completed_rounds@[k] == b.completed_rounds@[k],
        decreases a.completed_rounds@.len() - i,
    {
        if a.completed_rounds[i] != b.completed_rounds[i] {
            return false;
        }
        i += 1;
    }
    let mut j: usize = 0;
    while j < a.current_round.plays.len()
        invariant
            j <= a.current_round.plays@.len(),
            a.current_round.plays@.len() == b.current_round.plays@.len(),
            forall|k: int| 0 <= k < j ==> a.current_round.plays@[k] == b.current_round.plays@[k],
        decreases a.current_round.plays@.len() - j,
    {
        if a.current_round.plays[j] != b.current_round.plays[j] {
            return false;
        }
        j += 1;
    }
    assert(a.completed_rounds@ =~= b.completed_rounds@);
    assert(a.current_round.plays@ =~= b.current_round.plays@);
    true
}

/// Compares a fixture's expected initial-state error with the validator's verdict.
pub fn check_initial_state_error(state: &GameState, expected_code: &String) -> (r: InitialStateCheck)
    ensures
        match live_result(normalized(state@)) {
            Ok(()) => r == InitialStateCheck::Accepted,
            Err(e) => if engine_error_code(e) == expected_code@ {
                r == InitialStateCheck::RejectedAsExpected
            } else {
                r == InitialStateCheck::RejectedWith(e)
            },
        },
{
    match crate::validation::validate_state(state) {
        Ok(()) => InitialStateCheck::Accepted,
        Err(error) => {
            let code = error.code().to_owned();
            if code.eq(expected_code) {
                InitialStateCheck::RejectedAsExpected
            } else {
                InitialStateCheck::RejectedWith(error)
            }
        },
    }
}

/// Runs one step against the engine; `rendered` is the JSON of the public state the
/// engine shows before the step.
pub fn execute_step(engine: &mut Engine, step: &FixtureStep, rendered: &JsonValue) -> (r: Result<
    (),
    StepFailure,
>)
    requires
        old(engine).wf(),
    ensures
        final(engine).wf(),
        step_outcome(old(engine)@, *step, *rendered, final(engine)@, r),
{
    match step {
        FixtureStep::AssertLegalActions { player, must_include, must_exclude } => {
            let actions = match engine.legal_actions(*player) {
                Ok(a) => a,
                Err(error) => {
                    return Err(StepFailure::LegalActions(error));
                },
            };
            if let Some(i) = find_missing(&actions, must_include) {
                return Err(StepFailure::MissingLegalAction(must_include[i].duplicate()));
            }
            if let Some(i) = find_present(&actions, must_exclude) {
                return Err(StepFailure::UnexpectedLegalAction(must_exclude[i].duplicate()));
            }
            Ok(())
        },
        FixtureStep::ApplyAction { player, action } => match engine.apply_action(*player, action) {
            Ok(()) => Ok(()),
            Err(error) => Err(StepFailure::ApplyAction(error)),
        },
        FixtureStep::AssertState { expect } => match assert_expected_subset(rendered, expect) {
            Ok(()) => Ok(()),
            Err(m) => Err(StepFailure::StateMismatch(m)),
        },
        FixtureStep::AssertExportRoundTrip { expect } => {
            let before = engine.public_state();
            let exported = engine.export_state();
            let restored_engine = match Engine::from_exported_state(exported) {
                Ok(e) => e,
                Err(error) => {
                    return Err(StepFailure::RestoreFailed(error));
                },
            };
            let after = restored_engine.public_state();
            proof {
                crate::invariants::lemma_export_restore_round_trip(engine@);
            }
            if !same_public_state(&before, &after) {
                return Err(StepFailure::RoundTripChanged);
            }
            match assert_expected_subset(rendered, expect) {
                Ok(()) => {},
                Err(m) => {
                    return Err(StepFailure::RoundTripMismatch(m));
                },
            }
            *engine = restored_engine;
            Ok(())
        },
        FixtureStep::AssertRejectedAction { player, action, error_code } => {
            match engine.apply_action(*player, action) {
                Ok(()) => Err(StepFailure::RejectedActionSucceeded(action.duplicate())),
                Err(error) => {
                    let code = error.code().to_owned();
                    if code.eq(error_code) {
                        Ok(())
                    } else {
                        Err(StepFailure::WrongRejection(error))
                    }
                },
            }
        },
    }
}

} // verus!
