//! Evaluating saved hands for a line protocol: a summary of a hand, the hand after one
//! action, and the summaries of every hand one legal action away.
use vstd::prelude::*;

use crate::actions::Action;
use crate::engine::{action_result, legal_action_seq, restored, shows_public, Engine, EngineView};
use crate::engine_types::PublicState;
use crate::error::EngineError;
use crate::match_types::EngineState;
use crate::state::Player;

verus! {

/// Everything the protocol reports of a hand.
#[derive(Debug, Clone, PartialEq, Eq)]
pub struct EngineSummary {
    pub export_state: EngineState,
    pub public_state: PublicState,
    pub current_player: Option<Player>,
    pub hand_winner: Option<Player>,
    pub match_winner: Option<Player>,
    pub legal_actions: Vec<Action>,
}

/// A hand's summary and, for each legal action of the player to move, the summary of the
/// hand after it.
#[derive(Debug, Clone, PartialEq, Eq)]
pub struct ExpandedState {
    pub root: EngineSummary,
    pub children: Vec<(Action, EngineSummary)>,
}

/// `s` summarises the hand `e`.
pub open spec fn summarizes(e: EngineView, s: EngineSummary) -> bool {
    &&& s.export_state.state@ == e.state
    &&& s.export_state.hand_winner == e.hand_winner
    &&& s.export_state.match_winner == e.match_winner
    &&& shows_public(e, s.public_state)
    &&& s.current_player == e.state.next_player
    &&& s.hand_winner == e.hand_winner
    &&& s.match_winner == e.match_winner
    &&& match e.state.next_player {
        Some(p) => legal_action_seq(e, p) == Ok::<Seq<Action>, EngineError>(s.legal_actions@),
        None => s.legal_actions@ == Seq::<Action>::empty(),
    }
}

/// The summary of a hand, or the error its legal actions give.
pub open spec fn summary_result(e: EngineView, r: Result<EngineSummary, EngineError>) -> bool {
    match e.state.next_player {
        Some(p) => match legal_action_seq(e, p) {
            Err(err) => r == Err::<EngineSummary, EngineError>(err),
            Ok(_) => r matches Ok(s) && summarizes(e, s),
        },
        None => r matches Ok(s) && summarizes(e, s),
    }
}

/// Summarises a hand.
pub fn engine_value(engine: &Engine) -> (r: Result<EngineSummary, EngineError>)
    ensures
        summary_result(engine@, r),
{
    let legal_actions = match engine.current_player() {
        Some(player) => match engine.legal_actions(player) {
            Ok(actions) => actions,
            Err(e) => {
                return Err(e);
            },
        },
        None => Vec::new(),
    };
    Ok(
        EngineSummary {
            export_state: engine.export_state(),
            public_state: engine.public_state(),
            current_player: engine.current_player(),
            hand_winner: engine.hand_winner(),
            match_winner: engine.match_winner(),
            legal_actions,
        },
    )
}

/// Summarises a saved hand.
pub fn eval_state(state: EngineState) -> (r: Result<EngineSummary, EngineError>)
    ensures
        match restored(state.state@, state.hand_winner, state.match_winner) {
            Err(e) => r == Err::<EngineSummary, EngineError>(e),
            Ok(v) => summary_result(v, r),
        },
{
    let engine = match Engine::from_exported_state(state) {
        Ok(e) => e,
        Err(e) => {
            return Err(e);
        },
    };
    engine_value(&engine)
}

/// Applies an action to a saved hand and summarises the result; a missing player or
/// action is an invalid request.
pub fn apply_action(state: EngineState, player: Option<Player>, action: Option<Action>) -> (r: Result<
    EngineSummary,
    EngineError,
>)
    ensures
        match restored(state.state@, state.hand_winner, state.match_winner) {
            Err(e) => r == Err::<EngineSummary, EngineError>(e),
            Ok(v) => match (player, action) {
                (Some(p), Some(a)) => match action_result(v, p, a) {
                    Err(e) => r == Err::<EngineSummary, EngineError>(e),
                    Ok(w) => summary_result(w, r),
                },
                _ => r == Err::<EngineSummary, EngineError>(EngineError::InvalidInitialState),
            },
        },
{
    let mut engine = match Engine::from_exported_state(state) {
        Ok(e) => e,
        Err(e) => {
            return Err(e);
        },
    };
    let player = match player {
        Some(p) => p,
        None => {
            return Err(EngineError::InvalidInitialState);
        },
    };
    let action = match action {
        Some(a) => a,
        None => {
            return Err(EngineError::InvalidInitialState);
        },
    };
    match engine.apply_action(player, &action) {
        Ok(()) => {},
        Err(e) => {
            return Err(e);
        },
    }
    engine_value(&engine)
}

/// The children of an expansion as plain values: each action with the hand after it.
#[verifier::opaque]
pub open spec fn expansion_children(e: EngineView, p: Player, actions: Seq<Action>) -> Result<
    Seq<(Action, EngineView)>,
    EngineError,
>
    decreases actions.len(),
{
    if actions.len() == 0 {
        Ok(Seq::empty())
    } else {
        match expansion_children(e, p, actions.drop_last()) {
            Err(err) => Err(err),
            Ok(prev) => match action_result(e, p, actions.last()) {
                Err(err) => Err(err),
                Ok(w) => match w.state.next_player {
                    Some(q) => match legal_action_seq(w, q) {
                        Err(err) => Err(err),
                        Ok(_) => Ok(prev.push((actions.last(), w))),
                    },
                    None => Ok(prev.push((actions.last(), w))),
                },
            },
        }
    }
}

proof fn lemma_expansion_children_err(e: EngineView, p: Player, actions: Seq<Action>, n: int)
    requires
        0 <= n <= actions.len(),
        expansion_children(e, p, actions.take(n)) is Err,
    ensures
        expansion_children(e, p, actions) == expansion_children(e, p, actions.take(n)),
    decreases actions.len() - n,
{
    reveal(expansion_children);
    if n < actions.len() {
        assert(actions.take(n + 1).drop_last() =~= actions.take(n));
        lemma_expansion_children_err(e, p, actions, n + 1);
    } else {
        assert(actions.take(n) =~= actions);
    }
}

/// Each child summary carries the action of the matching plain child and summarises its hand.
pub open spec fn children_agree(kids: Seq<(Action, EngineView)>, children: Seq<(Action, EngineSummary)>) -> bool {
    &&& children.len() == kids.len()
    &&& forall|i: int|
        0 <= i < kids.len() ==> (#[trigger] children[i]).0 == kids[i].0 && summarizes(
            kids[i].1,
            children[i].1,
        )
}

/// What summarising the hand after `a` gives: the action's error, or the summary result
/// of the hand it leads to.
#[verifier::opaque]
pub open spec fn child_outcome(e: EngineView, p: Player, a: Action, r: Result<EngineSummary, EngineError>) -> bool {
    match action_result(e, p, a) {
        Err(x) => r == Err::<EngineSummary, EngineError>(x),
        Ok(w) => summary_result(w, r),
    }
}

/// Summarises the hand after one action, leaving the hand itself untouched.
fn child_summary(engine: &Engine, player: Player, action: &Action) -> (r: Result<
    EngineSummary,
    EngineError,
>)
    requires
        engine.wf(),
    ensures
        child_outcome(engine@, player, *action, r),
{
    reveal(child_outcome);
    let mut child = engine.duplicate();
    match child.apply_action(player, action) {
        Ok(()) => {},
        Err(e) => {
            return Err(e);
        },
    }
    engine_value(&child)
}

proof fn lemma_expansion_step(
    e: EngineView,
    p: Player,
    actions: Seq<Action>,
    i: int,
    children: Seq<(Action, EngineSummary)>,
    summary: EngineSummary,
)
    requires
        0 <= i < actions.len(),
        expansion_children(e, p, actions.take(i)) matches Ok(kids) && children_agree(kids, children),
        child_outcome(e, p, actions[i], Ok::<EngineSummary, EngineError>(summary)),
    ensures
        expansion_children(e, p, actions.take(i + 1)) matches Ok(kids) && children_agree(
            kids,
            children.push((actions[i], summary)),
        ),
{
    reveal(expansion_children);
    reveal(child_outcome);
    assert(actions.take(i + 1).drop_last() =~= actions.take(i));
    let kids = expansion_children(e, p, actions.take(i)).unwrap();
    let w = action_result(e, p, actions[i]).unwrap();
    let next = children.push((actions[i], summary));
    assert(expansion_children(e, p, actions.take(i + 1)) == Ok::<Seq<(Action, EngineView)>, EngineError>(kids.push((actions[i], w))));
    assert forall|k: int| 0 <= k < kids.len() + 1 implies (#[trigger] next[k]).0 == kids.push((actions[i], w))[k].0 && summarizes(
        kids.push((actions[i], w))[k].1,
        next[k].1,
    ) by {
        if k < kids.len() {
            assert(next[k] == children[k]);
        }
    }
}

proof fn lemma_expansion_step_err(
    e: EngineView,
    p: Player,
    actions: Seq<Action>,
    i: int,
    err: EngineError,
)
    requires
        0 <= i < actions.len(),
        expansion_children(e, p, actions.take(i)) is Ok,
        child_outcome(e, p, actions[i], Err::<EngineSummary, EngineError>(err)),
    ensures
        expansion_children(e, p, actions) == Err::<Seq<(Action, EngineView)>, EngineError>(err),
{
    reveal(expansion_children);
    reveal(child_outcome);
    assert(actions.take(i + 1).drop_last() =~= actions.take(i));
    assert(expansion_children(e, p, actions.take(i + 1)) == Err::<Seq<(Action, EngineView)>, EngineError>(err));
    lemma_expansion_children_err(e, p, actions, i + 1);
}

/// Summarises a saved hand and every hand one legal action of the player to move away.
pub fn expand_state(state: EngineState) -> (r: Result<ExpandedState, EngineError>)
    ensures
        match restored(state.state@, state.hand_winner, state.match_winner) {
            Err(e) => r == Err::<ExpandedState, EngineError>(e),
            Ok(v) => match v.state.next_player {
                None => r matches Ok(x) && summarizes(v, x.root) && x.children@.len() == 0,
                Some(p) => match legal_action_seq(v, p) {
                    Err(e) => r == Err::<ExpandedState, EngineError>(e),
                    Ok(actions) => match expansion_children(v, p, actions) {
                        Err(e) => r == Err::<ExpandedState, EngineError>(e),
                        Ok(kids) => r matches Ok(x) && summarizes(v, x.root) && children_agree(
                            kids,
                            x.children@,
                        ),
                    },
                },
            },
        },
{
    let engine = match Engine::from_exported_state(state) {
        Ok(e) => e,
        Err(e) => {
            return Err(e);
        },
    };
    let root = match engine_value(&engine) {
        Ok(s) => s,
        Err(e) => {
            return Err(e);
        },
    };
    let mut children: Vec<(Action, EngineSummary)> = Vec::new();
    if let Some(player) = engine.current_player() {
        let actions = match engine.legal_actions(player) {
            Ok(a) => a,
            Err(e) => {
                return Err(e);
            },
        };
        let ghost v = engine@;
        let mut i: usize = 0;
        assert(actions@.take(0) =~= Seq::<Action>::empty());
        proof {
            reveal(expansion_children);
        }
        while i < actions.len()
            invariant
                i <= actions@.len(),
                engine.wf(),
                engine@ == v,
                restored(state.state@, state.hand_winner, state.match_winner) == Ok::<EngineView, EngineError>(v),
                v.state.next_player == Some(player),
                legal_action_seq(v, player) == Ok::<Seq<Action>, EngineError>(actions@),
                expansion_children(v, player, actions@.take(i as int)) matches Ok(kids)
                    && children_agree(kids, children@),
            decreases actions@.len() - i,
        {
            let summary = match child_summary(&engine, player, &actions[i]) {
                Ok(s) => s,
                Err(e) => {
                    proof {
                        lemma_expansion_step_err(v, player, actions@, i as int, e);
                    }
                    return Err(e);
                },
            };
            proof {
                lemma_expansion_step(v, player, actions@, i as int, children@, summary);
            }
            children.push((actions[i].duplicate(), summary));
            i += 1;
        }
        assert(actions@.take(actions@.len() as int) =~= actions@);
    }
    Ok(ExpandedState { root, children })
}

} // verus!
