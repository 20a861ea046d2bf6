//! Tactical analysis of a turn from one player's point of view: every way the cards that
//! player cannot see could lie is played out, and each legal action is scored by the
//! exact minimax value of the rest of the hand.
use vstd::prelude::*;

use crate::actions::Action;
use crate::engine::{action_result, engine_ok, legal_action_seq, strategic_only, Engine, EngineView};
use crate::error::EngineError;
use crate::game_match::Match;
use crate::invariants::{
    hand_measure, lemma_action_keeps_engine_ok, lemma_action_makes_progress,
    lemma_hand_measure_bounds,
};
use crate::cards::{suit_order, Turnup};
use crate::exploration::{faces_of, rebuilt_hand, turnup_face, with_face};
use crate::ranges::{standard_deck, strength_rank, CardFace};
use crate::state::{opponent_of, PlayedCard, Player, RoundView, StateView, Visibility};

use rayon::iter::{IntoParallelRefIterator, ParallelIterator};

verus! {

/// Why an analysis could not be made.
#[derive(Debug, Clone, PartialEq, Eq)]
pub enum BotAnalysisError {
    Engine(EngineError),
    NoLegalActions,
    InvalidAnalysis(String),
}

impl BotAnalysisError {
    /// The human-readable message of the error.
    pub fn message(&self) -> (r: String)
        ensures
            match *self {
                BotAnalysisError::Engine(e) => r@ == crate::error::engine_error_message(e),
                BotAnalysisError::NoLegalActions => r@ == "bot received no legal actions"@,
                BotAnalysisError::InvalidAnalysis(text) => r@ == text@,
            },
    {
        match self {
            BotAnalysisError::Engine(error) => error.message().to_string(),
            BotAnalysisError::NoLegalActions => "bot received no legal actions".to_string(),
            BotAnalysisError::InvalidAnalysis(text) => text.clone(),
        }
    }
}

/// The points a finished hand is worth to `player`: its value, won or lost.
pub open spec fn settled_points(e: EngineView, player: Player) -> int {
    if e.hand_winner == Some(player) {
        e.state.hand_value as int
    } else {
        -(e.state.hand_value as int)
    }
}

/// The minimax value of a hand to `player`: the points of a finished hand, otherwise
/// the best value among the mover's strategic actions for the mover (highest when the
/// mover is `player`, lowest otherwise).
pub open spec fn minimax_value(e: EngineView, player: Player) -> Result<int, BotAnalysisError>
    decreases hand_measure(e.state), 1int, 0int,
    when engine_ok(e)
{
    if e.hand_winner is Some {
        Ok(settled_points(e, player))
    } else {
        match e.state.next_player {
            None => Err(BotAnalysisError::Engine(EngineError::HandAlreadyDecided)),
            Some(mover) => match legal_action_seq(e, mover) {
                Err(err) => Err(BotAnalysisError::Engine(err)),
                Ok(all) => best_reply(
                    e,
                    mover,
                    player,
                    strategic_only(all),
                    0,
                    if mover == player {
                        i32::MIN as int
                    } else {
                        i32::MAX as int
                    },
                ),
            },
        }
    }
}

/// The best value found so far, `best`, folded with the values of the actions from the
/// `i`-th on.
pub open spec fn best_reply(
    e: EngineView,
    mover: Player,
    player: Player,
    actions: Seq<Action>,
    i: nat,
    best: int,
) -> Result<int, BotAnalysisError>
    decreases hand_measure(e.state), 0int, actions.len() - i,
    when engine_ok(e)
{
    if i >= actions.len() {
        Ok(best)
    } else {
        match action_result(e, mover, actions[i as int]) {
            Err(err) => Err(BotAnalysisError::Engine(err)),
            Ok(next) => {
                let value = if next.hand_winner is Some {
                    Ok(settled_points(next, player))
                } else {
                    proof {
                        lemma_action_makes_progress(e, mover, actions[i as int]);
                        lemma_action_keeps_engine_ok(e, mover, actions[i as int]);
                        lemma_hand_measure_bounds(next);
                    }
                    minimax_value(next, player)
                };
                match value {
                    Err(err) => Err(err),
                    Ok(v) => best_reply(
                        e,
                        mover,
                        player,
                        actions,
                        i + 1,
                        if mover == player {
                            if v > best {
                                v
                            } else {
                                best
                            }
                        } else {
                            if v < best {
                                v
                            } else {
                                best
                            }
                        },
                    ),
                }
            },
        }
    }
}

/// A result in `i32` agrees with a result in `int`.
pub open spec fn same_result(r: Result<i32, BotAnalysisError>, s: Result<int, BotAnalysisError>) -> bool {
    match (r, s) {
        (Ok(a), Ok(b)) => a as int == b,
        (Err(x), Err(y)) => x == y,
        _ => false,
    }
}

/// The measure that bounds the rest of a match's hand.
spec fn match_measure(m: crate::game_match::MatchView) -> int {
    match m.current_hand {
        Some(h) => hand_measure(h.state),
        None => 0,
    }
}

fn settled_value(hand: &Engine, player: Player) -> (r: i32)
    requires
        hand@.hand_winner is Some,
    ensures
        r as int == settled_points(hand@, player),
{
    let points = hand.state().hand_value as i32;
    if hand.hand_winner() == Some(player) {
        points
    } else {
        -points
    }
}

/// The minimax value to `player` of the rest of the match's hand.
fn minimax_hand_value(game: &Match, player: Player) -> (r: Result<i32, BotAnalysisError>)
    requires
        game.wf(),
    ensures
        match game@.current_hand {
            None => r == Err::<i32, BotAnalysisError>(
                BotAnalysisError::Engine(EngineError::NoActiveHand),
            ),
            Some(h) => same_result(r, minimax_value(h, player)),
        },
    decreases match_measure(game@),
{
    let hand = match game.current_hand() {
        Some(h) => h,
        None => {
            return Err(BotAnalysisError::Engine(EngineError::NoActiveHand));
        },
    };
    let ghost e = hand@;
    if hand.is_hand_over() {
        return Ok(settled_value(hand, player));
    }
    let mover = match game.current_player() {
        Some(p) => p,
        None => {
            return Err(BotAnalysisError::Engine(EngineError::HandAlreadyDecided));
        },
    };
    let actions = match game.strategic_legal_actions_for_current_player() {
        Ok(a) => a,
        Err(err) => {
            return Err(BotAnalysisError::Engine(err));
        },
    };
    let ghost start: int = if mover == player {
        i32::MIN as int
    } else {
        i32::MAX as int
    };
    let mut best: i32 = if mover == player {
        i32::MIN
    } else {
        i32::MAX
    };
    proof {
        lemma_hand_measure_bounds(e);
    }
    let mut i: usize = 0;
    while i < actions.len()
        invariant
            i <= actions@.len(),
            game.wf(),
            game@.current_hand == Some(e),
            engine_ok(e),
            e.hand_winner is None,
            e.state.next_player == Some(mover),
            minimax_value(e, player) == best_reply(e, mover, player, actions@, i as nat, best as int),
        decreases actions@.len() - i,
    {
        let action = &actions[i];
        let mut next = game.duplicate();
        match next.apply_action_for_current_player(action) {
            Ok(_) => {},
            Err(err) => {
                return Err(BotAnalysisError::Engine(err));
            },
        }
        let ghost after = action_result(e, mover, *action).unwrap();
        proof {
            lemma_action_keeps_engine_ok(e, mover, *action);
            lemma_action_makes_progress(e, mover, *action);
        }
        let next_hand = match next.current_hand() {
            Some(h) => h,
            None => {
                return Err(BotAnalysisError::Engine(EngineError::NoActiveHand));
            },
        };
        let value = if next_hand.is_hand_over() {
            settled_value(next_hand, player)
        } else {
            proof {
                lemma_hand_measure_bounds(after);
            }
            match minimax_hand_value(&next, player) {
                Ok(v) => v,
                Err(err) => {
                    return Err(err);
                },
            }
        };
        if mover == player {
            if value > best {
                best = value;
            }
        } else {
            if value < best {
                best = value;
            }
        }
        i += 1;
    }
    Ok(best)
}

// ---------------------------------------------------------------------------
// What one player can see, and every way the rest could lie
// ---------------------------------------------------------------------------
/// A play whose card the analysing player cannot see.
#[derive(Debug, Clone, Copy, PartialEq, Eq, Structural)]
pub enum HiddenSlot {
    Completed { round_index: usize, play_index: usize },
    Current { play_index: usize },
}

/// Whether `actor` sees the card of a play: its own, or one played face up.
pub open spec fn seen_by(play: PlayedCard, actor: Player) -> bool {
    play.player == actor || play.visibility == Visibility::Up
}

/// The faces of the plays `actor` sees.
pub open spec fn seen_plays(plays: Seq<PlayedCard>, actor: Player) -> Seq<CardFace>
    decreases plays.len(),
{
    if plays.len() == 0 {
        Seq::empty()
    } else {
        let rest = seen_plays(plays.drop_last(), actor);
        if seen_by(plays.last(), actor) {
            rest.push(crate::ranges::face_of(plays.last().card))
        } else {
            rest
        }
    }
}

/// The faces of completed plays `actor` sees, round by round.
pub open spec fn seen_rounds(rounds: Seq<RoundView>, actor: Player) -> Seq<CardFace>
    decreases rounds.len(),
{
    if rounds.len() == 0 {
        Seq::empty()
    } else {
        seen_rounds(rounds.drop_last(), actor) + seen_plays(rounds.last().plays, actor)
    }
}

/// The hidden plays of a completed round, as slots.
pub open spec fn hidden_round_slots(plays: Seq<PlayedCard>, round_index: int, actor: Player) -> Seq<
    HiddenSlot,
>
    decreases plays.len(),
{
    if plays.len() == 0 {
        Seq::empty()
    } else {
        let rest = hidden_round_slots(plays.drop_last(), round_index, actor);
        if seen_by(plays.last(), actor) {
            rest
        } else {
            rest.push(
                HiddenSlot::Completed {
                    round_index: round_index as usize,
                    play_index: (plays.len() - 1) as usize,
                },
            )
        }
    }
}

/// The hidden plays of all completed rounds, round by round.
pub open spec fn hidden_rounds(rounds: Seq<RoundView>, actor: Player) -> Seq<HiddenSlot>
    decreases rounds.len(),
{
    if rounds.len() == 0 {
        Seq::empty()
    } else {
        hidden_rounds(rounds.drop_last(), actor) + hidden_round_slots(
            rounds.last().plays,
            rounds.len() - 1,
            actor,
        )
    }
}

/// The hidden plays of the current round, as slots.
pub open spec fn hidden_current(plays: Seq<PlayedCard>, actor: Player) -> Seq<HiddenSlot>
    decreases plays.len(),
{
    if plays.len() == 0 {
        Seq::empty()
    } else {
        let rest = hidden_current(plays.drop_last(), actor);
        if seen_by(plays.last(), actor) {
            rest
        } else {
            rest.push(HiddenSlot::Current { play_index: (plays.len() - 1) as usize })
        }
    }
}

/// The faces `actor` knows: the turnup, its own hand and every play it sees.
pub open spec fn known_faces(s: StateView, actor: Player) -> Seq<CardFace> {
    seq![turnup_face(s.turnup)] + faces_of(s.hand(actor)) + seen_rounds(s.completed_rounds, actor)
        + seen_plays(s.current_plays, actor)
}

/// The plays whose cards `actor` cannot see, in order.
pub open spec fn hidden_slots(s: StateView, actor: Player) -> Seq<HiddenSlot> {
    hidden_rounds(s.completed_rounds, actor) + hidden_current(s.current_plays, actor)
}

/// The faces of `deck` that are not among `known`, in deck order.
pub open spec fn unseen(deck: Seq<CardFace>, known: Seq<CardFace>) -> Seq<CardFace>
    decreases deck.len(),
{
    if deck.len() == 0 {
        deck
    } else {
        let rest = unseen(deck.drop_last(), known);
        if known.contains(deck.last()) {
            rest
        } else {
            rest.push(deck.last())
        }
    }
}

/// The faces `actor` cannot place: the deck without every known face.
pub open spec fn unseen_faces(s: StateView, actor: Player) -> Seq<CardFace> {
    unseen(standard_deck(), known_faces(s, actor))
}

struct PerspectiveRequest {
    opponent: Player,
    turnup: Turnup,
    opponent_hand_ids: Vec<String>,
    hidden_slots: Vec<HiddenSlot>,
    available_faces: Vec<CardFace>,
}

/// The request describes what `actor` sees of `s`.
spec fn describes(p: PerspectiveRequest, s: StateView, actor: Player) -> bool {
    &&& p.opponent == opponent_of(actor)
    &&& p.turnup == s.turnup
    &&& p.opponent_hand_ids@.len() == s.hand(opponent_of(actor)).len()
    &&& forall|i: int|
        0 <= i < p.opponent_hand_ids@.len() ==> #[trigger] p.opponent_hand_ids@[i] == s.hand(
            opponent_of(actor),
        )[i].id
    &&& p.hidden_slots@ == hidden_slots(s, actor)
    &&& p.available_faces@ == unseen_faces(s, actor)
}

fn push_play_views(
    plays: &[PlayedCard],
    actor: Player,
    round_index: Option<usize>,
    known: &mut Vec<CardFace>,
    slots: &mut Vec<HiddenSlot>,
)
    ensures
        final(known)@ == old(known)@ + seen_plays(plays@, actor),
        final(slots)@ == old(slots)@ + match round_index {
            Some(ri) => hidden_round_slots(plays@, ri as int, actor),
            None => hidden_current(plays@, actor),
        },
{
    let ghost known0 = known@;
    let ghost slots0 = slots@;
    let mut i: usize = 0;
    while i < plays.len()
        invariant
            i <= plays@.len(),
            known@ == known0 + seen_plays(plays@.take(i as int), actor),
            slots@ == slots0 + match round_index {
                Some(ri) => hidden_round_slots(plays@.take(i as int), ri as int, actor),
                None => hidden_current(plays@.take(i as int), actor),
            },
        decreases plays@.len() - i,
    {
        assert(plays@.take(i as int + 1).drop_last() =~= plays@.take(i as int));
        let play = &plays[i];
        if play.player == actor || play.visibility == Visibility::Up {
            known.push(CardFace::of_card(&play.card));
        } else {
            match round_index {
                Some(ri) => slots.push(HiddenSlot::Completed { round_index: ri, play_index: i }),
                None => slots.push(HiddenSlot::Current { play_index: i }),
            }
        }
        i += 1;
        assert(known@ =~= known0 + seen_plays(plays@.take(i as int), actor));
        assert(slots@ =~= slots0 + match round_index {
            Some(ri) => hidden_round_slots(plays@.take(i as int), ri as int, actor),
            None => hidden_current(plays@.take(i as int), actor),
        });
    }
    assert(plays@.take(plays@.len() as int) =~= plays@);
}

fn faces_contain(faces: &Vec<CardFace>, face: CardFace) -> (r: bool)
    ensures
        r == faces@.contains(face),
{
    let mut i: usize = 0;
    while i < faces.len()
        invariant
            i <= faces@.len(),
            forall|k: int| 0 <= k < i ==> faces@[k] != face,
        decreases faces@.len() - i,
    {
        if faces[i] == face {
            return true;
        }
        i += 1;
    }
    false
}

/// What `actor` sees of the hand in `state`.
fn build_perspective_request(state: &crate::state::GameState, actor: Player) -> (r: PerspectiveRequest)
    ensures
        describes(r, state@, actor),
{
    let opponent = crate::rules::other_player(actor);
    let mut known: Vec<CardFace> = Vec::new();
    known.push(CardFace { rank: state.turnup.rank, suit: state.turnup.suit });
    let mut hidden: Vec<HiddenSlot> = Vec::new();
    let own = state.hands.player(actor);
    let mut h: usize = 0;
    while h < own.len()
        invariant
            h <= own@.len(),
            known@ == seq![turnup_face(state@.turnup)] + faces_of(own@.take(h as int)),
        decreases own@.len() - h,
    {
        known.push(CardFace::of_card(&own[h]));
        h += 1;
        assert(known@ =~= seq![turnup_face(state@.turnup)] + faces_of(own@.take(h as int)));
    }
    assert(own@.take(own@.len() as int) =~= own@);
    let rounds = state.completed_rounds.as_slice();
    let ghost views = state@.completed_rounds;
    let ghost base = known@;
    let mut ri: usize = 0;
    while ri < rounds.len()
        invariant
            ri <= rounds@.len(),
            rounds@.map_values(|round: crate::state::CompletedRound| round@) == views,
            known@ == base + seen_rounds(views.take(ri as int), actor),
            hidden@ == hidden_rounds(views.take(ri as int), actor),
        decreases rounds@.len() - ri,
    {
        assert(views.take(ri as int + 1).drop_last() =~= views.take(ri as int));
        assert(views[ri as int] == rounds@[ri as int]@);
        push_play_views(rounds[ri].plays.as_slice(), actor, Some(ri), &mut known, &mut hidden);
        ri += 1;
        assert(known@ =~= base + seen_rounds(views.take(ri as int), actor));
    }
    assert(views.take(rounds@.len() as int) =~= views);
    push_play_views(state.current_round.plays.as_slice(), actor, None, &mut known, &mut hidden);
    assert(known@ =~= known_faces(state@, actor));
    let deck = crate::ranges::full_deck();
    let mut available: Vec<CardFace> = Vec::new();
    let mut d: usize = 0;
    while d < deck.len()
        invariant
            d <= deck@.len(),
            deck@ == standard_deck(),
            known@ == known_faces(state@, actor),
            available@ == unseen(deck@.take(d as int), known@),
        decreases deck@.len() - d,
    {
        assert(deck@.take(d as int + 1).drop_last() =~= deck@.take(d as int));
        if !faces_contain(&known, deck[d]) {
            available.push(deck[d]);
        }
        d += 1;
    }
    assert(deck@.take(deck@.len() as int) =~= deck@);
    let theirs = state.hands.player(opponent);
    let mut ids: Vec<String> = Vec::new();
    let mut k: usize = 0;
    while k < theirs.len()
        invariant
            k <= theirs@.len(),
            ids@.len() == k,
            forall|i: int| 0 <= i < k ==> #[trigger] ids@[i] == theirs@[i].id,
        decreases theirs@.len() - k,
    {
        ids.push(theirs[k].id.clone());
        k += 1;
    }
    PerspectiveRequest {
        opponent,
        turnup: state.turnup,
        opponent_hand_ids: ids,
        hidden_slots: hidden,
        available_faces: available,
    }
}

/// A face's place in the order faces are listed in: by strength, then by suit.
pub open spec fn face_order(face: CardFace, turnup: Turnup) -> int {
    (strength_rank(face, turnup) * 4 + suit_order(face.suit)) as int
}

/// `sorted` with `face` inserted after every face that does not come after it.
pub open spec fn insert_by_order(sorted: Seq<CardFace>, face: CardFace, turnup: Turnup) -> Seq<CardFace>
    decreases sorted.len(),
{
    if sorted.len() == 0 {
        seq![face]
    } else if face_order(sorted.last(), turnup) <= face_order(face, turnup) {
        sorted.push(face)
    } else {
        insert_by_order(sorted.drop_last(), face, turnup).push(sorted.last())
    }
}

/// The faces in face order (a stable sort).
pub open spec fn sorted_by_order(faces: Seq<CardFace>, turnup: Turnup) -> Seq<CardFace>
    decreases faces.len(),
{
    if faces.len() == 0 {
        faces
    } else {
        insert_by_order(sorted_by_order(faces.drop_last(), turnup), faces.last(), turnup)
    }
}

/// Every way to place `k` distinct faces of `available` on `k` ordered slots, each with
/// the faces left over: the first slot takes each face in turn.
pub open spec fn arrangements(available: Seq<CardFace>, k: nat) -> Seq<(Seq<CardFace>, Seq<CardFace>)>
    decreases k, 1int, 0int,
{
    if k == 0 {
        seq![(Seq::<CardFace>::empty(), available)]
    } else {
        arrangements_from(available, k, 0)
    }
}

/// The arrangements whose first slot takes the `i`-th face or a later one.
pub open spec fn arrangements_from(available: Seq<CardFace>, k: nat, i: nat) -> Seq<
    (Seq<CardFace>, Seq<CardFace>),
>
    decreases k, 0int, available.len() - i,
{
    if k == 0 || i >= available.len() {
        Seq::empty()
    } else {
        arrangements(available.remove(i as int), (k - 1) as nat).map_values(
            |x: (Seq<CardFace>, Seq<CardFace>)| (seq![available[i as int]] + x.0, x.1),
        ) + arrangements_from(available, k, i + 1)
    }
}

/// Each arrangement with each hand of `size` faces from those left, in face order.
pub open spec fn with_hands(
    arrs: Seq<(Seq<CardFace>, Seq<CardFace>)>,
    size: nat,
    turnup: Turnup,
) -> Seq<(Seq<CardFace>, Seq<CardFace>)>
    decreases arrs.len(),
{
    if arrs.len() == 0 {
        Seq::empty()
    } else {
        with_hands(arrs.drop_last(), size, turnup) + crate::ranges::hands_of(arrs.last().1, size).map_values(
            |h: Seq<CardFace>| (arrs.last().0, sorted_by_order(h, turnup)),
        )
    }
}

/// Every determinization of what `actor` cannot see: faces for the hidden plays and a
/// hand for the opponent, drawn from the unseen faces listed in face order.
pub open spec fn determinizations(s: StateView, actor: Player) -> Seq<(Seq<CardFace>, Seq<CardFace>)> {
    with_hands(
        arrangements(sorted_by_order(unseen_faces(s, actor), s.turnup), hidden_slots(s, actor).len()),
        s.hand(opponent_of(actor)).len(),
        s.turnup,
    )
}

/// The plain values of a list of determinizations.
pub open spec fn pair_views(v: Seq<(Vec<CardFace>, Vec<CardFace>)>) -> Seq<(Seq<CardFace>, Seq<CardFace>)> {
    v.map_values(|x: (Vec<CardFace>, Vec<CardFace>)| (x.0@, x.1@))
}

fn order_key(face: &CardFace, turnup: &Turnup) -> (r: u8)
    ensures
        r as int == face_order(*face, *turnup),
{
    crate::ranges::strength_key(face, turnup) * 4 + face.suit.manilha_strength() as u8
}

fn insert_ordered(sorted: Vec<CardFace>, face: CardFace, turnup: &Turnup) -> (r: Vec<CardFace>)
    ensures
        r@ == insert_by_order(sorted@, face, *turnup),
    decreases sorted@.len(),
{
    let mut sorted = sorted;
    let n = sorted.len();
    if n == 0 {
        sorted.push(face);
        assert(sorted@ =~= seq![face]);
        return sorted;
    }
    let last = sorted[n - 1];
    if order_key(&last, turnup) <= order_key(&face, turnup) {
        sorted.push(face);
        sorted
    } else {
        let ghost before = sorted@;
        sorted.pop();
        assert(sorted@ =~= before.drop_last());
        let mut r = insert_ordered(sorted, face, turnup);
        r.push(last);
        r
    }
}

/// The faces in face order.
fn sort_faces(faces: &[CardFace], turnup: &Turnup) -> (r: Vec<CardFace>)
    ensures
        r@ == sorted_by_order(faces@, *turnup),
{
    let mut out: Vec<CardFace> = Vec::new();
    let mut i: usize = 0;
    while i < faces.len()
        invariant
            i <= faces@.len(),
            out@ == sorted_by_order(faces@.take(i as int), *turnup),
        decreases faces@.len() - i,
    {
        assert(faces@.take(i as int + 1).drop_last() =~= faces@.take(i as int));
        out = insert_ordered(out, faces[i], turnup);
        i += 1;
    }
    assert(faces@.take(faces@.len() as int) =~= faces@);
    out
}

fn without_index(faces: &Vec<CardFace>, i: usize) -> (r: Vec<CardFace>)
    requires
        i < faces@.len(),
    ensures
        r@ == faces@.remove(i as int),
{
    let mut out = crate::ranges::copy_faces(faces.as_slice());
    out.remove(i);
    out
}

fn arrange(available: &Vec<CardFace>, k: usize) -> (r: Vec<(Vec<CardFace>, Vec<CardFace>)>)
    ensures
        pair_views(r@) == arrangements(available@, k as nat),
    decreases k, 1int, 0int,
{
    if k == 0 {
        let mut out: Vec<(Vec<CardFace>, Vec<CardFace>)> = Vec::new();
        out.push((Vec::new(), crate::ranges::copy_faces(available.as_slice())));
        assert(pair_views(out@) =~= seq![(Seq::<CardFace>::empty(), available@)]);
        return out;
    }
    arrange_from(available, k, 0)
}

fn arrange_from(available: &Vec<CardFace>, k: usize, i: usize) -> (r: Vec<(Vec<CardFace>, Vec<CardFace>)>)
    requires
        k > 0,
    ensures
        pair_views(r@) == arrangements_from(available@, k as nat, i as nat),
    decreases k, 0int, available@.len() - i,
{
    if i >= available.len() {
        let out: Vec<(Vec<CardFace>, Vec<CardFace>)> = Vec::new();
        assert(pair_views(out@) =~= Seq::<(Seq<CardFace>, Seq<CardFace>)>::empty());
        return out;
    }
    let face = available[i];
    let rest = without_index(available, i);
    let inner = arrange(&rest, k - 1);
    let ghost mapped = pair_views(inner@).map_values(
        |x: (Seq<CardFace>, Seq<CardFace>)| (seq![face] + x.0, x.1),
    );
    let mut out: Vec<(Vec<CardFace>, Vec<CardFace>)> = Vec::new();
    let mut j: usize = 0;
    while j < inner.len()
        invariant
            j <= inner@.len(),
            mapped == pair_views(inner@).map_values(
                |x: (Seq<CardFace>, Seq<CardFace>)| (seq![face] + x.0, x.1),
            ),
            pair_views(out@) == mapped.take(j as int),
        decreases inner@.len() - j,
    {
        let mut chosen: Vec<CardFace> = Vec::new();
        chosen.push(face);
        let tail = crate::ranges::copy_faces(inner[j].0.as_slice());
        let mut t: usize = 0;
        while t < tail.len()
            invariant
                t <= tail@.len(),
                chosen@ == seq![face] + tail@.take(t as int),
            decreases tail@.len() - t,
        {
            chosen.push(tail[t]);
            t += 1;
            assert(chosen@ =~= seq![face] + tail@.take(t as int));
        }
        assert(tail@.take(tail@.len() as int) =~= tail@);
        let ghost before = out@;
        out.push((chosen, crate::ranges::copy_faces(inner[j].1.as_slice())));
        assert(pair_views(out@) =~= pair_views(before).push(mapped[j as int]));
        j += 1;
        assert(pair_views(out@) =~= mapped.take(j as int));
    }
    assert(mapped.take(inner@.len() as int) =~= mapped);
    let mut later = arrange_from(available, k, i + 1);
    let ghost front = out@;
    let ghost back = later@;
    out.append(&mut later);
    assert(pair_views(out@) =~= pair_views(front) + pair_views(back));
    out
}

/// Every determinization of the request.
fn enumerate_determinizations(p: &PerspectiveRequest) -> (r: Vec<(Vec<CardFace>, Vec<CardFace>)>)
    ensures
        pair_views(r@) == with_hands(
            arrangements(sorted_by_order(p.available_faces@, p.turnup), p.hidden_slots@.len()),
            p.opponent_hand_ids@.len() as nat,
            p.turnup,
        ),
{
    let available = sort_faces(p.available_faces.as_slice(), &p.turnup);
    let arrs = arrange(&available, p.hidden_slots.len());
    let ghost av = pair_views(arrs@);
    let size = p.opponent_hand_ids.len();
    let mut out: Vec<(Vec<CardFace>, Vec<CardFace>)> = Vec::new();
    let mut a: usize = 0;
    while a < arrs.len()
        invariant
            a <= arrs@.len(),
            av == pair_views(arrs@),
            pair_views(out@) == with_hands(av.take(a as int), size as nat, p.turnup),
        decreases arrs@.len() - a,
    {
        assert(av.take(a as int + 1).drop_last() =~= av.take(a as int));
        assert(av[a as int] == (arrs@[a as int].0@, arrs@[a as int].1@));
        let hands = crate::ranges::enumerate_all_hands(arrs[a].1.as_slice(), size);
        let ghost start = pair_views(out@);
        let ghost hidden = arrs@[a as int].0@;
        let ghost mapped = crate::ranges::face_lists(hands@).map_values(
            |h: Seq<CardFace>| (hidden, sorted_by_order(h, p.turnup)),
        );
        let mut h: usize = 0;
        while h < hands.len()
            invariant
                h <= hands@.len(),
                a < arrs@.len(),
                hidden == arrs@[a as int].0@,
                mapped == crate::ranges::face_lists(hands@).map_values(
                    |x: Seq<CardFace>| (hidden, sorted_by_order(x, p.turnup)),
                ),
                pair_views(out@) == start + mapped.take(h as int),
            decreases hands@.len() - h,
        {
            let ghost before = out@;
            let sorted = sort_faces(hands[h].as_slice(), &p.turnup);
            out.push((crate::ranges::copy_faces(arrs[a].0.as_slice()), sorted));
            assert(crate::ranges::face_lists(hands@)[h as int] == hands@[h as int]@);
            assert(pair_views(out@) =~= pair_views(before).push(mapped[h as int]));
            h += 1;
            assert(pair_views(out@) =~= start + mapped.take(h as int));
        }
        assert(mapped.take(hands@.len() as int) =~= mapped);
        a += 1;
    }
    assert(av.take(arrs@.len() as int) =~= av);
    out
}

// ---------------------------------------------------------------------------
// Playing out one determinization
// ---------------------------------------------------------------------------
/// Whether every slot names a play of `s`.
pub open spec fn slots_valid(s: StateView, slots: Seq<HiddenSlot>) -> bool {
    forall|i: int|
        0 <= i < slots.len() ==> match #[trigger] slots[i] {
            HiddenSlot::Completed { round_index, play_index } => round_index < s.completed_rounds.len()
                && play_index < s.completed_rounds[round_index as int].plays.len(),
            HiddenSlot::Current { play_index } => play_index < s.current_plays.len(),
        }
}

/// The hand with the card of a hidden play showing `face` instead.
pub open spec fn set_slot(s: StateView, slot: HiddenSlot, face: CardFace) -> StateView {
    match slot {
        HiddenSlot::Completed { round_index, play_index } => {
            let round = s.completed_rounds[round_index as int];
            StateView {
                completed_rounds: s.completed_rounds.update(
                    round_index as int,
                    RoundView {
                        leader: round.leader,
                        winner: round.winner,
                        plays: round.plays.update(play_index as int, with_face(round.plays[play_index as int], face)),
                    },
                ),
                ..s
            }
        },
        HiddenSlot::Current { play_index } => StateView {
            current_plays: s.current_plays.update(
                play_index as int,
                with_face(s.current_plays[play_index as int], face),
            ),
            ..s
        },
    }
}

/// The hand with each slot showing the face at its position (as far as both reach).
pub open spec fn fill_slots(s: StateView, slots: Seq<HiddenSlot>, faces: Seq<CardFace>) -> StateView
    decreases slots.len(),
{
    if slots.len() == 0 || faces.len() == 0 {
        s
    } else {
        fill_slots(set_slot(s, slots[0], faces[0]), slots.drop_first(), faces.drop_first())
    }
}

/// The hand as one determinization fixes what `actor` cannot see: the opponent's hand
/// takes the drawn faces (keeping its ids) and each hidden play its drawn face.
pub open spec fn determinized(
    s: StateView,
    actor: Player,
    hidden: Seq<CardFace>,
    hand: Seq<CardFace>,
) -> StateView {
    let opponent = opponent_of(actor);
    fill_slots(
        crate::engine::with_hand(s, opponent, rebuilt_hand(s.hand(opponent), hand)),
        hidden_slots(s, actor),
        hidden,
    )
}

/// The value to `player` of taking `action` in the match: the minimax value of the hand
/// that follows.
pub open spec fn root_value(m: crate::game_match::MatchView, player: Player, action: Action) -> Result<
    int,
    BotAnalysisError,
> {
    match m.current_hand {
        None => Err(BotAnalysisError::Engine(EngineError::NoActiveHand)),
        Some(h) => match action_result(h, player, action) {
            Err(e) => Err(BotAnalysisError::Engine(e)),
            Ok(v) => minimax_value(v, player),
        },
    }
}

/// The values of the actions in order; the first error stops the list.
pub open spec fn root_values(m: crate::game_match::MatchView, player: Player, actions: Seq<Action>) -> Result<
    Seq<int>,
    BotAnalysisError,
>
    decreases actions.len(),
{
    if actions.len() == 0 {
        Ok(Seq::empty())
    } else {
        match root_values(m, player, actions.drop_last()) {
            Err(e) => Err(e),
            Ok(prev) => match root_value(m, player, actions.last()) {
                Err(e) => Err(e),
                Ok(v) => Ok(prev.push(v)),
            },
        }
    }
}

/// The values of the actions in the match that a determinization makes of a saved match.
pub open spec fn determinization_values(
    rec: crate::game_match::MatchRecord,
    actor: Player,
    actions: Seq<Action>,
    d: (Seq<CardFace>, Seq<CardFace>),
) -> Result<Seq<int>, BotAnalysisError> {
    match rec.3 {
        None => Err(BotAnalysisError::Engine(EngineError::NoActiveHand)),
        Some(h) => match crate::game_match::record_restored(
            rec.0,
            rec.1,
            rec.2,
            Some((determinized(h.0, actor, d.0, d.1), h.1, h.2)),
        ) {
            Err(e) => Err(BotAnalysisError::Engine(e)),
            Ok(m) => root_values(m, actor, actions),
        },
    }
}

/// The action values of every determinization in order; the first error stops the list.
pub open spec fn all_values(
    rec: crate::game_match::MatchRecord,
    actor: Player,
    actions: Seq<Action>,
    ds: Seq<(Seq<CardFace>, Seq<CardFace>)>,
) -> Result<Seq<Seq<int>>, BotAnalysisError>
    decreases ds.len(),
{
    if ds.len() == 0 {
        Ok(Seq::empty())
    } else {
        match all_values(rec, actor, actions, ds.drop_last()) {
            Err(e) => Err(e),
            Ok(prev) => match determinization_values(rec, actor, actions, ds.last()) {
                Err(e) => Err(e),
                Ok(v) => Ok(prev.push(v)),
            },
        }
    }
}

proof fn lemma_round_slots_valid(plays: Seq<PlayedCard>, round_index: int, actor: Player)
    requires
        0 <= round_index <= usize::MAX,
    ensures
        forall|i: int|
            0 <= i < hidden_round_slots(plays, round_index, actor).len() ==> match #[trigger] hidden_round_slots(
                plays,
                round_index,
                actor,
            )[i] {
                HiddenSlot::Completed { round_index: r, play_index } => r == round_index
                    && play_index < plays.len(),
                HiddenSlot::Current { .. } => false,
            },
    decreases plays.len(),
{
    if plays.len() > 0 {
        lemma_round_slots_valid(plays.drop_last(), round_index, actor);
        let rest = hidden_round_slots(plays.drop_last(), round_index, actor);
        let all = hidden_round_slots(plays, round_index, actor);
        assert forall|i: int| 0 <= i < all.len() implies match #[trigger] all[i] {
            HiddenSlot::Completed { round_index: r, play_index } => r == round_index
                && play_index < plays.len(),
            HiddenSlot::Current { .. } => false,
        } by {
            if i < rest.len() {
                assert(all[i] == rest[i]);
            }
        }
    }
}

proof fn lemma_rounds_slots_valid(s: StateView, rounds: Seq<RoundView>, actor: Player)
    requires
        rounds.len() <= s.completed_rounds.len(),
        s.completed_rounds.len() <= usize::MAX,
        forall|i: int| 0 <= i < rounds.len() ==> #[trigger] rounds[i] == s.completed_rounds[i],
    ensures
        slots_valid(s, hidden_rounds(rounds, actor)),
        forall|i: int| 0 <= i < hidden_rounds(rounds, actor).len() ==> #[trigger] hidden_rounds(rounds, actor)[i] is Completed,
    decreases rounds.len(),
{
    if rounds.len() > 0 {
        lemma_rounds_slots_valid(s, rounds.drop_last(), actor);
        lemma_round_slots_valid(rounds.last().plays, rounds.len() - 1, actor);
        let rest = hidden_rounds(rounds.drop_last(), actor);
        let last = hidden_round_slots(rounds.last().plays, rounds.len() - 1, actor);
        let all = hidden_rounds(rounds, actor);
        assert(rounds.last() == s.completed_rounds[rounds.len() - 1]);
        assert forall|i: int| 0 <= i < all.len() implies match #[trigger] all[i] {
            HiddenSlot::Completed { round_index, play_index } => round_index < s.completed_rounds.len()
                && play_index < s.completed_rounds[round_index as int].plays.len(),
            HiddenSlot::Current { play_index } => play_index < s.current_plays.len(),
        } && all[i] is Completed by {
            if i < rest.len() {
                assert(all[i] == rest[i]);
            } else {
                assert(all[i] == last[i - rest.len()]);
            }
        }
    }
}

proof fn lemma_current_slots_valid(plays: Seq<PlayedCard>, actor: Player)
    ensures
        forall|i: int|
            0 <= i < hidden_current(plays, actor).len() ==> match #[trigger] hidden_current(plays, actor)[i] {
                HiddenSlot::Current { play_index } => play_index < plays.len(),
                HiddenSlot::Completed { .. } => false,
            },
    decreases plays.len(),
{
    if plays.len() > 0 {
        lemma_current_slots_valid(plays.drop_last(), actor);
        let rest = hidden_current(plays.drop_last(), actor);
        let all = hidden_current(plays, actor);
        assert forall|i: int| 0 <= i < all.len() implies match #[trigger] all[i] {
            HiddenSlot::Current { play_index } => play_index < plays.len(),
            HiddenSlot::Completed { .. } => false,
        } by {
            if i < rest.len() {
                assert(all[i] == rest[i]);
            }
        }
    }
}

proof fn lemma_hidden_slots_valid(s: StateView, actor: Player)
    requires
        s.completed_rounds.len() <= usize::MAX,
    ensures
        slots_valid(s, hidden_slots(s, actor)),
{
    lemma_rounds_slots_valid(s, s.completed_rounds, actor);
    lemma_current_slots_valid(s.current_plays, actor);
    let a = hidden_rounds(s.completed_rounds, actor);
    let b = hidden_current(s.current_plays, actor);
    let all = hidden_slots(s, actor);
    assert forall|i: int| 0 <= i < all.len() implies match #[trigger] all[i] {
        HiddenSlot::Completed { round_index, play_index } => round_index < s.completed_rounds.len()
            && play_index < s.completed_rounds[round_index as int].plays.len(),
        HiddenSlot::Current { play_index } => play_index < s.current_plays.len(),
    } by {
        if i < a.len() {
            assert(all[i] == a[i]);
        } else {
            assert(all[i] == b[i - a.len()]);
        }
    }
}

proof fn lemma_set_slot_keeps_valid(s: StateView, slot: HiddenSlot, face: CardFace, slots: Seq<HiddenSlot>)
    requires
        slots_valid(s, slots),
        slots_valid(s, seq![slot]),
    ensures
        slots_valid(set_slot(s, slot, face), slots),
{
    let t = set_slot(s, slot, face);
    assert(match seq![slot][0] {
        HiddenSlot::Completed { round_index, play_index } => round_index < s.completed_rounds.len()
            && play_index < s.completed_rounds[round_index as int].plays.len(),
        HiddenSlot::Current { play_index } => play_index < s.current_plays.len(),
    });
    assert forall|i: int| 0 <= i < slots.len() implies match #[trigger] slots[i] {
        HiddenSlot::Completed { round_index, play_index } => round_index < t.completed_rounds.len()
            && play_index < t.completed_rounds[round_index as int].plays.len(),
        HiddenSlot::Current { play_index } => play_index < t.current_plays.len(),
    } by {
        match slots[i] {
            HiddenSlot::Completed { round_index, play_index } => {
                if let HiddenSlot::Completed { round_index: r, .. } = slot {
                    if r == round_index {
                    }
                }
            },
            HiddenSlot::Current { .. } => {},
        }
    }
}

fn set_slot_exec(state: &mut crate::state::GameState, slot: HiddenSlot, face: CardFace)
    requires
        slots_valid(old(state)@, seq![slot]),
    ensures
        final(state)@ == set_slot(old(state)@, slot, face),
{
    assert(match seq![slot][0] {
        HiddenSlot::Completed { round_index, play_index } => round_index < old(state)@.completed_rounds.len()
            && play_index < old(state)@.completed_rounds[round_index as int].plays.len(),
        HiddenSlot::Current { play_index } => play_index < old(state)@.current_plays.len(),
    });
    match slot {
        HiddenSlot::Completed { round_index, play_index } => {
            let rounds = state.completed_rounds.as_slice();
            let round = &rounds[round_index];
            assert(rounds@.map_values(|round: crate::state::CompletedRound| round@)[round_index as int] == round@);
            let play = &round.plays.as_slice()[play_index];
            let updated = crate::state::PlayedCard {
                player: play.player,
                visibility: play.visibility,
                card: crate::cards::Card { id: play.card.id.clone(), rank: face.rank, suit: face.suit },
            };
            let mut plays = round.plays.clone();
            plays.set(play_index, updated);
            let new_round = crate::state::CompletedRound {
                leader: round.leader,
                winner: round.winner,
                plays,
            };
            state.completed_rounds.set(round_index, new_round);
        },
        HiddenSlot::Current { play_index } => {
            let play = &state.current_round.plays.as_slice()[play_index];
            let updated = crate::state::PlayedCard {
                player: play.player,
                visibility: play.visibility,
                card: crate::cards::Card { id: play.card.id.clone(), rank: face.rank, suit: face.suit },
            };
            state.current_round.plays.set(play_index, updated);
        },
    }
}

/// The match that one determinization makes of `game`, restored.
fn determinize_match(
    game: &Match,
    p: &PerspectiveRequest,
    Ghost(actor): Ghost<Player>,
    hidden: &Vec<CardFace>,
    hand: &Vec<CardFace>,
) -> (r: Result<Match, BotAnalysisError>)
    requires
        game.wf(),
        game@.current_hand matches Some(h) && describes(*p, h.state, actor),
    ensures
        ({
            let rec = crate::game_match::view_record(game@);
            match rec.3 {
                None => false,
                Some(h) => match crate::game_match::record_restored(
                    rec.0,
                    rec.1,
                    rec.2,
                    Some((determinized(h.0, actor, hidden@, hand@), h.1, h.2)),
                ) {
                    Err(e) => r == Err::<Match, BotAnalysisError>(BotAnalysisError::Engine(e)),
                    Ok(m) => r matches Ok(g) && g.wf() && g@ == m,
                },
            }
        }),
{
    let ghost h = game@.current_hand.unwrap();
    let ghost s = h.state;
    let crate::match_types::MatchState { next_dealer, score, winner, current_hand } = game.export_state();
    let mut hand_state = match current_hand {
        Some(x) => x,
        None => {
            return Err(BotAnalysisError::Engine(EngineError::NoActiveHand));
        },
    };
    let opponent = p.opponent;
    let ghost theirs = s.hand(opponent);
    let mut cards: Vec<crate::cards::Card> = Vec::new();
    let mut i: usize = 0;
    while i < p.opponent_hand_ids.len() && i < hand.len()
        invariant
            i <= p.opponent_hand_ids@.len(),
            i <= hand@.len(),
            describes(*p, s, actor),
            theirs == s.hand(opponent),
            opponent == opponent_of(actor),
            cards@ == rebuilt_hand(theirs, hand@).take(i as int),
        decreases hand@.len() - i,
    {
        cards.push(crate::cards::Card { id: p.opponent_hand_ids[i].clone(), rank: hand[i].rank, suit: hand[i].suit });
        i += 1;
        assert(cards@ =~= rebuilt_hand(theirs, hand@).take(i as int));
    }
    assert(rebuilt_hand(theirs, hand@).take(i as int) =~= rebuilt_hand(theirs, hand@));
    if opponent == 0 {
        hand_state.state.hands.zero = crate::lists::CardList::from_vec(cards);
    } else {
        hand_state.state.hands.one = crate::lists::CardList::from_vec(cards);
    }
    let ghost s1 = hand_state.state@;
    assert(hand_state.hand_winner == h.hand_winner);
    assert(hand_state.match_winner == h.match_winner);
    assert(s1 == crate::engine::with_hand(s, opponent, rebuilt_hand(theirs, hand@)));
    let round_count = hand_state.state.completed_rounds.len();
    assert(round_count == s.completed_rounds.len());
    proof {
        lemma_hidden_slots_valid(s, actor);
    }
    let slots = &p.hidden_slots;
    assert(slots_valid(s1, slots@));
    let mut j: usize = 0;
    assert(slots@.skip(0) =~= slots@);
    assert(hidden@.skip(0) =~= hidden@);
    while j < slots.len() && j < hidden.len()
        invariant
            j <= slots@.len(),
            j <= hidden@.len(),
            slots_valid(hand_state.state@, slots@),
            hand_state.hand_winner == h.hand_winner,
            hand_state.match_winner == h.match_winner,
            fill_slots(s1, slots@, hidden@) == fill_slots(
                hand_state.state@,
                slots@.skip(j as int),
                hidden@.skip(j as int),
            ),
        decreases slots@.len() - j,
    {
        let slot = slots[j];
        assert(seq![slot][0] == slots@[j as int]);
        assert(slots_valid(hand_state.state@, seq![slot]));
        proof {
            lemma_set_slot_keeps_valid(hand_state.state@, slot, hidden@[j as int], slots@);
        }
        assert(slots@.skip(j as int).drop_first() =~= slots@.skip(j as int + 1));
        assert(hidden@.skip(j as int).drop_first() =~= hidden@.skip(j as int + 1));
        set_slot_exec(&mut hand_state.state, slot, hidden[j]);
        j += 1;
    }
    assert(fill_slots(hand_state.state@, slots@.skip(j as int), hidden@.skip(j as int))
        == hand_state.state@);
    assert(slots@ == hidden_slots(s, actor));
    assert(hand_state.state@ == determinized(s, actor, hidden@, hand@));
    assert(hand_state.hand_winner == h.hand_winner);
    assert(hand_state.match_winner == h.match_winner);
    let resolved = crate::match_types::MatchState {
        next_dealer,
        score,
        winner,
        current_hand: Some(hand_state),
    };
    assert(crate::game_match::match_restored(resolved) == crate::game_match::record_restored(
        game@.next_dealer,
        game@.score,
        game@.winner,
        Some((determinized(s, actor, hidden@, hand@), h.hand_winner, h.match_winner)),
    ));
    match Match::from_state(resolved) {
        Ok(m) => Ok(m),
        Err(e) => Err(BotAnalysisError::Engine(e)),
    }
}

/// The value to `player` of each action in turn.
fn evaluate_root_actions(game: &Match, player: Player, actions: &Vec<Action>) -> (r: Result<
    Vec<i32>,
    BotAnalysisError,
>)
    requires
        game.wf(),
    ensures
        match root_values(game@, player, actions@) {
            Ok(vs) => r matches Ok(v) && v@.map_values(|x: i32| x as int) == vs,
            Err(e) => r == Err::<Vec<i32>, BotAnalysisError>(e),
        },
{
    let mut values: Vec<i32> = Vec::new();
    let mut i: usize = 0;
    assert(actions@.take(0) =~= Seq::<Action>::empty());
    assert(values@.map_values(|x: i32| x as int) =~= Seq::<int>::empty());
    while i < actions.len()
        invariant
            i <= actions@.len(),
            game.wf(),
            root_values(game@, player, actions@.take(i as int)) == Ok::<Seq<int>, BotAnalysisError>(
                values@.map_values(|x: i32| x as int),
            ),
        decreases actions@.len() - i,
    {
        assert(actions@.take(i as int + 1).drop_last() =~= actions@.take(i as int));
        let mut next = game.duplicate();
        match next.apply_action(player, &actions[i]) {
            Ok(()) => {},
            Err(e) => {
                proof {
                    lemma_root_values_err(game@, player, actions@, i as int + 1);
                }
                return Err(BotAnalysisError::Engine(e));
            },
        }
        let value = match minimax_hand_value(&next, player) {
            Ok(v) => v,
            Err(e) => {
                proof {
                    lemma_root_values_err(game@, player, actions@, i as int + 1);
                }
                return Err(e);
            },
        };
        let ghost before = values@;
        values.push(value);
        assert(values@.map_values(|x: i32| x as int) =~= before.map_values(|x: i32| x as int).push(
            value as int,
        ));
        i += 1;
    }
    assert(actions@.take(actions@.len() as int) =~= actions@);
    Ok(values)
}

proof fn lemma_root_values_err(
    m: crate::game_match::MatchView,
    player: Player,
    actions: Seq<Action>,
    n: int,
)
    requires
        0 <= n <= actions.len(),
        root_values(m, player, actions.take(n)) is Err,
    ensures
        root_values(m, player, actions) == root_values(m, player, actions.take(n)),
    decreases actions.len() - n,
{
    if n < actions.len() {
        assert(actions.take(n + 1).drop_last() =~= actions.take(n));
        lemma_root_values_err(m, player, actions, n + 1);
    } else {
        assert(actions.take(n) =~= actions);
    }
}

// ---------------------------------------------------------------------------
// Aggregating the values of all determinizations
// ---------------------------------------------------------------------------
/// An action with its values over the determinizations.
#[derive(Debug, Clone, PartialEq, Eq)]
pub struct TacticalActionSummary {
    pub action: Action,
    pub force_hand_win: bool,
    pub worst_case_signed_points: i32,
    pub total_signed_points: i32,
    pub winning_determinizations: usize,
    pub total_determinizations: usize,
}

/// The summaries of every strategic action of `player`.
#[derive(Debug, Clone, PartialEq, Eq)]
pub struct TacticalTurnAnalysis {
    pub player: Player,
    pub action_summaries: Vec<TacticalActionSummary>,
}

/// `a + b` as `i32` addition wraps it.
pub open spec fn wrapping_i32(a: int, b: int) -> int {
    if a + b > i32::MAX {
        a + b - 0x1_0000_0000
    } else if a + b < i32::MIN {
        a + b + 0x1_0000_0000
    } else {
        a + b
    }
}

/// The lowest value of action `k` (the largest `i32` when there is none).
pub open spec fn worst_value(vals: Seq<Seq<int>>, k: int) -> int
    decreases vals.len(),
{
    if vals.len() == 0 {
        i32::MAX as int
    } else {
        let w = worst_value(vals.drop_last(), k);
        if vals.last()[k] < w {
            vals.last()[k]
        } else {
            w
        }
    }
}

/// The total of the values of action `k`, with wrapping `i32` addition.
pub open spec fn total_value(vals: Seq<Seq<int>>, k: int) -> int
    decreases vals.len(),
{
    if vals.len() == 0 {
        0
    } else {
        wrapping_i32(total_value(vals.drop_last(), k), vals.last()[k])
    }
}

/// How many determinizations give action `k` a positive value.
pub open spec fn winning_count(vals: Seq<Seq<int>>, k: int) -> nat
    decreases vals.len(),
{
    if vals.len() == 0 {
        0
    } else {
        winning_count(vals.drop_last(), k) + if vals.last()[k] > 0 {
            1nat
        } else {
            0nat
        }
    }
}

/// The summary of action `k` over the values; a forced win needs every determinization
/// won and none of them sampled.
pub open spec fn summary_of(action: Action, vals: Seq<Seq<int>>, k: int, sampled: bool) -> TacticalActionSummary {
    TacticalActionSummary {
        action,
        force_hand_win: !sampled && winning_count(vals, k) == vals.len(),
        worst_case_signed_points: worst_value(vals, k) as i32,
        total_signed_points: total_value(vals, k) as i32,
        winning_determinizations: winning_count(vals, k) as usize,
        total_determinizations: vals.len() as usize,
    }
}

/// The text of the error for an analysis without determinizations.
pub open spec fn no_determinizations_text() -> Seq<char> {
    "tactical analysis found no compatible determinizations"@
}

/// The analysis made of the values: an error when there are none, otherwise one summary
/// per action.
pub open spec fn finalized(
    player: Player,
    actions: Seq<Action>,
    vals: Seq<Seq<int>>,
    sampled: bool,
    r: Result<TacticalTurnAnalysis, BotAnalysisError>,
) -> bool {
    if vals.len() == 0 {
        match r {
            Err(BotAnalysisError::InvalidAnalysis(msg)) => msg@ == no_determinizations_text(),
            _ => false,
        }
    } else {
        match r {
            Ok(a) => a.player == player && a.action_summaries@.len() == actions.len() && forall|k: int|
                0 <= k < actions.len() ==> #[trigger] a.action_summaries@[k] == summary_of(
                    actions[k],
                    vals,
                    k,
                    sampled,
                ),
            Err(_) => false,
        }
    }
}

struct AggregateScore {
    worst_case_signed_points: i32,
    total_signed_points: i32,
    winning_determinizations: usize,
}

/// The aggregates hold the worst value, wrapped total and wins of each action.
spec fn aggregates_match(aggs: Seq<AggregateScore>, vals: Seq<Seq<int>>, n: int) -> bool {
    &&& aggs.len() == n
    &&& forall|k: int|
        0 <= k < n ==> (#[trigger] aggs[k]).worst_case_signed_points as int == worst_value(vals, k)
            && aggs[k].total_signed_points as int == total_value(vals, k)
            && aggs[k].winning_determinizations as int == winning_count(vals, k)
}

fn fresh_aggregates(len: usize) -> (r: Vec<AggregateScore>)
    ensures
        aggregates_match(r@, Seq::empty(), len as int),
{
    let mut out: Vec<AggregateScore> = Vec::new();
    let mut i: usize = 0;
    while i < len
        invariant
            i <= len,
            aggregates_match(out@, Seq::empty(), i as int),
        decreases len - i,
    {
        out.push(
            AggregateScore {
                worst_case_signed_points: i32::MAX,
                total_signed_points: 0,
                winning_determinizations: 0,
            },
        );
        i += 1;
    }
    out
}

fn wrapping_add_i32(a: i32, b: i32) -> (r: i32)
    ensures
        r as int == wrapping_i32(a as int, b as int),
{
    let sum = a as i64 + b as i64;
    if sum > i32::MAX as i64 {
        (sum - 0x1_0000_0000) as i32
    } else if sum < i32::MIN as i64 {
        (sum + 0x1_0000_0000) as i32
    } else {
        sum as i32
    }
}

/// Folds one determinization's values into the aggregates.
fn accumulate_values(
    aggregates: &mut Vec<AggregateScore>,
    values: &Vec<i32>,
    Ghost(vals): Ghost<Seq<Seq<int>>>,
)
    requires
        aggregates_match(old(aggregates)@, vals, old(aggregates)@.len() as int),
        values@.len() == old(aggregates)@.len(),
        vals.len() < usize::MAX,
        forall|k: int| 0 <= k < old(aggregates)@.len() ==> winning_count(vals, k) <= vals.len(),
    ensures
        aggregates_match(
            final(aggregates)@,
            vals.push(values@.map_values(|x: i32| x as int)),
            old(aggregates)@.len() as int,
        ),
{
    let ghost next = vals.push(values@.map_values(|x: i32| x as int));
    let ghost n = aggregates@.len();
    assert(next.drop_last() =~= vals);
    let mut k: usize = 0;
    while k < aggregates.len()
        invariant
            k <= aggregates@.len(),
            aggregates@.len() == n,
            values@.len() == n,
            vals.len() < usize::MAX,
            next == vals.push(values@.map_values(|x: i32| x as int)),
            next.drop_last() == vals,
            forall|j: int| 0 <= j < n ==> winning_count(vals, j) <= vals.len(),
            forall|j: int|
                k <= j < n ==> (#[trigger] aggregates@[j]).worst_case_signed_points as int
                    == worst_value(vals, j) && aggregates@[j].total_signed_points as int
                    == total_value(vals, j) && aggregates@[j].winning_determinizations as int
                    == winning_count(vals, j),
            forall|j: int|
                0 <= j < k ==> (#[trigger] aggregates@[j]).worst_case_signed_points as int
                    == worst_value(next, j) && aggregates@[j].total_signed_points as int
                    == total_value(next, j) && aggregates@[j].winning_determinizations as int
                    == winning_count(next, j),
        decreases n - k,
    {
        let value = values[k];
        assert(next.last()[k as int] == value as int);
        let old_agg = &aggregates[k];
        let worst = if value < old_agg.worst_case_signed_points {
            value
        } else {
            old_agg.worst_case_signed_points
        };
        let total = wrapping_add_i32(old_agg.total_signed_points, value);
        let wins = if value > 0 {
            old_agg.winning_determinizations + 1
        } else {
            old_agg.winning_determinizations
        };
        aggregates.set(
            k,
            AggregateScore {
                worst_case_signed_points: worst,
                total_signed_points: total,
                winning_determinizations: wins,
            },
        );
        k += 1;
    }
}

/// The analysis made of the aggregates.
fn finalize_analysis(
    player: Player,
    legal_actions: Vec<Action>,
    aggregates: Vec<AggregateScore>,
    total_determinizations: usize,
    sampled: bool,
    Ghost(vals): Ghost<Seq<Seq<int>>>,
) -> (r: Result<TacticalTurnAnalysis, BotAnalysisError>)
    requires
        aggregates_match(aggregates@, vals, legal_actions@.len() as int),
        total_determinizations == vals.len(),
    ensures
        finalized(player, legal_actions@, vals, sampled, r),
{
    if total_determinizations == 0 {
        let msg = "tactical analysis found no compatible determinizations".to_owned();
        proof {
            reveal_strlit("tactical analysis found no compatible determinizations");
        }
        return Err(BotAnalysisError::InvalidAnalysis(msg));
    }
    let mut summaries: Vec<TacticalActionSummary> = Vec::new();
    let mut k: usize = 0;
    while k < legal_actions.len()
        invariant
            k <= legal_actions@.len(),
            aggregates_match(aggregates@, vals, legal_actions@.len() as int),
            total_determinizations == vals.len(),
            summaries@.len() == k,
            forall|j: int|
                0 <= j < k ==> #[trigger] summaries@[j] == summary_of(legal_actions@[j], vals, j, sampled),
        decreases legal_actions@.len() - k,
    {
        let aggregate = &aggregates[k];
        let summary = TacticalActionSummary {
            force_hand_win: !sampled && aggregate.winning_determinizations == total_determinizations,
            worst_case_signed_points: aggregate.worst_case_signed_points,
            total_signed_points: aggregate.total_signed_points,
            winning_determinizations: aggregate.winning_determinizations,
            total_determinizations,
            action: legal_actions[k].duplicate(),
        };
        summaries.push(summary);
        k += 1;
    }
    Ok(TacticalTurnAnalysis { player, action_summaries: summaries })
}

// ---------------------------------------------------------------------------
// The analyses
// ---------------------------------------------------------------------------
/// The values of a result as plain integers agree with a spec result.
pub open spec fn same_values(r: Result<Vec<i32>, BotAnalysisError>, s: Result<Seq<int>, BotAnalysisError>) -> bool {
    match s {
        Ok(vs) => r matches Ok(v) && v@.map_values(|x: i32| x as int) == vs,
        Err(e) => r == Err::<Vec<i32>, BotAnalysisError>(e),
    }
}

/// The values of each action in the match one determinization makes of `game`.
fn evaluate_sample(
    game: &Match,
    p: &PerspectiveRequest,
    player: Player,
    legal_actions: &Vec<Action>,
    hidden: &Vec<CardFace>,
    hand: &Vec<CardFace>,
) -> (r: Result<Vec<i32>, BotAnalysisError>)
    requires
        game.wf(),
        game@.current_hand matches Some(h) && describes(*p, h.state, player),
    ensures
        same_values(
            r,
            determination_values_of(game@, player, legal_actions@, (hidden@, hand@)),
        ),
{
    let determinized = match determinize_match(game, p, Ghost(player), hidden, hand) {
        Ok(m) => m,
        Err(e) => {
            return Err(e);
        },
    };
    evaluate_root_actions(&determinized, player, legal_actions)
}

/// The values of a determinization of the match `game`.
pub open spec fn determination_values_of(
    game: crate::game_match::MatchView,
    actor: Player,
    actions: Seq<Action>,
    d: (Seq<CardFace>, Seq<CardFace>),
) -> Result<Seq<int>, BotAnalysisError> {
    determinization_values(crate::game_match::view_record(game), actor, actions, d)
}

proof fn lemma_winning_count_bound(vals: Seq<Seq<int>>, k: int)
    ensures
        winning_count(vals, k) <= vals.len(),
    decreases vals.len(),
{
    if vals.len() > 0 {
        lemma_winning_count_bound(vals.drop_last(), k);
    }
}

proof fn lemma_all_values_err(
    rec: crate::game_match::MatchRecord,
    actor: Player,
    actions: Seq<Action>,
    ds: Seq<(Seq<CardFace>, Seq<CardFace>)>,
    n: int,
)
    requires
        0 <= n <= ds.len(),
        all_values(rec, actor, actions, ds.take(n)) is Err,
    ensures
        all_values(rec, actor, actions, ds) == all_values(rec, actor, actions, ds.take(n)),
    decreases ds.len() - n,
{
    if n < ds.len() {
        assert(ds.take(n + 1).drop_last() =~= ds.take(n));
        lemma_all_values_err(rec, actor, actions, ds, n + 1);
    } else {
        assert(ds.take(n) =~= ds);
    }
}

/// Evaluates every determinization in order and folds its values into the aggregates.
fn accumulate_all(
    game: &Match,
    p: &PerspectiveRequest,
    player: Player,
    legal_actions: &Vec<Action>,
    ds: &Vec<(Vec<CardFace>, Vec<CardFace>)>,
    aggregates: &mut Vec<AggregateScore>,
) -> (r: Result<Ghost<Seq<Seq<int>>>, BotAnalysisError>)
    requires
        game.wf(),
        game@.current_hand matches Some(h) && describes(*p, h.state, player),
        aggregates_match(old(aggregates)@, Seq::empty(), legal_actions@.len() as int),
    ensures
        match r {
            Ok(g) => all_values(
                crate::game_match::view_record(game@),
                player,
                legal_actions@,
                pair_views(ds@),
            ) == Ok::<Seq<Seq<int>>, BotAnalysisError>(g@) && aggregates_match(
                final(aggregates)@,
                g@,
                legal_actions@.len() as int,
            ) && g@.len() == ds@.len(),
            Err(e) => all_values(
                crate::game_match::view_record(game@),
                player,
                legal_actions@,
                pair_views(ds@),
            ) == Err::<Seq<Seq<int>>, BotAnalysisError>(e),
        },
{
    let ghost rec = crate::game_match::view_record(game@);
    let ghost dv = pair_views(ds@);
    let ghost mut vals: Seq<Seq<int>> = Seq::empty();
    let mut d: usize = 0;
    assert(dv.take(0) =~= Seq::<(Seq<CardFace>, Seq<CardFace>)>::empty());
    while d < ds.len()
        invariant
            d <= ds@.len(),
            game.wf(),
            game@.current_hand matches Some(h) && describes(*p, h.state, player),
            rec == crate::game_match::view_record(game@),
            dv == pair_views(ds@),
            vals.len() == d,
            all_values(rec, player, legal_actions@, dv.take(d as int)) == Ok::<
                Seq<Seq<int>>,
                BotAnalysisError,
            >(vals),
            aggregates_match(aggregates@, vals, legal_actions@.len() as int),
        decreases ds@.len() - d,
    {
        assert(dv.take(d as int + 1).drop_last() =~= dv.take(d as int));
        assert(dv[d as int] == (ds@[d as int].0@, ds@[d as int].1@));
        let values = match evaluate_sample(game, p, player, legal_actions, &ds[d].0, &ds[d].1) {
            Ok(v) => v,
            Err(e) => {
                proof {
                    lemma_all_values_err(rec, player, legal_actions@, dv, d as int + 1);
                }
                return Err(e);
            },
        };
        proof {
            lemma_root_values_len(game@, player, legal_actions@, rec, dv[d as int]);
            assert forall|k: int| 0 <= k < aggregates@.len() implies winning_count(vals, k) <= vals.len() by {
                lemma_winning_count_bound(vals, k);
            }
        }
        accumulate_values(aggregates, &values, Ghost(vals));
        proof {
            vals = vals.push(values@.map_values(|x: i32| x as int));
        }
        d += 1;
    }
    assert(dv.take(ds@.len() as int) =~= dv);
    Ok(Ghost(vals))
}

proof fn lemma_root_values_len_inner(m: crate::game_match::MatchView, player: Player, actions: Seq<Action>)
    ensures
        root_values(m, player, actions) matches Ok(vs) ==> vs.len() == actions.len(),
    decreases actions.len(),
{
    if actions.len() > 0 {
        lemma_root_values_len_inner(m, player, actions.drop_last());
    }
}

proof fn lemma_root_values_len(
    game: crate::game_match::MatchView,
    player: Player,
    actions: Seq<Action>,
    rec: crate::game_match::MatchRecord,
    d: (Seq<CardFace>, Seq<CardFace>),
)
    ensures
        determinization_values(rec, player, actions, d) matches Ok(vs) ==> vs.len() == actions.len(),
{
    if let Some(h) = rec.3 {
        if let Ok(m) = crate::game_match::record_restored(
            rec.0,
            rec.1,
            rec.2,
            Some((determinized(h.0, player, d.0, d.1), h.1, h.2)),
        ) {
            lemma_root_values_len_inner(m, player, actions);
        }
    }
}

/// What an exhaustive analysis of `player`'s turn gives: the strategic actions, each
/// summarised over every determinization of what `player` cannot see.
pub open spec fn exhaustive_analysis(
    game: crate::game_match::MatchView,
    player: Player,
    r: Result<TacticalTurnAnalysis, BotAnalysisError>,
) -> bool {
    match game.current_hand {
        None => r == Err::<TacticalTurnAnalysis, BotAnalysisError>(
            BotAnalysisError::Engine(EngineError::NoActiveHand),
        ),
        Some(h) => match legal_action_seq(h, player) {
            Err(e) => r == Err::<TacticalTurnAnalysis, BotAnalysisError>(BotAnalysisError::Engine(e)),
            Ok(all) => {
                let actions = strategic_only(all);
                if actions.len() == 0 {
                    r == Err::<TacticalTurnAnalysis, BotAnalysisError>(BotAnalysisError::NoLegalActions)
                } else {
                    match all_values(
                        crate::game_match::view_record(game),
                        player,
                        actions,
                        determinizations(h.state, player),
                    ) {
                        Err(e) => r == Err::<TacticalTurnAnalysis, BotAnalysisError>(e),
                        Ok(vals) => finalized(player, actions, vals, false, r),
                    }
                }
            },
        },
    }
}

/// Analyses `player`'s turn over every determinization of what it cannot see.
pub fn analyze_tactical_turn(game: &Match, player: Player) -> (r: Result<TacticalTurnAnalysis, BotAnalysisError>)
    requires
        game.wf(),
    ensures
        exhaustive_analysis(game@, player, r),
{
    let legal_actions = match game.strategic_legal_actions(player) {
        Ok(a) => a,
        Err(e) => {
            return Err(BotAnalysisError::Engine(e));
        },
    };
    if legal_actions.len() == 0 {
        return Err(BotAnalysisError::NoLegalActions);
    }
    let state = game.export_state();
    let hand = match &state.current_hand {
        Some(h) => h,
        None => {
            return Err(BotAnalysisError::Engine(EngineError::NoActiveHand));
        },
    };
    let perspective = build_perspective_request(&hand.state, player);
    let determinizations_list = enumerate_determinizations(&perspective);
    let mut aggregates = fresh_aggregates(legal_actions.len());
    let vals = match accumulate_all(
        game,
        &perspective,
        player,
        &legal_actions,
        &determinizations_list,
        &mut aggregates,
    ) {
        Ok(g) => g,
        Err(e) => {
            return Err(e);
        },
    };
    let total_determinizations = determinizations_list.len();
    finalize_analysis(player, legal_actions, aggregates, total_determinizations, false, vals)
}

// ---------------------------------------------------------------------------
// Sampling determinizations
// ---------------------------------------------------------------------------
/// `x` capped at the largest `usize`.
pub open spec fn capped_usize(x: int) -> int {
    if x > usize::MAX {
        usize::MAX as int
    } else {
        x
    }
}

/// `a (a - 1) ... (a - h + 1)`, capped at each step.
pub open spec fn falling_capped(a: int, h: nat) -> int
    decreases h,
{
    if h == 0 {
        1
    } else {
        capped_usize(falling_capped(a, (h - 1) as nat) * (a - (h - 1)))
    }
}

/// `n!`, capped at each step.
pub open spec fn factorial_capped(n: nat) -> int
    decreases n,
{
    if n == 0 {
        1
    } else {
        capped_usize(factorial_capped((n - 1) as nat) * n)
    }
}

/// How many determinizations there are: ordered faces for the hidden plays times
/// unordered hands for the opponent (zero when the faces do not suffice), capped.
pub open spec fn determinization_count(available: nat, hidden: nat, hand: nat) -> int {
    if available < hidden + hand {
        0
    } else {
        capped_usize(
            falling_capped(available as int, hidden) * (falling_capped(
                available - hidden,
                hand,
            ) / factorial_capped(hand)),
        )
    }
}

proof fn lemma_factorial_positive(n: nat)
    ensures
        1 <= factorial_capped(n) <= usize::MAX,
    decreases n,
{
    if n > 0 {
        lemma_factorial_positive((n - 1) as nat);
        assert(factorial_capped((n - 1) as nat) * n >= 1) by (nonlinear_arith)
            requires
                factorial_capped((n - 1) as nat) >= 1,
                n >= 1,
        ;
    }
}

proof fn lemma_falling_range(a: int, h: nat)
    requires
        a >= h,
    ensures
        0 <= falling_capped(a, h) <= usize::MAX,
    decreases h,
{
    if h > 0 {
        lemma_falling_range(a, (h - 1) as nat);
        assert(falling_capped(a, (h - 1) as nat) * (a - (h - 1)) >= 0) by (nonlinear_arith)
            requires
                falling_capped(a, (h - 1) as nat) >= 0,
                a - (h - 1) >= 0,
        ;
    }
}

fn capped_mul_usize(a: usize, b: usize) -> (r: usize)
    ensures
        r as int == capped_usize(a * b),
{
    match a.checked_mul(b) {
        Some(p) => p,
        None => usize::MAX,
    }
}

/// How many determinizations the request has, capped at the largest `usize`.
fn count_determinizations(p: &PerspectiveRequest) -> (r: usize)
    ensures
        r as int == determinization_count(
            p.available_faces@.len(),
            p.hidden_slots@.len(),
            p.opponent_hand_ids@.len(),
        ),
{
    let available = p.available_faces.len();
    let hidden = p.hidden_slots.len();
    let hand = p.opponent_hand_ids.len();
    if available < hidden || available - hidden < hand {
        return 0;
    }
    let mut total: usize = 1;
    let mut i: usize = 0;
    while i < hidden
        invariant
            i <= hidden,
            hidden <= available,
            total as int == falling_capped(available as int, i as nat),
        decreases hidden - i,
    {
        total = capped_mul_usize(total, available - i);
        i += 1;
    }
    let remaining = available - hidden;
    let mut num: usize = 1;
    let mut den: usize = 1;
    let mut k: usize = 0;
    while k < hand
        invariant
            k <= hand,
            hand <= remaining,
            num as int == falling_capped(remaining as int, k as nat),
            den as int == factorial_capped(k as nat),
        decreases hand - k,
    {
        num = capped_mul_usize(num, remaining - k);
        den = capped_mul_usize(den, k + 1);
        k += 1;
    }
    proof {
        lemma_factorial_positive(hand as nat);
    }
    capped_mul_usize(total, num / den)
}

/// `pool` with the faces at `i` and `j` exchanged.
pub open spec fn swapped(pool: Seq<CardFace>, i: int, j: int) -> Seq<CardFace> {
    pool.update(i, pool[j]).update(j, pool[i])
}

/// `pool` after the first `draws.len()` steps of a Fisher-Yates shuffle: step `i`
/// exchanges position `i` with the drawn position.
pub open spec fn shuffled_prefix(pool: Seq<CardFace>, draws: Seq<int>) -> Seq<CardFace>
    decreases draws.len(),
{
    if draws.len() == 0 {
        pool
    } else {
        swapped(shuffled_prefix(pool, draws.drop_last()), draws.len() - 1, draws.last())
    }
}

/// The samples drawn with one list of draws per sample, and the pool left afterwards:
/// each sample reshuffles the front of the pool and takes its first faces for the hidden
/// plays and the next ones, in face order, for the opponent's hand.
pub open spec fn samples_from(
    pool: Seq<CardFace>,
    draws: Seq<Seq<int>>,
    hidden: nat,
    hand: nat,
    turnup: Turnup,
) -> (Seq<(Seq<CardFace>, Seq<CardFace>)>, Seq<CardFace>)
    decreases draws.len(),
{
    if draws.len() == 0 {
        (Seq::empty(), pool)
    } else {
        let prev = samples_from(pool, draws.drop_last(), hidden, hand, turnup);
        let q = shuffled_prefix(prev.1, draws.last());
        (
            prev.0.push(
                (q.subrange(0, hidden as int), sorted_by_order(q.subrange(hidden as int, (hidden + hand) as int), turnup)),
            ),
            q,
        )
    }
}

/// Every step `i` of every sample draws a position from `i` up to the end of the pool.
pub open spec fn draws_valid(draws: Seq<Seq<int>>, needed: nat, len: nat) -> bool {
    forall|s: int|
        0 <= s < draws.len() ==> (#[trigger] draws[s]).len() == needed && forall|i: int|
            0 <= i < needed ==> i <= #[trigger] draws[s][i] < len
}

/// Draws `samples` determinizations by partial Fisher-Yates shuffles of the unseen
/// faces; none when the faces do not suffice.
fn draw_sampled_determinizations(
    p: &PerspectiveRequest,
    samples: usize,
    rng: &mut rand::rngs::StdRng,
) -> (r: (Vec<(Vec<CardFace>, Vec<CardFace>)>, Ghost<Seq<Seq<int>>>))
    ensures
        ({
            let needed = p.hidden_slots@.len() + p.opponent_hand_ids@.len();
            &&& r.1@.len() == if p.available_faces@.len() < needed {
                0
            } else {
                samples as int
            }
            &&& draws_valid(r.1@, needed, p.available_faces@.len())
            &&& pair_views(r.0@) == samples_from(
                p.available_faces@,
                r.1@,
                p.hidden_slots@.len(),
                p.opponent_hand_ids@.len(),
                p.turnup,
            ).0
        }),
{
    let hidden = p.hidden_slots.len();
    let hand = p.opponent_hand_ids.len();
    let len = p.available_faces.len();
    let mut out: Vec<(Vec<CardFace>, Vec<CardFace>)> = Vec::new();
    if len < hidden || len - hidden < hand {
        assert(pair_views(out@) =~= Seq::<(Seq<CardFace>, Seq<CardFace>)>::empty());
        return (out, Ghost(Seq::empty()));
    }
    let needed = hidden + hand;
    let mut pool = crate::ranges::copy_faces(p.available_faces.as_slice());
    let ghost mut draws: Seq<Seq<int>> = Seq::empty();
    let mut s: usize = 0;
    while s < samples
        invariant
            s <= samples,
            needed == hidden + hand,
            needed <= len,
            len == p.available_faces@.len(),
            hidden == p.hidden_slots@.len(),
            hand == p.opponent_hand_ids@.len(),
            draws.len() == s,
            draws_valid(draws, needed as nat, len as nat),
            pool@.len() == len,
            samples_from(p.available_faces@, draws, hidden as nat, hand as nat, p.turnup)
                == (pair_views(out@), pool@),
        decreases samples - s,
    {
        let ghost start = pool@;
        let ghost mut steps: Seq<int> = Seq::empty();
        let mut i: usize = 0;
        while i < needed
            invariant
                i <= needed,
                needed <= len,
                pool@.len() == len,
                steps.len() == i,
                forall|k: int| 0 <= k < i ==> k <= #[trigger] steps[k] < len,
                pool@ == shuffled_prefix(start, steps),
            decreases needed - i,
        {
            let j = crate::random::draw_in_range(rng, i as u64, len as u64) as usize;
            let a = pool[i];
            let b = pool[j];
            pool.set(i, b);
            pool.set(j, a);
            proof {
                let before = steps;
                steps = steps.push(j as int);
                assert(steps.drop_last() =~= before);
            }
            i += 1;
        }
        let mut hidden_faces: Vec<CardFace> = Vec::new();
        let mut x: usize = 0;
        while x < hidden
            invariant
                x <= hidden,
                hidden <= pool@.len(),
                hidden_faces@ == pool@.subrange(0, x as int),
            decreases hidden - x,
        {
            hidden_faces.push(pool[x]);
            x += 1;
            assert(hidden_faces@ =~= pool@.subrange(0, x as int));
        }
        let mut hand_raw: Vec<CardFace> = Vec::new();
        let mut y: usize = hidden;
        while y < needed
            invariant
                needed == hidden + hand,
                hidden <= y <= hidden + hand,
                hidden + hand <= pool@.len(),
                hand_raw@ == pool@.subrange(hidden as int, y as int),
            decreases hidden + hand - y,
        {
            hand_raw.push(pool[y]);
            y += 1;
            assert(hand_raw@ =~= pool@.subrange(hidden as int, y as int));
        }
        let hand_faces = sort_faces(hand_raw.as_slice(), &p.turnup);
        let ghost before_out = out@;
        out.push((hidden_faces, hand_faces));
        proof {
            let old_draws = draws;
            draws = draws.push(steps);
            assert(draws.drop_last() =~= old_draws);
            assert(pair_views(out@) =~= pair_views(before_out).push(
                (pool@.subrange(0, hidden as int), sorted_by_order(pool@.subrange(hidden as int, (hidden + hand) as int), p.turnup)),
            ));
            assert forall|t: int| 0 <= t < draws.len() implies (#[trigger] draws[t]).len() == needed && forall|k: int|
                0 <= k < needed ==> k <= #[trigger] draws[t][k] < len by {
                if t < old_draws.len() {
                    assert(draws[t] == old_draws[t]);
                }
            }
        }
        s += 1;
    }
    (out, Ghost(draws))
}

/// Trusted: `rayon`'s parallel iterator evaluates every sample with `evaluate_sample`
/// and collects the results in order; when some sample fails, one of the failures is
/// returned (which one is left open, as `rayon` leaves it open).
#[verifier::external_body]
fn evaluate_samples_in_parallel(
    game: &Match,
    p: &PerspectiveRequest,
    player: Player,
    legal_actions: &Vec<Action>,
    samples: &Vec<(Vec<CardFace>, Vec<CardFace>)>,
) -> (r: Result<Vec<Vec<i32>>, BotAnalysisError>)
    requires
        game.wf(),
        game@.current_hand matches Some(h) && describes(*p, h.state, player),
    ensures
        match r {
            Ok(vs) => vs@.len() == samples@.len() && forall|i: int|
                0 <= i < vs@.len() ==> same_values(
                    Ok(#[trigger] vs@[i]),
                    determination_values_of(
                        game@,
                        player,
                        legal_actions@,
                        (samples@[i].0@, samples@[i].1@),
                    ),
                ),
            Err(e) => exists|i: int|
                0 <= i < samples@.len() && #[trigger] determination_values_of(
                    game@,
                    player,
                    legal_actions@,
                    (samples@[i].0@, samples@[i].1@),
                ) == Err::<Seq<int>, BotAnalysisError>(e),
        },
{
    samples.par_iter().map(|sample| evaluate_sample(game, p, player, legal_actions, &sample.0, &sample.1)).collect()
}

#[verifier::spinoff_prover]
#[verifier::rlimit(50)]
proof fn lemma_all_values_ok(
    rec: crate::game_match::MatchRecord,
    actor: Player,
    actions: Seq<Action>,
    ds: Seq<(Seq<CardFace>, Seq<CardFace>)>,
    vals: Seq<Seq<int>>,
)
    requires
        vals.len() == ds.len(),
        forall|i: int|
            0 <= i < ds.len() ==> #[trigger] determinization_values(rec, actor, actions, ds[i]) == Ok::<
                Seq<int>,
                BotAnalysisError,
            >(vals[i]),
    ensures
        all_values(rec, actor, actions, ds) == Ok::<Seq<Seq<int>>, BotAnalysisError>(vals),
    decreases ds.len(),
{
    if ds.len() > 0 {
        assert forall|i: int| 0 <= i < ds.drop_last().len() implies #[trigger] determinization_values(
            rec,
            actor,
            actions,
            ds.drop_last()[i],
        ) == Ok::<Seq<int>, BotAnalysisError>(vals.drop_last()[i]) by {
            assert(ds.drop_last()[i] == ds[i]);
        }
        lemma_all_values_ok(rec, actor, actions, ds.drop_last(), vals.drop_last());
        assert(determinization_values(rec, actor, actions, ds[ds.len() - 1]) == Ok::<
            Seq<int>,
            BotAnalysisError,
        >(vals[vals.len() - 1]));
        assert(vals.drop_last().push(vals.last()) =~= vals);
        assert(ds.last() == ds[ds.len() - 1]);
    } else {
        assert(vals =~= Seq::<Seq<int>>::empty());
    }
}

proof fn lemma_all_values_some_err(
    rec: crate::game_match::MatchRecord,
    actor: Player,
    actions: Seq<Action>,
    ds: Seq<(Seq<CardFace>, Seq<CardFace>)>,
    i: int,
)
    requires
        0 <= i < ds.len(),
        determinization_values(rec, actor, actions, ds[i]) is Err,
    ensures
        all_values(rec, actor, actions, ds) is Err,
    decreases ds.len(),
{
    if i < ds.len() - 1 {
        assert(ds.drop_last()[i] == ds[i]);
        lemma_all_values_some_err(rec, actor, actions, ds.drop_last(), i);
    }
}

/// What a sampled analysis gives: the exhaustive analysis while the determinizations
/// fit the budget; otherwise the analysis over `max_samples` determinizations drawn by
/// partial Fisher-Yates shuffles, with no action marked a forced win.
pub open spec fn sampled_analysis(
    game: crate::game_match::MatchView,
    player: Player,
    max_samples: usize,
    r: Result<TacticalTurnAnalysis, BotAnalysisError>,
) -> bool {
    match game.current_hand {
        None => r == Err::<TacticalTurnAnalysis, BotAnalysisError>(
            BotAnalysisError::Engine(EngineError::NoActiveHand),
        ),
        Some(h) => match legal_action_seq(h, player) {
            Err(e) => r == Err::<TacticalTurnAnalysis, BotAnalysisError>(BotAnalysisError::Engine(e)),
            Ok(all) => {
                let actions = strategic_only(all);
                if actions.len() == 0 {
                    r == Err::<TacticalTurnAnalysis, BotAnalysisError>(BotAnalysisError::NoLegalActions)
                } else {
                    let s = h.state;
                    let rec = crate::game_match::view_record(game);
                    let available = unseen_faces(s, player);
                    let hidden = hidden_slots(s, player).len();
                    let hand = s.hand(opponent_of(player)).len();
                    let count = determinization_count(available.len(), hidden, hand);
                    if !(max_samples > 0 && count > max_samples) {
                        match all_values(rec, player, actions, determinizations(s, player)) {
                            Err(e) => r == Err::<TacticalTurnAnalysis, BotAnalysisError>(e),
                            Ok(vals) => finalized(player, actions, vals, false, r),
                        }
                    } else {
                        exists|draws: Seq<Seq<int>>|
                            #![trigger samples_from(available, draws, hidden, hand, s.turnup)]
                            draws.len() == (if available.len() < hidden + hand {
                                0
                            } else {
                                max_samples as int
                            }) && draws_valid(draws, hidden + hand, available.len()) && {
                                let ds = samples_from(available, draws, hidden, hand, s.turnup).0;
                                match all_values(rec, player, actions, ds) {
                                    Ok(vals) => finalized(player, actions, vals, true, r),
                                    Err(_) => match r {
                                        Err(e) => exists|i: int|
                                            0 <= i < ds.len() && #[trigger] determinization_values(
                                                rec,
                                                player,
                                                actions,
                                                ds[i],
                                            ) == Err::<Seq<int>, BotAnalysisError>(e),
                                        Ok(_) => false,
                                    },
                                }
                            }
                    }
                }
            },
        },
    }
}

/// The same analysis as `analyze_tactical_turn`, falling back to `max_samples` random
/// determinizations when there are more than that (and `max_samples` is not zero); a
/// sampled analysis marks no action a forced win.
pub fn analyze_tactical_turn_sampled(
    game: &Match,
    player: Player,
    max_samples: usize,
    rng: &mut rand::rngs::StdRng,
) -> (r: Result<TacticalTurnAnalysis, BotAnalysisError>)
    requires
        game.wf(),
    ensures
        sampled_analysis(game@, player, max_samples, r),
{
    let legal_actions = match game.strategic_legal_actions(player) {
        Ok(a) => a,
        Err(e) => {
            return Err(BotAnalysisError::Engine(e));
        },
    };
    if legal_actions.len() == 0 {
        return Err(BotAnalysisError::NoLegalActions);
    }
    let state = game.export_state();
    let hand = match &state.current_hand {
        Some(h) => h,
        None => {
            return Err(BotAnalysisError::Engine(EngineError::NoActiveHand));
        },
    };
    let perspective = build_perspective_request(&hand.state, player);
    let total = count_determinizations(&perspective);
    let use_sampling = max_samples > 0 && total > max_samples;
    let mut aggregates = fresh_aggregates(legal_actions.len());
    if use_sampling {
        let (samples, draws) = draw_sampled_determinizations(&perspective, max_samples, rng);
        let ghost rec = crate::game_match::view_record(game@);
        let ghost ds = pair_views(samples@);
        let sample_values = match evaluate_samples_in_parallel(
            game,
            &perspective,
            player,
            &legal_actions,
            &samples,
        ) {
            Ok(v) => v,
            Err(e) => {
                proof {
                    let i = choose|i: int|
                        0 <= i < samples@.len() && #[trigger] determination_values_of(
                            game@,
                            player,
                            legal_actions@,
                            (samples@[i].0@, samples@[i].1@),
                        ) == Err::<Seq<int>, BotAnalysisError>(e);
                    assert(ds[i] == (samples@[i].0@, samples@[i].1@));
                    assert(determinization_values(rec, player, legal_actions@, ds[i]) == Err::<
                        Seq<int>,
                        BotAnalysisError,
                    >(e));
                    lemma_all_values_some_err(rec, player, legal_actions@, ds, i);
                }
                return Err(e);
            },
        };
        let ghost mut vals: Seq<Seq<int>> = Seq::empty();
        let mut k: usize = 0;
        while k < sample_values.len()
            invariant
                k <= sample_values@.len(),
                sample_values@.len() == samples@.len(),
                ds == pair_views(samples@),
                rec == crate::game_match::view_record(game@),
                vals.len() == k,
                forall|i: int|
                    0 <= i < sample_values@.len() ==> same_values(
                        Ok(#[trigger] sample_values@[i]),
                        determination_values_of(
                            game@,
                            player,
                            legal_actions@,
                            (samples@[i].0@, samples@[i].1@),
                        ),
                    ),
                forall|i: int|
                    0 <= i < k ==> #[trigger] vals[i] == sample_values@[i]@.map_values(
                        |x: i32| x as int,
                    ),
                aggregates_match(aggregates@, vals, legal_actions@.len() as int),
            decreases sample_values@.len() - k,
        {
            assert(same_values(
                Ok(sample_values@[k as int]),
                determination_values_of(
                    game@,
                    player,
                    legal_actions@,
                    (samples@[k as int].0@, samples@[k as int].1@),
                ),
            ));
            proof {
                lemma_root_values_len(game@, player, legal_actions@, rec, ds[k as int]);
                assert(ds[k as int] == (samples@[k as int].0@, samples@[k as int].1@));
                assert forall|j: int| 0 <= j < aggregates@.len() implies winning_count(vals, j) <= vals.len() by {
                    lemma_winning_count_bound(vals, j);
                }
            }
            accumulate_values(&mut aggregates, &sample_values[k], Ghost(vals));
            proof {
                let old_vals = vals;
                vals = vals.push(sample_values@[k as int]@.map_values(|x: i32| x as int));
                assert forall|i: int| 0 <= i < k + 1 implies #[trigger] vals[i] == sample_values@[i]@.map_values(
                    |x: i32| x as int,
                ) by {
                    if i < k {
                        assert(vals[i] == old_vals[i]);
                    }
                }
            }
            k += 1;
        }
        proof {
            assert forall|i: int| 0 <= i < ds.len() implies #[trigger] determinization_values(
                rec,
                player,
                legal_actions@,
                ds[i],
            ) == Ok::<Seq<int>, BotAnalysisError>(vals[i]) by {
                assert(ds[i] == (samples@[i].0@, samples@[i].1@));
                assert(same_values(
                    Ok(sample_values@[i]),
                    determination_values_of(
                        game@,
                        player,
                        legal_actions@,
                        (samples@[i].0@, samples@[i].1@),
                    ),
                ));
            }
            lemma_all_values_ok(rec, player, legal_actions@, ds, vals);
        }
        let total_determinizations = sample_values.len();
        let r = finalize_analysis(player, legal_actions, aggregates, total_determinizations, true, Ghost(vals));
        return r;
    }
    let determinizations_list = enumerate_determinizations(&perspective);
    let vals = match accumulate_all(
        game,
        &perspective,
        player,
        &legal_actions,
        &determinizations_list,
        &mut aggregates,
    ) {
        Ok(g) => g,
        Err(e) => {
            return Err(e);
        },
    };
    let total_determinizations = determinizations_list.len();
    finalize_analysis(player, legal_actions, aggregates, total_determinizations, false, vals)
}

} // verus!

verus! {

/// Every strategic action of a well-formed hand's legal list is accepted.
proof fn lemma_strategic_actions_apply(e: EngineView, mover: Player, k: int)
    requires
        engine_ok(e),
        legal_action_seq(e, mover) is Ok,
        0 <= k < strategic_only(legal_action_seq(e, mover).unwrap()).len(),
    ensures
        action_result(e, mover, strategic_only(legal_action_seq(e, mover).unwrap())[k]) is Ok,
{
    let all = legal_action_seq(e, mover).unwrap();
    let chosen = strategic_only(all)[k];
    assert(strategic_only(all).contains(chosen));
    all.lemma_filter_contains_rev(|action: Action| !(action is ConcedeHand), chosen);
    let j = choose|j: int| 0 <= j < all.len() && all[j] == chosen;
    crate::invariants::lemma_legal_actions_apply(e, mover, j);
}

/// The player to move in a live well-formed hand has a list of legal actions.
proof fn lemma_mover_has_actions(e: EngineView)
    requires
        engine_ok(e),
        e.hand_winner is None,
    ensures
        e.state.next_player is Some,
        legal_action_seq(e, e.state.next_player.unwrap()) is Ok,
{
}

/// The minimax value of a well-formed hand always exists: evaluating it never fails.
pub proof fn lemma_minimax_ok(e: EngineView, player: Player)
    requires
        engine_ok(e),
    ensures
        minimax_value(e, player) is Ok,
    decreases hand_measure(e.state), 1int, 0int,
{
    if e.hand_winner is None {
        lemma_mover_has_actions(e);
        lemma_hand_measure_bounds(e);
        let mover = e.state.next_player.unwrap();
        let all = legal_action_seq(e, mover).unwrap();
        lemma_best_reply_ok(
            e,
            mover,
            player,
            0,
            if mover == player {
                i32::MIN as int
            } else {
                i32::MAX as int
            },
        );
    }
}

/// Folding the values of the mover's strategic actions never fails on a well-formed hand.
proof fn lemma_best_reply_ok(e: EngineView, mover: Player, player: Player, i: nat, best: int)
    requires
        engine_ok(e),
        e.hand_winner is None,
        legal_action_seq(e, mover) is Ok,
    ensures
        best_reply(e, mover, player, strategic_only(legal_action_seq(e, mover).unwrap()), i, best) is Ok,
    decreases hand_measure(e.state), 0int, strategic_only(legal_action_seq(e, mover).unwrap()).len() - i,
{
    let actions = strategic_only(legal_action_seq(e, mover).unwrap());
    lemma_hand_measure_bounds(e);
    if i < actions.len() {
        lemma_strategic_actions_apply(e, mover, i as int);
        let next = action_result(e, mover, actions[i as int]).unwrap();
        lemma_action_keeps_engine_ok(e, mover, actions[i as int]);
        lemma_action_makes_progress(e, mover, actions[i as int]);
        if next.hand_winner is None {
            lemma_hand_measure_bounds(next);
            lemma_minimax_ok(next, player);
        }
        let v = if next.hand_winner is Some {
            settled_points(next, player)
        } else {
            minimax_value(next, player).unwrap()
        };
        lemma_best_reply_ok(
            e,
            mover,
            player,
            i + 1,
            if mover == player {
                if v > best {
                    v
                } else {
                    best
                }
            } else {
                if v < best {
                    v
                } else {
                    best
                }
            },
        );
    }
}

/// In a match whose hand is well formed, every action that hand accepts has a value.
pub proof fn lemma_root_values_ok(m: crate::game_match::MatchView, player: Player, actions: Seq<Action>)
    requires
        m.current_hand matches Some(h) && engine_ok(h) && forall|k: int|
            0 <= k < actions.len() ==> #[trigger] action_result(h, player, actions[k]) is Ok,
    ensures
        root_values(m, player, actions) matches Ok(vals) && vals.len() == actions.len(),
    decreases actions.len(),
{
    if actions.len() > 0 {
        let h = m.current_hand.unwrap();
        assert forall|k: int| 0 <= k < actions.drop_last().len() implies #[trigger] action_result(
            h,
            player,
            actions.drop_last()[k],
        ) is Ok by {
            assert(actions.drop_last()[k] == actions[k]);
        }
        lemma_root_values_ok(m, player, actions.drop_last());
        let last = actions[actions.len() - 1];
        assert(action_result(h, player, last) is Ok);
        lemma_action_keeps_engine_ok(h, player, last);
        lemma_minimax_ok(action_result(h, player, last).unwrap(), player);
    }
}

/// Evaluating a list of determinizations that all succeed gives one list of values each.
proof fn lemma_all_values_len(
    rec: crate::game_match::MatchRecord,
    actor: Player,
    actions: Seq<Action>,
    ds: Seq<(Seq<CardFace>, Seq<CardFace>)>,
)
    requires
        all_values(rec, actor, actions, ds) is Ok,
    ensures
        all_values(rec, actor, actions, ds).unwrap().len() == ds.len(),
    decreases ds.len(),
{
    if ds.len() > 0 {
        lemma_all_values_len(rec, actor, actions, ds.drop_last());
    }
}

/// Sampling draws one determinization per list of draws.
proof fn lemma_samples_len(
    pool: Seq<CardFace>,
    draws: Seq<Seq<int>>,
    hidden: nat,
    hand: nat,
    turnup: Turnup,
)
    ensures
        samples_from(pool, draws, hidden, hand, turnup).0.len() == draws.len(),
    decreases draws.len(),
{
    if draws.len() > 0 {
        lemma_samples_len(pool, draws.drop_last(), hidden, hand, turnup);
    }
}

/// When the determinizations exceed the budget, a sampled analysis that succeeds
/// summarises every strategic action over exactly `max_samples` determinizations and
/// marks none of them a forced win.
pub proof fn lemma_sampled_analysis_shape(
    game: crate::game_match::MatchView,
    player: Player,
    max_samples: usize,
    r: Result<TacticalTurnAnalysis, BotAnalysisError>,
)
    requires
        sampled_analysis(game, player, max_samples, r),
        r is Ok,
        game.current_hand matches Some(h) && max_samples > 0 && determinization_count(
            unseen_faces(h.state, player).len(),
            hidden_slots(h.state, player).len(),
            h.state.hand(opponent_of(player)).len(),
        ) > max_samples,
    ensures
        game.current_hand matches Some(h) && legal_action_seq(h, player) matches Ok(all)
            && r.unwrap().action_summaries@.len() == strategic_only(all).len(),
        forall|k: int|
            0 <= k < r.unwrap().action_summaries@.len() ==> (#[trigger] r.unwrap().action_summaries@[k]).total_determinizations
                == max_samples && !r.unwrap().action_summaries@[k].force_hand_win,
{
    let h = game.current_hand.unwrap();
    let s = h.state;
    let rec = crate::game_match::view_record(game);
    let actions = strategic_only(legal_action_seq(h, player).unwrap());
    let available = unseen_faces(s, player);
    let hidden = hidden_slots(s, player).len();
    let hand = s.hand(opponent_of(player)).len();
    let draws = choose|draws: Seq<Seq<int>>|
        #![trigger samples_from(available, draws, hidden, hand, s.turnup)]
        draws.len() == (if available.len() < hidden + hand {
            0
        } else {
            max_samples as int
        }) && draws_valid(draws, hidden + hand, available.len()) && {
            let ds = samples_from(available, draws, hidden, hand, s.turnup).0;
            match all_values(rec, player, actions, ds) {
                Ok(vals) => finalized(player, actions, vals, true, r),
                Err(_) => match r {
                    Err(e) => exists|i: int|
                        0 <= i < ds.len() && #[trigger] determinization_values(
                            rec,
                            player,
                            actions,
                            ds[i],
                        ) == Err::<Seq<int>, BotAnalysisError>(e),
                    Ok(_) => false,
                },
            }
        };
    let ds = samples_from(available, draws, hidden, hand, s.turnup).0;
    lemma_samples_len(available, draws, hidden, hand, s.turnup);
    lemma_all_values_len(rec, player, actions, ds);
    let vals = all_values(rec, player, actions, ds).unwrap();
    assert(vals.len() == max_samples);
}

/// A determinization has values for the actions whenever its hand restores to a match
/// whose hand accepts each of them: evaluating a valid hand never fails.
pub proof fn lemma_determinization_values_ok(
    rec: crate::game_match::MatchRecord,
    actor: Player,
    actions: Seq<Action>,
    d: (Seq<CardFace>, Seq<CardFace>),
)
    requires
        rec.3 matches Some(h) && crate::game_match::record_restored(
            rec.0,
            rec.1,
            rec.2,
            Some((determinized(h.0, actor, d.0, d.1), h.1, h.2)),
        ) matches Ok(m) && m.current_hand matches Some(dh) && forall|k: int|
            0 <= k < actions.len() ==> #[trigger] action_result(dh, actor, actions[k]) is Ok,
    ensures
        determinization_values(rec, actor, actions, d) matches Ok(vals) && vals.len() == actions.len(),
{
    let h = rec.3.unwrap();
    let ds = determinized(h.0, actor, d.0, d.1);
    crate::invariants::lemma_restored_ok(ds, h.1, h.2);
    let m = crate::game_match::record_restored(rec.0, rec.1, rec.2, Some((ds, h.1, h.2))).unwrap();
    lemma_root_values_ok(m, actor, actions);
}

/// The value to `player` of the hand after a move: its points once it is over, else its
/// minimax value.
pub open spec fn reply_value(next: EngineView, player: Player) -> Result<int, BotAnalysisError> {
    if next.hand_winner is Some {
        Ok(settled_points(next, player))
    } else {
        minimax_value(next, player)
    }
}

/// The reply to the `i`-th strategic action of the mover exists, and the fold from `i`
/// steps to the fold from `i + 1` with the preferred of `best` and that reply.
proof fn lemma_best_reply_step(e: EngineView, mover: Player, player: Player, i: nat, best: int)
    requires
        engine_ok(e),
        e.hand_winner is None,
        legal_action_seq(e, mover) is Ok,
        i < strategic_only(legal_action_seq(e, mover).unwrap()).len(),
    ensures
        ({
            let actions = strategic_only(legal_action_seq(e, mover).unwrap());
            let next = action_result(e, mover, actions[i as int]).unwrap();
            let v = reply_value(next, player).unwrap();
            &&& action_result(e, mover, actions[i as int]) is Ok
            &&& reply_value(next, player) is Ok
            &&& best_reply(e, mover, player, actions, i, best) == best_reply(
                e,
                mover,
                player,
                actions,
                i + 1,
                if mover == player {
                    if v > best {
                        v
                    } else {
                        best
                    }
                } else {
                    if v < best {
                        v
                    } else {
                        best
                    }
                },
            )
        }),
{
    let actions = strategic_only(legal_action_seq(e, mover).unwrap());
    lemma_strategic_actions_apply(e, mover, i as int);
    let next = action_result(e, mover, actions[i as int]).unwrap();
    lemma_action_keeps_engine_ok(e, mover, actions[i as int]);
    lemma_action_makes_progress(e, mover, actions[i as int]);
    lemma_hand_measure_bounds(e);
    if next.hand_winner is None {
        lemma_hand_measure_bounds(next);
        lemma_minimax_ok(next, player);
    }
}

/// The fold of the mover's replies from the `i`-th on ends no worse for the mover's side
/// than `best` and than each of those replies: for the analysed player no lower, for the
/// opponent no higher.
proof fn lemma_best_reply_bounds(e: EngineView, mover: Player, player: Player, i: nat, best: int, k: int)
    requires
        engine_ok(e),
        e.hand_winner is None,
        legal_action_seq(e, mover) is Ok,
        i <= k < strategic_only(legal_action_seq(e, mover).unwrap()).len(),
    ensures
        ({
            let actions = strategic_only(legal_action_seq(e, mover).unwrap());
            let r = best_reply(e, mover, player, actions, i, best).unwrap();
            let next = action_result(e, mover, actions[k]).unwrap();
            &&& best_reply(e, mover, player, actions, i, best) is Ok
            &&& action_result(e, mover, actions[k]) is Ok
            &&& reply_value(next, player) is Ok
            &&& mover == player ==> r >= best && r >= reply_value(next, player).unwrap()
            &&& mover != player ==> r <= best && r <= reply_value(next, player).unwrap()
        }),
    decreases strategic_only(legal_action_seq(e, mover).unwrap()).len() - i,
{
    let actions = strategic_only(legal_action_seq(e, mover).unwrap());
    lemma_best_reply_step(e, mover, player, i, best);
    lemma_best_reply_ok(e, mover, player, i, best);
    let next = action_result(e, mover, actions[i as int]).unwrap();
    let v = reply_value(next, player).unwrap();
    let best2 = if mover == player {
        if v > best {
            v
        } else {
            best
        }
    } else {
        if v < best {
            v
        } else {
            best
        }
    };
    if k > i {
        lemma_best_reply_bounds(e, mover, player, i + 1, best2, k);
    } else if i + 1 < actions.len() {
        lemma_best_reply_bounds(e, mover, player, i + 1, best2, i as int + 1);
    } else {
        assert(best_reply(e, mover, player, actions, i + 1, best2) == Ok::<int, BotAnalysisError>(best2));
    }
}

/// Minimax: in a live well-formed hand, the value to `player` is at least the value
/// after each of `player`'s own strategic actions, and at most the value after each of
/// the opponent's: the opponent is assumed to answer with the reply worst for `player`.
pub proof fn lemma_minimax_laws(e: EngineView, player: Player, k: int)
    requires
        engine_ok(e),
        e.hand_winner is None,
        e.state.next_player matches Some(mover) && legal_action_seq(e, mover) matches Ok(all) && 0
            <= k < strategic_only(all).len(),
    ensures
        ({
            let mover = e.state.next_player.unwrap();
            let action = strategic_only(legal_action_seq(e, mover).unwrap())[k];
            let next = action_result(e, mover, action).unwrap();
            &&& action_result(e, mover, action) is Ok
            &&& minimax_value(e, player) is Ok
            &&& reply_value(next, player) is Ok
            &&& mover == player ==> minimax_value(e, player).unwrap() >= reply_value(next, player).unwrap()
            &&& mover != player ==> minimax_value(e, player).unwrap() <= reply_value(next, player).unwrap()
        }),
{
    let mover = e.state.next_player.unwrap();
    let actions = strategic_only(legal_action_seq(e, mover).unwrap());
    lemma_minimax_ok(e, player);
    lemma_best_reply_bounds(
        e,
        mover,
        player,
        0,
        if mover == player {
            i32::MIN as int
        } else {
            i32::MAX as int
        },
        k,
    );
}

/// A finished hand is worth its value to its winner and as much against to the loser:
/// positive for the winner, negative for the loser, and opposite for the two players.
pub proof fn lemma_settled_points_sign(e: EngineView, player: Player)
    requires
        engine_ok(e),
        e.hand_winner is Some,
        crate::state::is_player_id(player),
    ensures
        e.hand_winner == Some(player) ==> settled_points(e, player) > 0,
        e.hand_winner != Some(player) ==> settled_points(e, player) < 0,
        settled_points(e, player) == -settled_points(e, opponent_of(player)),
{
    assert(crate::validation::normalized(e.state).hand_value == e.state.hand_value);
}

} // verus!
