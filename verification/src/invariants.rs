//! Proofs that every action keeps an engine well formed.
use vstd::prelude::*;

use crate::actions::Action;
use crate::cards::Card;
use crate::engine::{
    card_actions, hiding_allowed, legal_action_seq, raise_open, restored, accept_eleven_result, accept_raise_result, action_result, concede_result, engine_ok,
    fold_eleven_result, fold_result, hand_over, play_result, raise_result, round_resolved,
    turn_error, EngineView,
};
use crate::rules::{
    round_winner, eleven_decider, eleven_hand, hand_winner_of, ladder_next, match_winner_of, next_round_leader,
    on_ladder, opening_leader,
};
use crate::engine::with_hand;
use crate::state::{
    awarded, is_player_id, opponent_of, PlayedCard, Player, RoundView, StateView, Visibility,
};
use crate::validation::{
    card_counts_ok, card_face, card_id, faces_distinct, id_position, lemma_id_position_some,
    leader_chain_ok, plays_by, round_history_ok, finished_ok, ids_distinct, lemma_strip_unchanged,
    live_result, normalized, normalized_raiser, physical_cards, play_cards, rounds_cards,
    shared_ok,
};
use crate::error::EngineError;
use crate::fixtures::{holds_action, same_action};
use crate::MATCH_TARGET;

verus! {

/// The checks shared by live and finished states only look at the cards, the rounds
/// and a few bounds, so they survive changes elsewhere.
proof fn lemma_shared_frame(s: StateView, t: StateView)
    requires
        shared_ok(s),
        t.dealer == s.dealer,
        t.turnup == s.turnup,
        t.hand_zero == s.hand_zero,
        t.hand_one == s.hand_one,
        t.completed_rounds == s.completed_rounds,
        t.current_leader == s.current_leader,
        t.current_plays == s.current_plays,
        on_ladder(t.hand_value),
        t.score.zero <= MATCH_TARGET,
        t.score.one <= MATCH_TARGET,
        t.next_player matches Some(p) ==> is_player_id(p),
        t.last_raised_by matches Some(p) ==> is_player_id(p),
        !(t.pending_decision is Some && t.pending_raise is Some),
    ensures
        shared_ok(t),
{
    assert(physical_cards(t) == physical_cards(s));
    assert(forall|player: Player| #[trigger] t.hand(player) == s.hand(player));
}

/// A state whose cards keep distinct ids keeps its hands under normalization, and
/// `last_raised_by` normalizes as `normalized_raiser` says.
proof fn lemma_normalized_shape(t: StateView)
    requires
        ids_distinct(t),
    ensures
        normalized(t) == (StateView { last_raised_by: normalized_raiser(t), ..t }),
{
    lemma_strip_unchanged(t);
    assert(normalized(t) =~= (StateView { last_raised_by: normalized_raiser(t), ..t }));
}

proof fn lemma_awarded_capped(score: crate::state::Score, player: Player, points: u8)
    requires
        score.zero <= MATCH_TARGET,
        score.one <= MATCH_TARGET,
    ensures
        awarded(score, player, points).zero <= MATCH_TARGET,
        awarded(score, player, points).one <= MATCH_TARGET,
{
}

/// Ending a live hand without touching its cards or rounds leaves a valid finished hand.
proof fn lemma_hand_over_ok(e: EngineView, cleared: EngineView, winner: Player, points: u8)
    requires
        engine_ok(e),
        e.hand_winner is None,
        is_player_id(winner),
        cleared.first_round_leader == e.first_round_leader,
        cleared.state == (StateView {
            pending_raise: cleared.state.pending_raise,
            pending_decision: cleared.state.pending_decision,
            ..e.state
        }),
        hand_winner_of(e.state.completed_rounds, e.first_round_leader) is None,
    ensures
        engine_ok(hand_over(cleared, winner, points)),
{
    let s = e.state;
    let v = hand_over(cleared, winner, points);
    let t = v.state;
    lemma_awarded_capped(s.score, winner, points);
    lemma_shared_frame(s, t);
    let n = normalized(t);
    lemma_normalized_shape(t);
    lemma_shared_frame(t, n);
}

} // verus!

verus! {

/// A live engine whose new state keeps the cards, rounds and plays of the old one, and
/// which passes the live checks, is well formed.
proof fn lemma_live_frame(e: EngineView, v: EngineView)
    requires
        engine_ok(e),
        e.hand_winner is None,
        v.hand_winner is None,
        v.match_winner is None,
        v.first_round_leader == e.first_round_leader,
        v.state.dealer == e.state.dealer,
        v.state.turnup == e.state.turnup,
        v.state.hand_zero == e.state.hand_zero,
        v.state.hand_one == e.state.hand_one,
        v.state.completed_rounds == e.state.completed_rounds,
        v.state.current_leader == e.state.current_leader,
        v.state.current_plays == e.state.current_plays,
        v.state.score == e.state.score,
        shared_ok(v.state) ==> live_result(v.state) is Ok,
        on_ladder(v.state.hand_value),
        v.state.next_player matches Some(p) ==> is_player_id(p),
        v.state.last_raised_by matches Some(p) ==> is_player_id(p),
        !(v.state.pending_decision is Some && v.state.pending_raise is Some),
        normalized_raiser(v.state) == v.state.last_raised_by,
    ensures
        engine_ok(v),
{
    lemma_shared_frame(e.state, v.state);
    lemma_normalized_shape(v.state);
    assert(normalized(v.state) =~= v.state);
}

proof fn lemma_raise_ok(e: EngineView, player: Player, to: u8)
    requires
        engine_ok(e),
        turn_error(e, player) is None,
        raise_result(e, player, to) is Ok,
    ensures
        engine_ok(raise_result(e, player, to).unwrap()),
{
    let v = raise_result(e, player, to).unwrap();
    lemma_live_frame(e, v);
}

proof fn lemma_accept_raise_ok(e: EngineView, player: Player)
    requires
        engine_ok(e),
        turn_error(e, player) is None,
        accept_raise_result(e) is Ok,
    ensures
        engine_ok(accept_raise_result(e).unwrap()),
{
    let v = accept_raise_result(e).unwrap();
    lemma_live_frame(e, v);
}

proof fn lemma_accept_eleven_ok(e: EngineView, player: Player)
    requires
        engine_ok(e),
        turn_error(e, player) is None,
        accept_eleven_result(e) is Ok,
    ensures
        engine_ok(accept_eleven_result(e).unwrap()),
{
    let v = accept_eleven_result(e).unwrap();
    lemma_live_frame(e, v);
}

proof fn lemma_fold_ok(e: EngineView, player: Player)
    requires
        engine_ok(e),
        turn_error(e, player) is None,
        fold_result(e) is Ok,
    ensures
        engine_ok(fold_result(e).unwrap()),
{
    let raise = e.state.pending_raise.unwrap();
    let cleared = EngineView { state: StateView { pending_raise: None, ..e.state }, ..e };
    lemma_hand_over_ok(e, cleared, raise.raised_by, raise.previous_value);
}

proof fn lemma_fold_eleven_ok(e: EngineView, player: Player)
    requires
        engine_ok(e),
        turn_error(e, player) is None,
        fold_eleven_result(e) is Ok,
    ensures
        engine_ok(fold_eleven_result(e).unwrap()),
{
    let decision = e.state.pending_decision.unwrap();
    let cleared = EngineView { state: StateView { pending_decision: None, ..e.state }, ..e };
    lemma_hand_over_ok(e, cleared, opponent_of(decision.player), 1);
}

proof fn lemma_concede_ok(e: EngineView, player: Player)
    requires
        engine_ok(e),
        turn_error(e, player) is None,
    ensures
        engine_ok(concede_result(e, player).unwrap()),
{
    lemma_hand_over_ok(e, e, opponent_of(player), crate::engine::concession_value(e.state));
}

} // verus!

verus! {

/// Moving one element of a duplicate-free sequence to its end keeps it duplicate free.
proof fn lemma_move_to_end<K>(a: Seq<K>, x: K, r: Seq<K>)
    requires
        (a + seq![x] + r).no_duplicates(),
    ensures
        (a + r + seq![x]).no_duplicates(),
{
    let old_seq = a + seq![x] + r;
    let new_seq = a + r + seq![x];
    let la = a.len() as int;
    let lr = r.len() as int;
    assert forall|k: int| 0 <= k < new_seq.len() implies #[trigger] new_seq[k] == old_seq[
        if k < la {
            k
        } else if k < la + lr {
            k + 1
        } else {
            la
        }
    ] by {}
    assert forall|i: int, j: int|
        0 <= i < new_seq.len() && 0 <= j < new_seq.len() && i != j implies new_seq[i]
        != new_seq[j] by {
        let oi = if i < la {
            i
        } else if i < la + lr {
            i + 1
        } else {
            la
        };
        let oj = if j < la {
            j
        } else if j < la + lr {
            j + 1
        } else {
            la
        };
        assert(new_seq[i] == old_seq[oi]);
        assert(new_seq[j] == old_seq[oj]);
    }
}

/// Moving one card to the end of the card sequence keeps its images distinct.
proof fn lemma_move_card_to_end<K>(
    pre: Seq<K>,
    a: Seq<Card>,
    x: Card,
    r: Seq<Card>,
    f: spec_fn(Card) -> K,
)
    requires
        (pre + (a + seq![x] + r).map_values(f)).no_duplicates(),
    ensures
        (pre + (a + r + seq![x]).map_values(f)).no_duplicates(),
{
    let big_a = pre + a.map_values(f);
    let big_r = r.map_values(f);
    assert(pre + (a + seq![x] + r).map_values(f) =~= big_a + seq![f(x)] + big_r);
    assert(pre + (a + r + seq![x]).map_values(f) =~= big_a + big_r + seq![f(x)]);
    lemma_move_to_end(big_a, f(x), big_r);
}

} // verus!

verus! {

/// The state after `player` plays the `i`-th card of their hand, before the round is compared.
pub open spec fn played_state(s: StateView, player: Player, i: int, visibility: Visibility) -> StateView {
    StateView {
        current_plays: s.current_plays.push(
            PlayedCard { player, visibility, card: s.hand(player)[i] },
        ),
        ..with_hand(s, player, s.hand(player).remove(i))
    }
}

/// Playing a card moves it from a hand to the plays, so cards stay distinct.
proof fn lemma_play_keeps_distinct(s: StateView, player: Player, i: int, visibility: Visibility)
    requires
        faces_distinct(s),
        ids_distinct(s),
        is_player_id(player),
        0 <= i < s.hand(player).len(),
    ensures
        faces_distinct(played_state(s, player, i, visibility)),
        ids_distinct(played_state(s, player, i, visibility)),
{
    let t = played_state(s, player, i, visibility);
    let h = s.hand(player);
    let x = h[i];
    let rc = rounds_cards(s.completed_rounds);
    let pc = play_cards(s.current_plays);
    assert(play_cards(t.current_plays) =~= pc + seq![x]);
    let (a, r) = if player == 0 {
        (h.subrange(0, i), h.subrange(i + 1, h.len() as int) + s.hand_one + rc + pc)
    } else {
        (s.hand_zero + h.subrange(0, i), h.subrange(i + 1, h.len() as int) + rc + pc)
    };
    assert(physical_cards(s) =~= a + seq![x] + r);
    assert(physical_cards(t) =~= a + r + seq![x]);
    let face_pre = seq![(s.turnup.rank, s.turnup.suit)];
    lemma_move_card_to_end(face_pre, a, x, r, |card: Card| card_face(card));
    let id_pre = Seq::<Seq<char>>::empty();
    assert(id_pre + physical_cards(s).map_values(|card: Card| card_id(card)) =~= physical_cards(
        s,
    ).map_values(|card: Card| card_id(card)));
    assert(id_pre + physical_cards(t).map_values(|card: Card| card_id(card)) =~= physical_cards(
        t,
    ).map_values(|card: Card| card_id(card)));
    lemma_move_card_to_end(id_pre, a, x, r, |card: Card| card_id(card));
}

} // verus!

verus! {

proof fn lemma_plays_by_push(plays: Seq<PlayedCard>, play: PlayedCard, player: Player)
    ensures
        plays_by(plays.push(play), player) == plays_by(plays, player) + if play.player == player {
            1nat
        } else {
            0nat
        },
{
    assert(plays.push(play).drop_last() =~= plays);
}

proof fn lemma_rounds_cards_push(rounds: Seq<RoundView>, round: RoundView)
    ensures
        rounds_cards(rounds.push(round)) == rounds_cards(rounds) + play_cards(round.plays),
{
    assert(rounds.push(round).drop_last() =~= rounds);
}

/// Playing the first card of a round keeps a live engine well formed.
proof fn lemma_play_opens_round(e: EngineView, player: Player, card_id: Seq<char>, visibility: Visibility)
    requires
        engine_ok(e),
        turn_error(e, player) is None,
        play_result(e, player, card_id, visibility) is Ok,
        e.state.current_plays.len() == 0,
    ensures
        engine_ok(play_result(e, player, card_id, visibility).unwrap()),
{
    let s = e.state;
    let h = s.hand(player);
    lemma_id_position_some(h, card_id);
    let i = id_position(h, card_id).unwrap();
    let t = played_state(s, player, i, visibility);
    let v = play_result(e, player, card_id, visibility).unwrap();
    assert(v.state == StateView { next_player: Some(opponent_of(player)), ..t });
    lemma_play_keeps_distinct(s, player, i, visibility);
    let u = v.state;
    assert(physical_cards(u) == physical_cards(t));
    lemma_plays_by_push(s.current_plays, u.current_plays[0], 0);
    lemma_plays_by_push(s.current_plays, u.current_plays[0], 1);
    assert(u.current_plays =~= s.current_plays.push(u.current_plays[0]));
    assert(card_counts_ok(s));
    assert(s.hand(0u8).len() + s.completed_rounds.len() + plays_by(s.current_plays, 0) == 3);
    assert(s.hand(1u8).len() + s.completed_rounds.len() + plays_by(s.current_plays, 1) == 3);
    assert(plays_by(s.current_plays, 0) == 0);
    assert(u.current_plays[0].player == player);
    if player == 0 {
        assert(u.hand(0u8).len() + 1 == s.hand(0u8).len());
        assert(u.hand(1u8) == s.hand(1u8));
    } else {
        assert(u.hand(1u8).len() + 1 == s.hand(1u8).len());
        assert(u.hand(0u8) == s.hand(0u8));
    }
    assert(u.hand(0u8).len() + u.completed_rounds.len() + plays_by(u.current_plays, 0) == 3);
    assert(u.hand(1u8).len() + u.completed_rounds.len() + plays_by(u.current_plays, 1) == 3);
    assert(card_counts_ok(u));
    assert(forall|player: Player| #[trigger] u.hand(player) == t.hand(player));
    assert(shared_ok(u));
    assert(live_result(u) is Ok);
    lemma_normalized_shape(u);
    assert(normalized(u) =~= u);
}

} // verus!

verus! {

/// Playing the second card of a round and comparing the round keeps the engine well
/// formed, whether or not the hand is then decided.
#[verifier::spinoff_prover]
#[verifier::rlimit(30)]
proof fn lemma_play_closes_round(
    e: EngineView,
    player: Player,
    card_id: Seq<char>,
    visibility: Visibility,
)
    requires
        engine_ok(e),
        turn_error(e, player) is None,
        play_result(e, player, card_id, visibility) is Ok,
        e.state.current_plays.len() != 0,
    ensures
        engine_ok(play_result(e, player, card_id, visibility).unwrap()),
{
    let s = e.state;
    let h = s.hand(player);
    lemma_id_position_some(h, card_id);
    let i = id_position(h, card_id).unwrap();
    let t = played_state(s, player, i, visibility);
    assert(s.current_plays.len() == 1);
    let first = s.current_plays[0];
    let played = t.current_plays[1];
    assert(played.player == player);
    assert(t.current_plays[0] == first);
    assert(is_player_id(player));
    assert(first.player == s.current_leader);
    assert(player == opponent_of(first.player));
    let v = play_result(e, player, card_id, visibility).unwrap();
    assert(v == round_resolved(EngineView { state: t, ..e }));
    lemma_play_keeps_distinct(s, player, i, visibility);
    // the round that is recorded
    let winner = round_winner(s.turnup, first, played);
    let round = RoundView { leader: s.current_leader, winner, plays: t.current_plays };
    let rounds = s.completed_rounds.push(round);
    let leader = match winner {
        Some(w) => w,
        None => s.current_leader,
    };
    let s2 = StateView {
        completed_rounds: rounds,
        current_plays: Seq::empty(),
        current_leader: leader,
        next_player: Some(leader),
        ..t
    };
    // cards are where they were, now inside the recorded round
    lemma_rounds_cards_push(s.completed_rounds, round);
    assert(play_cards(Seq::<PlayedCard>::empty()) =~= Seq::<crate::cards::Card>::empty());
    assert(physical_cards(s2) =~= physical_cards(t));
    // counts: each player gave one card to the round
    assert(card_counts_ok(s));
    assert(s.hand(0u8).len() + s.completed_rounds.len() + plays_by(s.current_plays, 0) == 3);
    assert(s.hand(1u8).len() + s.completed_rounds.len() + plays_by(s.current_plays, 1) == 3);
    assert(s.current_plays =~= Seq::<PlayedCard>::empty().push(first));
    lemma_plays_by_push(Seq::<PlayedCard>::empty(), first, 0);
    lemma_plays_by_push(Seq::<PlayedCard>::empty(), first, 1);
    if player == 0 {
        assert(t.hand(0u8).len() + 1 == s.hand(0u8).len());
        assert(t.hand(1u8) == s.hand(1u8));
    } else {
        assert(t.hand(1u8).len() + 1 == s.hand(1u8).len());
        assert(t.hand(0u8) == s.hand(0u8));
    }
    assert(s2.hand(0u8) == t.hand(0u8));
    assert(s2.hand(1u8) == t.hand(1u8));
    assert(s2.hand(0u8).len() + s2.completed_rounds.len() + plays_by(s2.current_plays, 0) == 3);
    assert(s2.hand(1u8).len() + s2.completed_rounds.len() + plays_by(s2.current_plays, 1) == 3);
    assert(card_counts_ok(s2));
    // the recorded round is a valid history entry and continues the leader chain
    assert(round_history_ok(round, s2));
    assert forall|k: int|
        #![trigger s2.completed_rounds[k]]
        0 <= k < s2.completed_rounds.len() implies {
        &&& is_player_id(s2.completed_rounds[k].leader)
        &&& (s2.completed_rounds[k].winner matches Some(w) ==> is_player_id(w))
        &&& round_history_ok(s2.completed_rounds[k], s2)
    } by {
        if k < s.completed_rounds.len() {
            assert(s2.completed_rounds[k] == s.completed_rounds[k]);
            assert(round_history_ok(s.completed_rounds[k], s));
        }
    }
    assert forall|k: int|
        #![trigger s2.completed_rounds[k + 1]]
        0 <= k && k + 1 < s2.completed_rounds.len() implies s2.completed_rounds[k + 1].leader
        == match s2.completed_rounds[k].winner {
        Some(w) => w,
        None => s2.completed_rounds[k].leader,
    } by {
        if k + 1 < s.completed_rounds.len() {
            assert(s2.completed_rounds[k + 1] == s.completed_rounds[k + 1]);
            assert(s2.completed_rounds[k] == s.completed_rounds[k]);
        } else {
            assert(s2.completed_rounds[k] == s.completed_rounds.last());
        }
    }
    assert(leader_chain_ok(s2));
    assert(forall|p: Player| #[trigger] s2.hand(p) == t.hand(p));
    assert(shared_ok(s2));
    // the first leader is unchanged
    assert(opening_leader(s2.dealer, rounds) == e.first_round_leader);
    match hand_winner_of(rounds, e.first_round_leader) {
        Some(w) => {
            assert(v == hand_over(EngineView { state: StateView { next_player: s.next_player, ..s2 }, ..e }, w, s.hand_value));
            crate::engine::lemma_hand_winner_is_player_for(rounds, e.first_round_leader);
            let done = v.state;
            lemma_awarded_capped(s.score, w, s.hand_value);
            lemma_shared_frame(s2, done);
            lemma_normalized_shape(done);
            lemma_shared_frame(done, normalized(done));
        },
        None => {
            assert(v.state == s2);
            assert(live_result(s2) is Ok);
            lemma_normalized_shape(s2);
            assert(normalized(s2) =~= s2);
        },
    }
}

} // verus!

verus! {

/// Every action that the rules accept keeps a well-formed engine well formed; in
/// particular every reachable state passes validation.
pub proof fn lemma_action_keeps_engine_ok(e: EngineView, player: Player, action: Action)
    requires
        engine_ok(e),
        action_result(e, player, action) is Ok,
    ensures
        engine_ok(action_result(e, player, action).unwrap()),
{
    match action {
        Action::PlayFaceUp { card_id } => {
            if e.state.current_plays.len() == 0 {
                lemma_play_opens_round(e, player, card_id@, Visibility::Up);
            } else {
                lemma_play_closes_round(e, player, card_id@, Visibility::Up);
            }
        },
        Action::PlayFaceDown { card_id } => {
            if e.state.current_plays.len() == 0 {
                lemma_play_opens_round(e, player, card_id@, Visibility::Down);
            } else {
                lemma_play_closes_round(e, player, card_id@, Visibility::Down);
            }
        },
        Action::Raise { to } => lemma_raise_ok(e, player, to),
        Action::AcceptRaise => lemma_accept_raise_ok(e, player),
        Action::Fold => lemma_fold_ok(e, player),
        Action::AcceptEleven => lemma_accept_eleven_ok(e, player),
        Action::FoldEleven => lemma_fold_eleven_ok(e, player),
        Action::ConcedeHand => lemma_concede_ok(e, player),
    }
}

} // verus!

verus! {

/// Exporting a well-formed engine and restoring it always succeeds and yields the
/// same engine over the normalized state, which differs from the engine's own state at
/// most in `last_raised_by`; a live hand's state is already normalized.
pub proof fn lemma_export_restore_round_trip(e: EngineView)
    requires
        engine_ok(e),
    ensures
        restored(e.state, e.hand_winner, e.match_winner) == Ok::<EngineView, EngineError>(
            EngineView { state: normalized(e.state), ..e },
        ),
        e.hand_winner is None ==> normalized(e.state) == e.state,
        normalized(e.state) == (StateView { last_raised_by: normalized_raiser(e.state), ..e.state }),
        engine_ok(EngineView { state: normalized(e.state), ..e }),
{
    let n = normalized(e.state);
    if e.hand_winner is Some {
        crate::engine::lemma_normalized_is_fixed(n);
        lemma_normalized_shape(e.state);
    }
}

/// A finished well-formed hand is already in normal form apart from `last_raised_by`:
/// normalizing removes no card from its hands.
pub proof fn lemma_finished_state_normal_form(e: EngineView)
    requires
        engine_ok(e),
        e.hand_winner is Some,
    ensures
        normalized(e.state) == (StateView { last_raised_by: normalized_raiser(e.state), ..e.state }),
        normalized(e.state).hand_zero == e.state.hand_zero,
        normalized(e.state).hand_one == e.state.hand_one,
{
    lemma_normalized_shape(e.state);
}

/// Whatever restoring accepts is a well-formed engine.
pub proof fn lemma_restored_ok(s: StateView, hand_winner: Option<Player>, match_winner: Option<Player>)
    requires
        restored(s, hand_winner, match_winner) is Ok,
    ensures
        engine_ok(restored(s, hand_winner, match_winner).unwrap()),
{
    crate::engine::lemma_normalized_is_fixed(normalized(s));
}

/// Restoring is idempotent: restoring the restored state gives the same engine.
pub proof fn lemma_restore_idempotent(
    s: StateView,
    hand_winner: Option<Player>,
    match_winner: Option<Player>,
)
    requires
        restored(s, hand_winner, match_winner) is Ok,
    ensures
        restored(restored(s, hand_winner, match_winner).unwrap().state, hand_winner, match_winner)
            == restored(s, hand_winner, match_winner),
{
    let n = normalized(s);
    crate::engine::lemma_normalized_is_fixed(n);
}

/// Every action of `card_actions(hand, hidden)` plays a card of `hand`, face down only
/// when hiding is allowed.
proof fn lemma_card_actions_member(hand: Seq<Card>, hidden: bool, k: int)
    requires
        0 <= k < card_actions(hand, hidden).len(),
    ensures
        exists|j: int|
            0 <= j < hand.len() && (card_actions(hand, hidden)[k] == Action::PlayFaceUp {
                card_id: (#[trigger] hand[j]).id,
            } || (hidden && card_actions(hand, hidden)[k] == Action::PlayFaceDown {
                card_id: hand[j].id,
            })),
    decreases hand.len(),
{
    if hand.len() > 0 {
        let before = card_actions(hand.drop_last(), hidden);
        if k < before.len() {
            lemma_card_actions_member(hand.drop_last(), hidden, k);
            let j = choose|j: int|
                0 <= j < hand.drop_last().len() && (before[k] == Action::PlayFaceUp {
                    card_id: (#[trigger] hand.drop_last()[j]).id,
                } || (hidden && before[k] == Action::PlayFaceDown {
                    card_id: hand.drop_last()[j].id,
                }));
            assert(hand.drop_last()[j] == hand[j]);
        } else {
            assert(hand.last() == hand[hand.len() - 1]);
        }
    }
}

/// Each card of `hand` is offered face up, and face down when hiding is allowed.
proof fn lemma_card_actions_offer(hand: Seq<Card>, hidden: bool, j: int)
    requires
        0 <= j < hand.len(),
    ensures
        holds_action(card_actions(hand, hidden), Action::PlayFaceUp { card_id: hand[j].id }),
        hidden ==> holds_action(card_actions(hand, hidden), Action::PlayFaceDown { card_id: hand[j].id }),
    decreases hand.len(),
{
    let before = card_actions(hand.drop_last(), hidden);
    let up = before.push(Action::PlayFaceUp { card_id: hand.last().id });
    let all = card_actions(hand, hidden);
    if j < hand.len() - 1 {
        lemma_card_actions_offer(hand.drop_last(), hidden, j);
        assert(hand.drop_last()[j] == hand[j]);
        let k = choose|k: int| 0 <= k < before.len() && same_action(#[trigger] before[k], Action::PlayFaceUp { card_id: hand[j].id });
        assert(all[k] == before[k]);
        if hidden {
            let m = choose|m: int| 0 <= m < before.len() && same_action(#[trigger] before[m], Action::PlayFaceDown { card_id: hand[j].id });
            assert(all[m] == before[m]);
        }
    } else {
        assert(all[before.len() as int] == Action::PlayFaceUp { card_id: hand.last().id });
        assert(same_action(all[before.len() as int], Action::PlayFaceUp { card_id: hand[j].id }));
        if hidden {
            assert(all[before.len() as int + 1] == Action::PlayFaceDown { card_id: hand.last().id });
            assert(same_action(all[before.len() as int + 1], Action::PlayFaceDown { card_id: hand[j].id }));
        }
    }
}

/// Every action the engine accepts is one it lists as legal (actions compared as the
/// fixtures compare them: card ids by their text).
pub proof fn lemma_accepted_actions_listed(e: EngineView, player: Player, action: Action)
    requires
        engine_ok(e),
        action_result(e, player, action) is Ok,
    ensures
        legal_action_seq(e, player) matches Ok(actions) && holds_action(actions, action),
{
    let s = e.state;
    let actions = legal_action_seq(e, player).unwrap();
    if s.pending_decision is Some {
        assert(actions[actions.len() - 3] == Action::AcceptEleven);
        assert(actions[actions.len() - 2] == Action::FoldEleven);
        assert(actions[actions.len() - 1] == Action::ConcedeHand);
        assert(same_action(actions[actions.len() - 3], action) || same_action(actions[actions.len() - 2], action) || same_action(actions[actions.len() - 1], action));
    } else if let Some(raise) = s.pending_raise {
        assert(actions[0] == Action::AcceptRaise);
        assert(actions[1] == Action::Fold);
        assert(actions[2] == Action::ConcedeHand);
        if action is Raise {
            assert(actions[3] == Action::Raise { to: ladder_next(raise.to).unwrap() });
            assert(same_action(actions[3], action));
        } else {
            assert(same_action(actions[0], action) || same_action(actions[1], action) || same_action(actions[2], action));
        }
    } else {
        let hidden = hiding_allowed(s);
        let hand = s.hand(player);
        let cards = card_actions(hand, hidden);
        let with_raise = if raise_open(s, player) && ladder_next(s.hand_value) is Some {
            cards.push(Action::Raise { to: ladder_next(s.hand_value).unwrap() })
        } else {
            cards
        };
        assert(actions == with_raise.push(Action::ConcedeHand));
        match action {
            Action::PlayFaceUp { card_id } => {
                let i = id_position(hand, card_id@).unwrap();
                lemma_id_position_some(hand, card_id@);
                lemma_card_actions_offer(hand, hidden, i);
                let k = choose|k: int| 0 <= k < cards.len() && same_action(#[trigger] cards[k], Action::PlayFaceUp { card_id: hand[i].id });
                assert(actions[k] == cards[k]);
                assert(same_action(actions[k], action));
            },
            Action::PlayFaceDown { card_id } => {
                let i = id_position(hand, card_id@).unwrap();
                lemma_id_position_some(hand, card_id@);
                lemma_card_actions_offer(hand, hidden, i);
                let k = choose|k: int| 0 <= k < cards.len() && same_action(#[trigger] cards[k], Action::PlayFaceDown { card_id: hand[i].id });
                assert(actions[k] == cards[k]);
                assert(same_action(actions[k], action));
            },
            Action::Raise { to } => {
                assert(actions[cards.len() as int] == Action::Raise { to: ladder_next(s.hand_value).unwrap() });
                assert(same_action(actions[cards.len() as int], action));
            },
            _ => {
                assert(actions[actions.len() - 1] == Action::ConcedeHand);
                assert(same_action(actions[actions.len() - 1], action));
            },
        }
    }
}

/// Every action the engine lists as legal is accepted when applied.
pub proof fn lemma_legal_actions_apply(e: EngineView, player: Player, k: int)
    requires
        engine_ok(e),
        legal_action_seq(e, player) is Ok,
        0 <= k < legal_action_seq(e, player).unwrap().len(),
    ensures
        action_result(e, player, legal_action_seq(e, player).unwrap()[k]) is Ok,
{
    let s = e.state;
    let actions = legal_action_seq(e, player).unwrap();
    let action = actions[k];
    if s.pending_decision is None && s.pending_raise is None {
        let hidden = hiding_allowed(s);
        let cards = card_actions(s.hand(player), hidden);
        if k < cards.len() {
            lemma_card_actions_member(s.hand(player), hidden, k);
            let j = choose|j: int|
                0 <= j < s.hand(player).len() && (cards[k] == Action::PlayFaceUp {
                    card_id: (#[trigger] s.hand(player)[j]).id,
                } || (hidden && cards[k] == Action::PlayFaceDown {
                    card_id: s.hand(player)[j].id,
                }));
            let with_raise = if raise_open(s, player) && ladder_next(s.hand_value) is Some {
                cards.push(Action::Raise { to: ladder_next(s.hand_value).unwrap() })
            } else {
                cards
            };
            assert(actions[k] == with_raise[k]);
            assert(with_raise[k] == cards[k]);
            lemma_id_position_some(s.hand(player), s.hand(player)[j].id@);
        }
    }
}

} // verus!

verus! {

/// Position of a hand value on the raise ladder (values off the ladder count as the top).
pub open spec fn ladder_rank(value: u8) -> int {
    if value == 1 {
        0
    } else if value == 3 {
        1
    } else if value == 6 {
        2
    } else if value == 9 {
        3
    } else {
        4
    }
}

/// A measure of how much of a hand is left: cards still held, raises still possible
/// and an open decision on eleven.
pub open spec fn hand_measure(s: StateView) -> int {
    let top = match s.pending_raise {
        Some(raise) => raise.to,
        None => s.hand_value,
    };
    (s.hand_zero.len() + s.hand_one.len()) + 2 * (4 - ladder_rank(s.hand_value)) + (4
        - ladder_rank(top)) + if s.pending_decision is Some {
        1int
    } else {
        0int
    }
}

/// A live hand has at most 19 units of measure left.
pub proof fn lemma_hand_measure_bounds(e: EngineView)
    requires
        engine_ok(e),
        e.hand_winner is None,
    ensures
        0 <= hand_measure(e.state) <= 19,
{
    let s = e.state;
    assert(card_counts_ok(s));
    assert(s.hand(0u8).len() + s.completed_rounds.len() + plays_by(s.current_plays, 0) == 3);
    assert(s.hand(1u8).len() + s.completed_rounds.len() + plays_by(s.current_plays, 1) == 3);
}

/// Every accepted action either ends the hand or strictly shrinks its measure, so a
/// hand ends after at most 20 actions.
pub proof fn lemma_action_makes_progress(e: EngineView, player: Player, action: Action)
    requires
        engine_ok(e),
        action_result(e, player, action) is Ok,
    ensures
        action_result(e, player, action).unwrap().hand_winner is Some || hand_measure(
            action_result(e, player, action).unwrap().state,
        ) < hand_measure(e.state),
{
    let s = e.state;
    match action {
        Action::PlayFaceUp { card_id } => {
            lemma_id_position_some(s.hand(player), card_id@);
        },
        Action::PlayFaceDown { card_id } => {
            lemma_id_position_some(s.hand(player), card_id@);
        },
        _ => {},
    }
}

/// The hand after a sequence of moves, each a player and an action, or the first error.
pub open spec fn run_actions(e: EngineView, moves: Seq<(Player, Action)>) -> Result<EngineView, EngineError>
    decreases moves.len(),
{
    if moves.len() == 0 {
        Ok(e)
    } else {
        match run_actions(e, moves.drop_last()) {
            Err(x) => Err(x),
            Ok(v) => action_result(v, moves.last().0, moves.last().1),
        }
    }
}

/// Every run of accepted actions keeps the engine well formed and shrinks the measure
/// by at least one per action while the hand is live; so no hand admits more than 20
/// accepted actions.
pub proof fn lemma_hand_action_bound(e: EngineView, moves: Seq<(Player, Action)>)
    requires
        engine_ok(e),
        run_actions(e, moves) is Ok,
    ensures
        engine_ok(run_actions(e, moves).unwrap()),
        run_actions(e, moves).unwrap().hand_winner is None ==> hand_measure(
            run_actions(e, moves).unwrap().state,
        ) + moves.len() <= hand_measure(e.state),
        moves.len() > 0 ==> e.hand_winner is None && moves.len() <= hand_measure(e.state) + 1,
        moves.len() <= 20,
    decreases moves.len(),
{
    if moves.len() > 0 {
        let prev = moves.drop_last();
        lemma_hand_action_bound(e, prev);
        let v = run_actions(e, prev).unwrap();
        let (p, a) = moves.last();
        lemma_action_keeps_engine_ok(v, p, a);
        lemma_action_makes_progress(v, p, a);
        lemma_hand_measure_bounds(v);
    }
    if e.hand_winner is None {
        lemma_hand_measure_bounds(e);
    }
}

/// A hand that ends awards its winner at least one point (capped at the match target),
/// leaves the loser's points alone, and decides the match exactly when the target is
/// reached; an action that does not end the hand leaves the score alone.
pub proof fn lemma_action_scoring(e: EngineView, player: Player, action: Action)
    requires
        engine_ok(e),
        action_result(e, player, action) is Ok,
    ensures
        ({
            let v = action_result(e, player, action).unwrap();
            match v.hand_winner {
                Some(w) => {
                    &&& is_player_id(w)
                    &&& exists|points: u8|
                        points >= 1 && v.state.score == awarded(e.state.score, w, points)
                    &&& v.match_winner == match_winner_of(v.state.score)
                },
                None => v.state.score == e.state.score && v.match_winner is None,
            }
        }),
{
    let v = action_result(e, player, action).unwrap();
    lemma_action_keeps_engine_ok(e, player, action);
    let s = e.state;
    match action {
        Action::PlayFaceUp { card_id } => {
            lemma_id_position_some(s.hand(player), card_id@);
            if v.hand_winner is Some {
                assert(v.state.score == awarded(s.score, v.hand_winner.unwrap(), s.hand_value));
            }
        },
        Action::PlayFaceDown { card_id } => {
            lemma_id_position_some(s.hand(player), card_id@);
            if v.hand_winner is Some {
                assert(v.state.score == awarded(s.score, v.hand_winner.unwrap(), s.hand_value));
            }
        },
        Action::Fold => {
            let raise = s.pending_raise.unwrap();
            assert(v.state.score == awarded(s.score, raise.raised_by, raise.previous_value));
        },
        Action::FoldEleven => {
            let decision = s.pending_decision.unwrap();
            assert(v.state.score == awarded(s.score, opponent_of(decision.player), 1));
        },
        Action::ConcedeHand => {
            assert(v.state.score == awarded(
                s.score,
                opponent_of(player),
                crate::engine::concession_value(s),
            ));
        },
        _ => {},
    }
}

} // verus!

verus! {

/// Actions never change who dealt the hand.
pub proof fn lemma_action_keeps_dealer(e: EngineView, player: Player, action: Action)
    requires
        action_result(e, player, action) is Ok,
    ensures
        action_result(e, player, action).unwrap().state.dealer == e.state.dealer,
{
}

} // verus!
