use vstd::prelude::*;

use crate::cards::{Card, Rank, Suit};
use crate::error::EngineError;
use crate::lists::CardList;
use crate::rules::{
    both_players_on_eleven, compare_plays, decide_hand_winner, eleven_hand_decision_player,
    expected_round_leader, first_round_leader, is_player, next_raise_after, other_player,
    round_views, score_triggers_eleven_hand, score_winner, starting_hand_value,
    both_on_eleven, eleven_decider, eleven_hand, hand_winner_of, ladder_next, match_winner_of,
    next_round_leader, on_ladder, opening_hand_value, opening_leader, round_winner,
    ELEVEN_AUTO_HAND_VALUE,
};
use crate::state::{
    is_player_id, opponent_of, CompletedRound, GameState, Hands, PlayedCard, Player, RoundView,
    StateView, Visibility,
};
use crate::{INITIAL_HAND_VALUE, MATCH_TARGET};

verus! {

// ---------------------------------------------------------------------------
// Specification
// ---------------------------------------------------------------------------
/// `i` is the first position of `hand` holding a card with id `id`.
pub open spec fn first_id_match(hand: Seq<Card>, id: Seq<char>, i: int) -> bool {
    &&& 0 <= i < hand.len()
    &&& hand[i].id@ == id
    &&& forall|j: int| 0 <= j < i ==> (#[trigger] hand[j]).id@ != id
}

/// The position of the first card of `hand` with id `id`.
pub open spec fn id_position(hand: Seq<Card>, id: Seq<char>) -> Option<int> {
    if exists|i: int| first_id_match(hand, id, i) {
        Some(choose|i: int| first_id_match(hand, id, i))
    } else {
        None
    }
}

/// `hand` without the first card whose id is `id`.
pub open spec fn without_id(hand: Seq<Card>, id: Seq<char>) -> Seq<Card> {
    match id_position(hand, id) {
        Some(i) => hand.remove(i),
        None => hand,
    }
}

/// The two hands after removing, in order, the card of each play by a valid player.
pub open spec fn strip_plays(zero: Seq<Card>, one: Seq<Card>, plays: Seq<PlayedCard>) -> (
    Seq<Card>,
    Seq<Card>,
)
    decreases plays.len(),
{
    if plays.len() == 0 {
        (zero, one)
    } else {
        let (a, b) = strip_plays(zero, one, plays.drop_last());
        let play = plays.last();
        if play.player == 0 {
            (without_id(a, play.card.id@), b)
        } else if play.player == 1 {
            (a, without_id(b, play.card.id@))
        } else {
            (a, b)
        }
    }
}

/// `last_raised_by` after normalization: taken from a pending raise when missing,
/// and cleared while the hand is still at its initial value with no raise pending.
pub open spec fn normalized_raiser(s: StateView) -> Option<Player> {
    let inferred = if s.last_raised_by is None {
        match s.pending_raise {
            Some(raise) => Some(raise.raised_by),
            None => None,
        }
    } else {
        s.last_raised_by
    };
    if s.hand_value == 1 && s.pending_raise is None {
        None
    } else {
        inferred
    }
}

/// The normalized form of a state: cards of the current plays leave the hands and
/// `last_raised_by` is made consistent with the raise history.
pub open spec fn normalized(s: StateView) -> StateView {
    let (zero, one) = strip_plays(s.hand_zero, s.hand_one, s.current_plays);
    StateView { hand_zero: zero, hand_one: one, last_raised_by: normalized_raiser(s), ..s }
}

/// The cards of a sequence of plays.
pub open spec fn play_cards(plays: Seq<PlayedCard>) -> Seq<Card> {
    plays.map_values(|play: PlayedCard| play.card)
}

/// The cards of all plays of completed rounds, round by round.
pub open spec fn rounds_cards(rounds: Seq<RoundView>) -> Seq<Card>
    decreases rounds.len(),
{
    if rounds.len() == 0 {
        Seq::empty()
    } else {
        rounds_cards(rounds.drop_last()) + play_cards(rounds.last().plays)
    }
}

/// Every card of the hand: both hands, the plays of completed rounds and the current plays.
pub open spec fn physical_cards(s: StateView) -> Seq<Card> {
    s.hand_zero + s.hand_one + rounds_cards(s.completed_rounds) + play_cards(s.current_plays)
}

pub open spec fn card_face(card: Card) -> (Rank, Suit) {
    (card.rank, card.suit)
}

pub open spec fn card_id(card: Card) -> Seq<char> {
    card.id@
}

/// No two physical cards, nor the turnup, share a rank and suit.
pub open spec fn faces_distinct(s: StateView) -> bool {
    (seq![(s.turnup.rank, s.turnup.suit)] + physical_cards(s).map_values(
        |card: Card| card_face(card),
    )).no_duplicates()
}

/// No two physical cards share an id.
pub open spec fn ids_distinct(s: StateView) -> bool {
    physical_cards(s).map_values(|card: Card| card_id(card)).no_duplicates()
}

/// How many of `plays` were made by `player`.
pub open spec fn plays_by(plays: Seq<PlayedCard>, player: Player) -> nat
    decreases plays.len(),
{
    if plays.len() == 0 {
        0
    } else {
        plays_by(plays.drop_last(), player) + if plays.last().player == player {
            1nat
        } else {
            0nat
        }
    }
}

/// Each hand holds three cards minus one per completed round and one per current play.
pub open spec fn card_counts_ok(s: StateView) -> bool {
    forall|player: Player|
        #![trigger s.hand(player)]
        is_player_id(player) ==> s.hand(player).len() + s.completed_rounds.len() + plays_by(
            s.current_plays,
            player,
        ) == 3
}

/// A completed round either keeps no plays, or exactly the two plays that decided it.
pub open spec fn round_history_ok(round: RoundView, s: StateView) -> bool {
    round.plays.len() == 0 || {
        &&& round.plays.len() == 2
        &&& round.plays[0].player == round.leader
        &&& is_player_id(round.plays[0].player)
        &&& is_player_id(round.plays[1].player)
        &&& round.plays[0].player != round.plays[1].player
        &&& round_winner(s.turnup, round.plays[0], round.plays[1]) == round.winner
    }
}

/// The leader of each completed round follows from the rounds before it.
pub open spec fn leader_chain_ok(s: StateView) -> bool {
    &&& s.completed_rounds.len() > 0 ==> s.completed_rounds[0].leader == opponent_of(s.dealer)
    &&& forall|i: int|
        #![trigger s.completed_rounds[i + 1]]
        0 <= i && i + 1 < s.completed_rounds.len() ==> s.completed_rounds[i + 1].leader == match s.completed_rounds[i].winner {
            Some(w) => w,
            None => s.completed_rounds[i].leader,
        }
}

/// The checks shared by live and finished states.
pub open spec fn shared_ok(s: StateView) -> bool {
    &&& is_player_id(s.dealer)
    &&& is_player_id(s.current_leader)
    &&& (s.next_player matches Some(p) ==> is_player_id(p))
    &&& (s.last_raised_by matches Some(p) ==> is_player_id(p))
    &&& s.score.zero <= MATCH_TARGET
    &&& s.score.one <= MATCH_TARGET
    &&& on_ladder(s.hand_value)
    &&& s.completed_rounds.len() <= 3
    &&& s.current_plays.len() <= 1
    &&& !(s.pending_decision is Some && s.pending_raise is Some)
    &&& forall|i: int|
        0 <= i < s.current_plays.len() ==> is_player_id(#[trigger] s.current_plays[i].player)
    &&& forall|i: int|
        #![trigger s.completed_rounds[i]]
        0 <= i < s.completed_rounds.len() ==> {
            &&& is_player_id(s.completed_rounds[i].leader)
            &&& (s.completed_rounds[i].winner matches Some(w) ==> is_player_id(w))
            &&& round_history_ok(s.completed_rounds[i], s)
        }
    &&& leader_chain_ok(s)
    &&& (s.completed_rounds.len() == 0 ==> forall|i: int|
        0 <= i < s.current_plays.len() ==> (#[trigger] s.current_plays[i]).visibility
            == Visibility::Up)
    &&& faces_distinct(s)
    &&& ids_distinct(s)
    &&& card_counts_ok(s)
}

/// Whether the raise ladder reaches `target` from `current`.
pub open spec fn ladder_reaches(current: u8, target: u8) -> bool {
    current == target || (on_ladder(current) && on_ladder(target) && current <= target)
}

/// The checks of a live state that precede the hand-decided check.
pub open spec fn live_checks_ok(s: StateView) -> bool {
    &&& match_winner_of(s.score) is None
    &&& both_on_eleven(s.score) ==> s.hand_value == opening_hand_value(s.score)
        && s.pending_decision is None
    &&& !(eleven_hand(s.score) && s.pending_raise is Some)
    &&& (eleven_decider(s.score) is Some ==> s.hand_value == if s.pending_decision is Some {
        INITIAL_HAND_VALUE
    } else {
        ELEVEN_AUTO_HAND_VALUE
    })
    &&& s.current_leader == next_round_leader(s.dealer, s.completed_rounds)
    &&& (s.current_plays.len() > 0 ==> s.current_plays[0].player == s.current_leader)
    &&& match s.pending_raise {
        Some(raise) => {
            &&& ladder_reaches(s.hand_value, raise.previous_value)
            &&& is_player_id(raise.raised_by)
            &&& s.last_raised_by == Some(raise.raised_by)
            &&& ladder_next(raise.previous_value) == Some(raise.to)
        },
        None => if s.hand_value == 1 {
            s.last_raised_by is None
        } else {
            s.last_raised_by is Some || eleven_hand(s.score)
        },
    }
    &&& (s.pending_decision matches Some(decision) ==> {
        &&& eleven_decider(s.score) == Some(decision.player)
        &&& s.completed_rounds.len() == 0
        &&& s.current_plays.len() == 0
    })
}

/// Whose turn a live state says it is.
pub open spec fn expected_next_player(s: StateView) -> Option<Player> {
    if let Some(decision) = s.pending_decision {
        Some(decision.player)
    } else if let Some(raise) = s.pending_raise {
        Some(opponent_of(raise.raised_by))
    } else if s.current_plays.len() == 0 {
        Some(s.current_leader)
    } else {
        Some(opponent_of(s.current_plays[0].player))
    }
}

/// Validation of a normalized live state.
pub open spec fn live_result(s: StateView) -> Result<(), EngineError> {
    if !(shared_ok(s) && live_checks_ok(s)) {
        Err(EngineError::InvalidInitialState)
    } else if hand_winner_of(s.completed_rounds, opening_leader(s.dealer, s.completed_rounds)) is Some {
        Err(EngineError::HandAlreadyDecided)
    } else if s.next_player != expected_next_player(s) {
        Err(EngineError::InvalidInitialState)
    } else {
        Ok(())
    }
}

/// Validation of a normalized state whose hand was won by `hand_winner`.
pub open spec fn finished_ok(s: StateView, hand_winner: Player, match_winner: Option<Player>) -> bool {
    &&& shared_ok(s)
    &&& is_player_id(hand_winner)
    &&& s.next_player is None
    &&& s.pending_decision is None
    &&& s.pending_raise is None
    &&& s.current_leader == next_round_leader(s.dealer, s.completed_rounds)
    &&& (s.current_plays.len() > 0 ==> s.current_plays[0].player == s.current_leader)
    &&& (hand_winner_of(s.completed_rounds, opening_leader(s.dealer, s.completed_rounds)) matches Some(
        w,
    ) ==> w == hand_winner)
    &&& match_winner == match_winner_of(s.score)
}

/// Validation of an exported engine state (normalized first).
pub open spec fn exported_result(
    s: StateView,
    hand_winner: Option<Player>,
    match_winner: Option<Player>,
) -> Result<(), EngineError> {
    let n = normalized(s);
    match hand_winner {
        Some(w) => if finished_ok(n, w, match_winner) {
            Ok(())
        } else {
            Err(EngineError::InvalidInitialState)
        },
        None => match live_result(n) {
            Err(e) => Err(e),
            Ok(()) => if match_winner_of(n.score) is Some || match_winner is Some {
                Err(EngineError::InvalidInitialState)
            } else {
                Ok(())
            },
        },
    }
}

} // verus!

verus! {

// ---------------------------------------------------------------------------
// Normalization
// ---------------------------------------------------------------------------
proof fn lemma_first_id_match_unique(hand: Seq<Card>, id: Seq<char>, i: int, k: int)
    requires
        first_id_match(hand, id, i),
        first_id_match(hand, id, k),
    ensures
        i == k,
{
    if i < k {
        assert(hand[i].id@ != id);
    } else if k < i {
        assert(hand[k].id@ != id);
    }
}

/// Some card of `hand` has id `id` exactly when `id_position` finds one.
pub proof fn lemma_id_position_some(hand: Seq<Card>, id: Seq<char>)
    ensures
        (exists|i: int| 0 <= i < hand.len() && (#[trigger] hand[i]).id@ == id) <==> id_position(
            hand,
            id,
        ) is Some,
        id_position(hand, id) matches Some(i) ==> first_id_match(hand, id, i),
    decreases hand.len(),
{
    if exists|i: int| 0 <= i < hand.len() && (#[trigger] hand[i]).id@ == id {
        if hand[0].id@ == id {
            assert(first_id_match(hand, id, 0));
        } else {
            let rest = hand.drop_first();
            let i = choose|i: int| 0 <= i < hand.len() && (#[trigger] hand[i]).id@ == id;
            assert(rest[i - 1] == hand[i]);
            lemma_id_position_some(rest, id);
            let k = choose|k: int| first_id_match(rest, id, k);
            assert forall|j: int| 0 <= j < k + 1 implies (#[trigger] hand[j]).id@ != id by {
                if j > 0 {
                    assert(hand[j] == rest[j - 1]);
                }
            }
            assert(first_id_match(hand, id, k + 1));
        }
    }
    if id_position(hand, id) is Some {
        let i = choose|i: int| first_id_match(hand, id, i);
        assert(first_id_match(hand, id, i));
    }
}

/// The position of the first card in `hand` whose id is `id`.
pub fn find_card_index(hand: &[Card], id: &String) -> (r: Option<usize>)
    ensures
        match r {
            Some(i) => id_position(hand@, id@) == Some(i as int),
            None => id_position(hand@, id@) is None,
        },
{
    let mut i: usize = 0;
    while i < hand.len()
        invariant
            i <= hand@.len(),
            forall|j: int| 0 <= j < i ==> (#[trigger] hand@[j]).id@ != id@,
        decreases hand@.len() - i,
    {
        if hand[i].id == *id {
            proof {
                assert(first_id_match(hand@, id@, i as int));
                let k = choose|k: int| first_id_match(hand@, id@, k);
                lemma_first_id_match_unique(hand@, id@, i as int, k);
            }
            return Some(i);
        }
        i += 1;
    }
    proof {
        if exists|k: int| first_id_match(hand@, id@, k) {
            let k = choose|k: int| first_id_match(hand@, id@, k);
            assert(hand@[k].id@ == id@);
        }
    }
    None
}

fn remove_card_with_id(hand: &mut CardList, id: &String)
    ensures
        final(hand)@ == without_id(old(hand)@, id@),
{
    match find_card_index(hand.as_slice(), id) {
        Some(index) => {
            hand.remove(index);
        },
        None => {},
    }
}

/// Normalizes a state: removes the cards of the current plays from the hands and
/// infers or clears `last_raised_by`.
pub fn normalize_state(state: GameState) -> (r: GameState)
    ensures
        r@ == normalized(state@),
{
    let ghost s = state@;
    let mut state = state;
    if state.last_raised_by.is_none() {
        state.last_raised_by = match state.pending_raise {
            Some(raise) => Some(raise.raised_by),
            None => None,
        };
    }
    if state.hand_value == 1 && state.pending_raise.is_none() {
        state.last_raised_by = None;
    }
    let ghost before = state@;
    let plays = state.current_round.plays.as_slice();
    let mut i: usize = 0;
    assert(plays@.subrange(0, 0) =~= Seq::<PlayedCard>::empty());
    while i < plays.len()
        invariant
            i <= plays@.len(),
            plays@ == s.current_plays,
            state@ == (StateView { hand_zero: state@.hand_zero, hand_one: state@.hand_one, ..before }),
            (state.hands.zero@, state.hands.one@) == strip_plays(s.hand_zero, s.hand_one, plays@.subrange(0, i as int)),
        decreases plays@.len() - i,
    {
        assert(plays@.subrange(0, i + 1).drop_last() =~= plays@.subrange(0, i as int));
        let play = &plays[i];
        if play.player == 0 {
            remove_card_with_id(&mut state.hands.zero, &play.card.id);
        } else if play.player == 1 {
            remove_card_with_id(&mut state.hands.one, &play.card.id);
        }
        i += 1;
    }
    assert(plays@.subrange(0, i as int) =~= plays@);
    state
}

} // verus!

verus! {

// ---------------------------------------------------------------------------
// Shared checks
// ---------------------------------------------------------------------------
proof fn lemma_rounds_cards_step(rounds: Seq<RoundView>, i: int)
    requires
        0 <= i < rounds.len(),
    ensures
        rounds_cards(rounds.subrange(0, i + 1)) == rounds_cards(rounds.subrange(0, i))
            + play_cards(rounds[i].plays),
{
    assert(rounds.subrange(0, i + 1).drop_last() =~= rounds.subrange(0, i));
}

fn push_play_cards(out: &mut Vec<Card>, plays: &[PlayedCard])
    ensures
        final(out)@ == old(out)@ + play_cards(plays@),
{
    let ghost start = out@;
    let mut i: usize = 0;
    while i < plays.len()
        invariant
            i <= plays@.len(),
            out@ == start + play_cards(plays@.subrange(0, i as int)),
        decreases plays@.len() - i,
    {
        out.push(plays[i].card.duplicate());
        proof {
            assert(play_cards(plays@.subrange(0, i + 1)) =~= play_cards(plays@.subrange(0, i as int)).push(
                plays@[i as int].card,
            ));
        }
        i += 1;
    }
    assert(plays@.subrange(0, i as int) =~= plays@);
}

/// Copies of every physical card of the state.
fn all_physical_cards(state: &GameState) -> (r: Vec<Card>)
    ensures
        r@ == physical_cards(state@),
{
    let mut out = state.hands.zero.to_vec();
    let one = state.hands.one.to_vec();
    let mut k: usize = 0;
    let ghost zero = out@;
    while k < one.len()
        invariant
            k <= one@.len(),
            out@ == zero + one@.subrange(0, k as int),
        decreases one@.len() - k,
    {
        out.push(one[k].duplicate());
        proof {
            assert(one@.subrange(0, k + 1) =~= one@.subrange(0, k as int).push(one@[k as int]));
        }
        k += 1;
    }
    assert(one@.subrange(0, k as int) =~= one@);
    let rounds = state.completed_rounds.as_slice();
    let ghost views = state@.completed_rounds;
    let ghost prefix = out@;
    let mut i: usize = 0;
    assert(views.subrange(0, 0) =~= Seq::<RoundView>::empty());
    while i < rounds.len()
        invariant
            i <= rounds@.len(),
            views == round_views(rounds@),
            views.len() == rounds@.len(),
            out@ == prefix + rounds_cards(views.subrange(0, i as int)),
        decreases rounds@.len() - i,
    {
        proof {
            lemma_rounds_cards_step(views, i as int);
        }
        push_play_cards(&mut out, rounds[i].plays.as_slice());
        assert(out@ =~= prefix + rounds_cards(views.subrange(0, i + 1)));
        i += 1;
    }
    assert(views.subrange(0, i as int) =~= views);
    push_play_cards(&mut out, state.current_round.plays.as_slice());
    assert(out@ =~= physical_cards(state@));
    out
}

fn faces_have_duplicates(faces: &Vec<(Rank, Suit)>) -> (r: bool)
    ensures
        r == !faces@.no_duplicates(),
{
    let mut i: usize = 0;
    while i < faces.len()
        invariant
            i <= faces@.len(),
            forall|a: int, b: int| 0 <= a < i && 0 <= b < i && a != b ==> faces@[a] != faces@[b],
        decreases faces@.len() - i,
    {
        let mut j: usize = 0;
        while j < i
            invariant
                j <= i < faces@.len(),
                forall|b: int| 0 <= b < j ==> faces@[b] != faces@[i as int],
            decreases i - j,
        {
            if faces[i].0 == faces[j].0 && faces[i].1 == faces[j].1 {
                return true;
            }
            j += 1;
        }
        i += 1;
    }
    false
}

fn ids_have_duplicates(cards: &Vec<Card>) -> (r: bool)
    ensures
        r == !cards@.map_values(|card: Card| card_id(card)).no_duplicates(),
{
    let ghost ids = cards@.map_values(|card: Card| card_id(card));
    let mut i: usize = 0;
    while i < cards.len()
        invariant
            i <= cards@.len(),
            ids == cards@.map_values(|card: Card| card_id(card)),
            forall|a: int, b: int| 0 <= a < i && 0 <= b < i && a != b ==> ids[a] != ids[b],
        decreases cards@.len() - i,
    {
        let mut j: usize = 0;
        while j < i
            invariant
                j <= i < cards@.len(),
                ids == cards@.map_values(|card: Card| card_id(card)),
                forall|b: int| 0 <= b < j ==> ids[b] != ids[i as int],
            decreases i - j,
        {
            if cards[i].id == cards[j].id {
                assert(ids[i as int] == ids[j as int]);
                return true;
            }
            j += 1;
        }
        i += 1;
    }
    false
}

fn has_duplicate_physical_cards(state: &GameState, cards: &Vec<Card>) -> (r: bool)
    requires
        cards@ == physical_cards(state@),
    ensures
        r == !faces_distinct(state@),
{
    let mut faces: Vec<(Rank, Suit)> = Vec::new();
    faces.push((state.turnup.rank, state.turnup.suit));
    let mut i: usize = 0;
    while i < cards.len()
        invariant
            i <= cards@.len(),
            faces@ == seq![(state.turnup.rank, state.turnup.suit)] + cards@.subrange(
                0,
                i as int,
            ).map_values(|card: Card| card_face(card)),
        decreases cards@.len() - i,
    {
        faces.push((cards[i].rank, cards[i].suit));
        assert(cards@.subrange(0, i + 1).map_values(|card: Card| card_face(card)) =~= cards@.subrange(
            0,
            i as int,
        ).map_values(|card: Card| card_face(card)).push(card_face(cards@[i as int])));
        i += 1;
    }
    assert(cards@.subrange(0, i as int) =~= cards@);
    faces_have_duplicates(&faces)
}

fn has_duplicate_card_ids(cards: &Vec<Card>) -> (r: bool)
    ensures
        r == !cards@.map_values(|card: Card| card_id(card)).no_duplicates(),
{
    ids_have_duplicates(cards)
}

proof fn lemma_plays_by_step(plays: Seq<PlayedCard>, i: int, player: Player)
    requires
        0 <= i < plays.len(),
    ensures
        plays_by(plays.subrange(0, i + 1), player) == plays_by(plays.subrange(0, i), player) + (
        if plays[i].player == player {
            1nat
        } else {
            0nat
        }),
{
    assert(plays.subrange(0, i + 1).drop_last() =~= plays.subrange(0, i));
}

/// How many of `plays` were made by `player`.
pub fn count_plays_by(plays: &[PlayedCard], player: Player) -> (r: usize)
    ensures
        r == plays_by(plays@, player),
{
    let mut count: usize = 0;
    let mut i: usize = 0;
    assert(plays@.subrange(0, 0) =~= Seq::<PlayedCard>::empty());
    while i < plays.len()
        invariant
            i <= plays@.len(),
            count == plays_by(plays@.subrange(0, i as int), player),
            count <= i,
        decreases plays@.len() - i,
    {
        proof {
            lemma_plays_by_step(plays@, i as int, player);
        }
        if plays[i].player == player {
            count += 1;
        }
        i += 1;
    }
    assert(plays@.subrange(0, i as int) =~= plays@);
    count
}

fn card_count_ok_for(state: &GameState, player: Player) -> (r: bool)
    requires
        is_player_id(player),
    ensures
        r == (state@.hand(player).len() + state@.completed_rounds.len() + plays_by(
            state@.current_plays,
            player,
        ) == 3),
{
    let played_now = count_plays_by(state.current_round.plays.as_slice(), player);
    let completed = state.completed_rounds.len();
    let held = state.hands.player(player).len();
    if completed > 3 || played_now > 3 - completed {
        return false;
    }
    held == 3 - completed - played_now
}

fn validate_card_counts(state: &GameState) -> (r: Result<(), EngineError>)
    ensures
        r is Ok <==> card_counts_ok(state@),
        r is Err ==> r == Err::<(), EngineError>(EngineError::InvalidInitialState),
{
    let zero_ok = card_count_ok_for(state, 0);
    let one_ok = card_count_ok_for(state, 1);
    if zero_ok && one_ok {
        assert forall|player: Player| is_player_id(player) implies #[trigger] state@.hand(player).len()
            + state@.completed_rounds.len() + plays_by(state@.current_plays, player) == 3 by {}
        Ok(())
    } else {
        proof {
            if zero_ok {
                assert(state@.hand(1u8).len() == state@.hand_one.len());
            } else {
                assert(state@.hand(0u8).len() == state@.hand_zero.len());
            }
        }
        Err(EngineError::InvalidInitialState)
    }
}

fn valid_completed_round_history(round: &CompletedRound, state: &GameState) -> (r: bool)
    ensures
        r == round_history_ok(round@, state@),
{
    let plays = round.plays.as_slice();
    if plays.len() == 0 {
        return true;
    }
    if plays.len() != 2 {
        return false;
    }
    let first = &plays[0];
    let second = &plays[1];
    first.player == round.leader && is_player(first.player) && is_player(second.player)
        && first.player != second.player && compare_plays(&state.turnup, first, second)
        == round.winner
}

fn validate_round_leader_chain(state: &GameState) -> (r: bool)
    ensures
        r == leader_chain_ok(state@),
{
    let rounds = state.completed_rounds.as_slice();
    let ghost views = state@.completed_rounds;
    assert(views == round_views(rounds@));
    if rounds.len() > 0 {
        if rounds[0].leader != other_player(state.dealer) {
            return false;
        }
    }
    let mut i: usize = 1;
    while i < rounds.len()
        invariant
            1 <= i,
            rounds@.len() > 0 ==> i <= rounds@.len(),
            views == round_views(rounds@),
            views == state@.completed_rounds,
            views.len() == rounds@.len(),
            views.len() > 0 ==> views[0].leader == opponent_of(state.dealer),
            forall|k: int|
                #![trigger views[k + 1]]
                0 <= k && k + 1 < i && k + 1 < views.len() ==> views[k + 1].leader == match views[k].winner {
                    Some(w) => w,
                    None => views[k].leader,
                },
        decreases rounds@.len() - i,
    {
        let previous = &rounds[i - 1];
        let expected = match previous.winner {
            Some(w) => w,
            None => previous.leader,
        };
        assert(rounds@[i as int]@ == views[i as int]);
        assert(rounds@[i - 1]@ == views[i - 1]);
        if rounds[i].leader != expected {
            assert(views[i - 1 + 1] == views[i as int]);
            return false;
        }
        i += 1;
    }
    true
}

/// The checks every normalized state must pass, live or finished.
fn validate_shared_normalized_state(state: &GameState) -> (r: Result<(), EngineError>)
    ensures
        r is Ok <==> shared_ok(state@),
        r is Err ==> r == Err::<(), EngineError>(EngineError::InvalidInitialState),
{
    let next_ok = match state.next_player {
        Some(p) => is_player(p),
        None => true,
    };
    let raiser_ok = match state.last_raised_by {
        Some(p) => is_player(p),
        None => true,
    };
    if !is_player(state.dealer) || !is_player(state.current_round.leader) || !next_ok
        || !raiser_ok {
        return Err(EngineError::InvalidInitialState);
    }
    if state.score.zero > MATCH_TARGET || state.score.one > MATCH_TARGET {
        return Err(EngineError::InvalidInitialState);
    }
    let value = state.hand_value;
    if !(value == 1 || value == 3 || value == 6 || value == 9 || value == 12) {
        return Err(EngineError::InvalidInitialState);
    }
    let plays = state.current_round.plays.as_slice();
    let rounds = state.completed_rounds.as_slice();
    let ghost views = state@.completed_rounds;
    assert(views == round_views(rounds@));
    if rounds.len() > 3 || plays.len() > 1 {
        return Err(EngineError::InvalidInitialState);
    }
    if state.pending_decision.is_some() && state.pending_raise.is_some() {
        return Err(EngineError::InvalidInitialState);
    }
    let mut i: usize = 0;
    while i < plays.len()
        invariant
            i <= plays@.len(),
            plays@ == state@.current_plays,
            forall|k: int| 0 <= k < i ==> is_player_id(#[trigger] plays@[k].player),
        decreases plays@.len() - i,
    {
        if !is_player(plays[i].player) {
            return Err(EngineError::InvalidInitialState);
        }
        i += 1;
    }
    let mut j: usize = 0;
    while j < rounds.len()
        invariant
            j <= rounds@.len(),
            views == round_views(rounds@),
            views == state@.completed_rounds,
            views.len() == rounds@.len(),
            forall|k: int|
                #![trigger views[k]]
                0 <= k < j ==> {
                    &&& is_player_id(views[k].leader)
                    &&& (views[k].winner matches Some(w) ==> is_player_id(w))
                    &&& round_history_ok(views[k], state@)
                },
        decreases rounds@.len() - j,
    {
        let round = &rounds[j];
        let winner_ok = match round.winner {
            Some(w) => is_player(w),
            None => true,
        };
        if !is_player(round.leader) || !winner_ok || !valid_completed_round_history(round, state) {
            assert(views[j as int] == round@);
            assert(state@.completed_rounds[j as int] == round@);
            return Err(EngineError::InvalidInitialState);
        }
        j += 1;
    }
    if !validate_round_leader_chain(state) {
        return Err(EngineError::InvalidInitialState);
    }
    if rounds.len() == 0 {
        let mut k: usize = 0;
        while k < plays.len()
            invariant
                k <= plays@.len(),
                plays@ == state@.current_plays,
                state@.completed_rounds.len() == 0,
                forall|m: int| 0 <= m < k ==> (#[trigger] plays@[m]).visibility == Visibility::Up,
            decreases plays@.len() - k,
        {
            if plays[k].visibility == Visibility::Down {
                assert(state@.current_plays[k as int].visibility == Visibility::Down);
                return Err(EngineError::InvalidInitialState);
            }
            k += 1;
        }
    }
    let cards = all_physical_cards(state);
    if has_duplicate_physical_cards(state, &cards) || has_duplicate_card_ids(&cards) {
        return Err(EngineError::InvalidInitialState);
    }
    validate_card_counts(state)
}

} // verus!

verus! {

// ---------------------------------------------------------------------------
// Live, finished and exported states
// ---------------------------------------------------------------------------
/// Whether climbing the raise ladder from `current` reaches `target`.
pub fn raise_value_reachable_from(current: u8, target: u8) -> (r: bool)
    ensures
        r == ladder_reaches(current, target),
{
    let mut step = Some(current);
    while step.is_some()
        invariant
            match step {
                Some(v) => ladder_reaches(current, target) == ladder_reaches(v, target) && (v
                    == current || on_ladder(current)) && (v == current || on_ladder(v)) && current
                    <= v,
                None => !ladder_reaches(current, target),
            },
        decreases match step {
            Some(v) => if v <= 12 {
                13 - v
            } else {
                1
            },
            None => 0,
        },
    {
        let value = step.unwrap();
        if value == target {
            return true;
        }
        step = next_raise_after(value);
    }
    false
}

/// Validates a normalized state of a hand still in play.
pub fn validate_normalized_state(state: &GameState) -> (r: Result<(), EngineError>)
    ensures
        r == live_result(state@),
{
    let shared = validate_shared_normalized_state(state);
    if shared.is_err() {
        return Err(EngineError::InvalidInitialState);
    }
    let invalid = Err(EngineError::InvalidInitialState);
    if score_winner(&state.score).is_some() {
        return invalid;
    }
    if both_players_on_eleven(&state.score) {
        if state.hand_value != starting_hand_value(&state.score) {
            return invalid;
        }
        if state.pending_decision.is_some() {
            return invalid;
        }
    }
    if score_triggers_eleven_hand(&state.score) && state.pending_raise.is_some() {
        return invalid;
    }
    if eleven_hand_decision_player(&state.score).is_some() {
        let expected_value = if state.pending_decision.is_some() {
            INITIAL_HAND_VALUE
        } else {
            ELEVEN_AUTO_HAND_VALUE
        };
        if state.hand_value != expected_value {
            return invalid;
        }
    }
    let rounds = state.completed_rounds.as_slice();
    let plays = state.current_round.plays.as_slice();
    let expected_leader = expected_round_leader(state.dealer, rounds);
    if state.current_round.leader != expected_leader {
        return invalid;
    }
    if plays.len() > 0 {
        if plays[0].player != state.current_round.leader {
            return invalid;
        }
    }
    match state.pending_raise {
        Some(raise) => {
            if !raise_value_reachable_from(state.hand_value, raise.previous_value) {
                return invalid;
            }
            if !is_player(raise.raised_by) {
                return invalid;
            }
            if state.last_raised_by != Some(raise.raised_by) {
                return invalid;
            }
            match next_raise_after(raise.previous_value) {
                None => {
                    return invalid;
                },
                Some(expected_to) => {
                    if raise.to != expected_to {
                        return invalid;
                    }
                },
            }
        },
        None => {
            if state.hand_value == 1 {
                if state.last_raised_by.is_some() {
                    return invalid;
                }
            } else if state.last_raised_by.is_none() && !score_triggers_eleven_hand(&state.score) {
                return invalid;
            }
        },
    }
    match state.pending_decision {
        Some(decision) => {
            match eleven_hand_decision_player(&state.score) {
                None => {
                    return invalid;
                },
                Some(expected_player) => {
                    if decision.player != expected_player || rounds.len() != 0 || plays.len()
                        != 0 {
                        return invalid;
                    }
                },
            }
        },
        None => {},
    }
    if decide_hand_winner(rounds, first_round_leader(state.dealer, rounds)).is_some() {
        return Err(EngineError::HandAlreadyDecided);
    }
    let expected_next = match state.pending_decision {
        Some(decision) => Some(decision.player),
        None => match state.pending_raise {
            Some(raise) => Some(other_player(raise.raised_by)),
            None => if plays.len() == 0 {
                Some(state.current_round.leader)
            } else {
                Some(other_player(plays[0].player))
            },
        },
    };
    if state.next_player != expected_next {
        return invalid;
    }
    Ok(())
}

/// Validates a normalized state whose hand was won by `hand_winner`.
pub fn validate_finished_normalized_state(
    state: &GameState,
    hand_winner: Player,
    match_winner: Option<Player>,
) -> (r: Result<(), EngineError>)
    ensures
        r is Ok <==> finished_ok(state@, hand_winner, match_winner),
        r is Err ==> r == Err::<(), EngineError>(EngineError::InvalidInitialState),
{
    let shared = validate_shared_normalized_state(state);
    if shared.is_err() {
        return Err(EngineError::InvalidInitialState);
    }
    let invalid = Err(EngineError::InvalidInitialState);
    if !is_player(hand_winner) || state.next_player.is_some() {
        return invalid;
    }
    if state.pending_decision.is_some() || state.pending_raise.is_some() {
        return invalid;
    }
    let rounds = state.completed_rounds.as_slice();
    let plays = state.current_round.plays.as_slice();
    let expected_leader = expected_round_leader(state.dealer, rounds);
    if state.current_round.leader != expected_leader {
        return invalid;
    }
    if plays.len() > 0 {
        if plays[0].player != state.current_round.leader {
            return invalid;
        }
    }
    match decide_hand_winner(rounds, first_round_leader(state.dealer, rounds)) {
        Some(resolved) => {
            if resolved != hand_winner {
                return invalid;
            }
        },
        None => {},
    }
    if match_winner != score_winner(&state.score) {
        return invalid;
    }
    Ok(())
}

/// Validates an exported engine state: a finished hand when `hand_winner` is set,
/// a live one otherwise.
pub fn validate_exported_engine_state(
    state: &GameState,
    hand_winner: Option<Player>,
    match_winner: Option<Player>,
) -> (r: Result<(), EngineError>)
    ensures
        r == exported_result(state@, hand_winner, match_winner),
{
    let state = normalize_state(state.duplicate());
    match hand_winner {
        Some(winner) => match validate_finished_normalized_state(&state, winner, match_winner) {
            Ok(()) => Ok(()),
            Err(_) => Err(EngineError::InvalidInitialState),
        },
        None => {
            let live = validate_normalized_state(&state);
            match live {
                Err(e) => Err(e),
                Ok(()) => {
                    if score_winner(&state.score).is_some() || match_winner.is_some() {
                        Err(EngineError::InvalidInitialState)
                    } else {
                        Ok(())
                    }
                },
            }
        },
    }
}

/// Validates a state of a hand still in play, after normalizing it.
pub fn validate_state(state: &GameState) -> (r: Result<(), EngineError>)
    ensures
        r == live_result(normalized(state@)),
{
    let state = normalize_state(state.duplicate());
    validate_normalized_state(&state)
}

} // verus!

verus! {

proof fn lemma_without_absent_id(hand: Seq<Card>, id: Seq<char>)
    requires
        forall|k: int| 0 <= k < hand.len() ==> (#[trigger] hand[k]).id@ != id,
    ensures
        without_id(hand, id) == hand,
{
    lemma_id_position_some(hand, id);
}

proof fn lemma_strip_absent(zero: Seq<Card>, one: Seq<Card>, plays: Seq<PlayedCard>)
    requires
        forall|i: int, k: int|
            0 <= i < plays.len() && 0 <= k < zero.len() ==> (#[trigger] zero[k]).id@
                != (#[trigger] plays[i]).card.id@,
        forall|i: int, k: int|
            0 <= i < plays.len() && 0 <= k < one.len() ==> (#[trigger] one[k]).id@
                != (#[trigger] plays[i]).card.id@,
    ensures
        strip_plays(zero, one, plays) == (zero, one),
    decreases plays.len(),
{
    if plays.len() > 0 {
        let last = plays.last();
        assert(last == plays[plays.len() - 1]);
        lemma_strip_absent(zero, one, plays.drop_last());
        assert forall|k: int| 0 <= k < zero.len() implies (#[trigger] zero[k]).id@ != last.card.id@ by {
            assert(zero[k].id@ != plays[plays.len() - 1].card.id@);
        }
        assert forall|k: int| 0 <= k < one.len() implies (#[trigger] one[k]).id@ != last.card.id@ by {
            assert(one[k].id@ != plays[plays.len() - 1].card.id@);
        }
        lemma_without_absent_id(zero, last.card.id@);
        lemma_without_absent_id(one, last.card.id@);
    }
}

/// When card ids are distinct, no hand holds a card of a current play, so removing
/// played cards changes nothing.
pub proof fn lemma_strip_unchanged(s: StateView)
    requires
        ids_distinct(s),
    ensures
        strip_plays(s.hand_zero, s.hand_one, s.current_plays) == (s.hand_zero, s.hand_one),
{
    let cards = physical_cards(s);
    let ids = cards.map_values(|card: Card| card_id(card));
    let z = s.hand_zero.len();
    let o = s.hand_one.len();
    let rc = rounds_cards(s.completed_rounds).len();
    let offset = z + o + rc;
    assert forall|i: int, k: int|
        0 <= i < s.current_plays.len() && 0 <= k < z implies (#[trigger] s.hand_zero[k]).id@
        != (#[trigger] s.current_plays[i]).card.id@ by {
        assert(cards[k] == s.hand_zero[k]);
        assert(cards[offset + i] == s.current_plays[i].card);
        assert(ids[k] != ids[offset + i]);
    }
    assert forall|i: int, k: int|
        0 <= i < s.current_plays.len() && 0 <= k < o implies (#[trigger] s.hand_one[k]).id@
        != (#[trigger] s.current_plays[i]).card.id@ by {
        assert(cards[z + k] == s.hand_one[k]);
        assert(cards[offset + i] == s.current_plays[i].card);
        assert(ids[z + k] != ids[offset + i]);
    }
    lemma_strip_absent(s.hand_zero, s.hand_one, s.current_plays);
}

} // verus!
