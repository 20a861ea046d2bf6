use std::cmp::Ordering;

use vstd::prelude::*;

use crate::cards::{is_manilha_rank, rank_order, suit_order, Card, Turnup};
use crate::state::{
    is_player_id, opponent_of, CompletedRound, PlayedCard, Player, RoundView, Score, Visibility,
};
use crate::{INITIAL_HAND_VALUE, MATCH_TARGET, RAISE_LADDER};

verus! {

/// Value of a hand that is played on eleven.
pub const ELEVEN_AUTO_HAND_VALUE: u8 = 3;

/// Points awarded to the opponent when the player on eleven declines the hand.
pub const ELEVEN_FOLD_AWARD: u8 = 1;

/// The views of a slice of completed rounds.
pub open spec fn round_views(rounds: Seq<CompletedRound>) -> Seq<RoundView> {
    rounds.map_values(|round: CompletedRound| round@)
}

/// The step of the raise ladder 1 -> 3 -> 6 -> 9 -> 12 that follows `value`.
pub open spec fn ladder_next(value: u8) -> Option<u8> {
    if value == 1 {
        Some(3u8)
    } else if value == 3 {
        Some(6u8)
    } else if value == 6 {
        Some(9u8)
    } else if value == 9 {
        Some(12u8)
    } else {
        None
    }
}

/// Whether `value` is one of the values a hand can be worth.
pub open spec fn on_ladder(value: u8) -> bool {
    value == 1 || value == 3 || value == 6 || value == 9 || value == 12
}

/// Strength of a face-up card: manilhas (10 + suit) above every plain rank.
pub open spec fn face_strength(card: Card, turnup: Turnup) -> nat {
    if is_manilha_rank(card.rank, turnup) {
        10 + suit_order(card.suit)
    } else {
        rank_order(card.rank)
    }
}

/// Who takes a round in which `first` and `second` were played (none on a tie).
pub open spec fn round_winner(turnup: Turnup, first: PlayedCard, second: PlayedCard) -> Option<
    Player,
> {
    match (first.visibility, second.visibility) {
        (Visibility::Down, Visibility::Down) => None,
        (Visibility::Down, Visibility::Up) => Some(second.player),
        (Visibility::Up, Visibility::Down) => Some(first.player),
        (Visibility::Up, Visibility::Up) => {
            let a = face_strength(first.card, turnup);
            let b = face_strength(second.card, turnup);
            if a > b {
                Some(first.player)
            } else if a < b {
                Some(second.player)
            } else {
                None
            }
        },
    }
}

/// How many of `rounds` were won by `player`.
pub open spec fn wins_of(rounds: Seq<RoundView>, player: Player) -> nat
    decreases rounds.len(),
{
    if rounds.len() == 0 {
        0
    } else {
        wins_of(rounds.drop_last(), player) + if rounds.last().winner == Some(player) {
            1nat
        } else {
            0nat
        }
    }
}

/// Whether some round of `rounds` was tied.
pub open spec fn has_tied_round(rounds: Seq<RoundView>) -> bool {
    exists|i: int| 0 <= i < rounds.len() && (#[trigger] rounds[i]).winner is None
}

/// The winner of the first round of `rounds` that was not tied.
pub open spec fn first_round_winner(rounds: Seq<RoundView>) -> Option<Player>
    decreases rounds.len(),
{
    if rounds.len() == 0 {
        None
    } else if rounds[0].winner is Some {
        rounds[0].winner
    } else {
        first_round_winner(rounds.drop_first())
    }
}

/// Who has won the hand after `rounds`, if anyone: two round wins take it; a win
/// and a tie go to the player who won; after three rounds a 1-1 split goes to the
/// first round's winner, and anything else to the first round's leader.
pub open spec fn hand_winner_of(rounds: Seq<RoundView>, first_leader: Player) -> Option<Player> {
    let zero = wins_of(rounds, 0);
    let one = wins_of(rounds, 1);
    if zero >= 2 {
        Some(0u8)
    } else if one >= 2 {
        Some(1u8)
    } else if rounds.len() >= 2 && zero == 1 && one == 0 && has_tied_round(rounds) {
        Some(0u8)
    } else if rounds.len() >= 2 && one == 1 && zero == 0 && has_tied_round(rounds) {
        Some(1u8)
    } else if rounds.len() == 3 {
        if zero == 1 && one == 1 {
            first_round_winner(rounds)
        } else {
            Some(first_leader)
        }
    } else {
        None
    }
}

/// The leader of the next round: the last round's winner, or its leader on a tie;
/// the dealer's opponent leads the first round.
pub open spec fn next_round_leader(dealer: Player, rounds: Seq<RoundView>) -> Player {
    if rounds.len() > 0 {
        match rounds.last().winner {
            Some(winner) => winner,
            None => rounds.last().leader,
        }
    } else {
        opponent_of(dealer)
    }
}

/// The leader of the hand's first round.
pub open spec fn opening_leader(dealer: Player, rounds: Seq<RoundView>) -> Player {
    if rounds.len() > 0 {
        rounds[0].leader
    } else {
        opponent_of(dealer)
    }
}

/// Whether some player is on eleven points.
pub open spec fn eleven_hand(score: Score) -> bool {
    score.zero == 11 || score.one == 11
}

/// Whether both players are on eleven points.
pub open spec fn both_on_eleven(score: Score) -> bool {
    score.zero == 11 && score.one == 11
}

/// The value a fresh hand starts with.
pub open spec fn opening_hand_value(score: Score) -> u8 {
    if both_on_eleven(score) {
        ELEVEN_AUTO_HAND_VALUE
    } else {
        INITIAL_HAND_VALUE
    }
}

/// The player who must decide whether to play a hand on eleven: the only player on eleven.
pub open spec fn eleven_decider(score: Score) -> Option<Player> {
    if score.zero == 11 && score.one != 11 {
        Some(0u8)
    } else if score.one == 11 && score.zero != 11 {
        Some(1u8)
    } else {
        None
    }
}

/// The winner of the match, if some player has reached the target.
pub open spec fn match_winner_of(score: Score) -> Option<Player> {
    if score.zero >= MATCH_TARGET {
        Some(0u8)
    } else if score.one >= MATCH_TARGET {
        Some(1u8)
    } else {
        None
    }
}

pub fn compare_plays(turnup: &Turnup, first: &PlayedCard, second: &PlayedCard) -> (r: Option<
    Player,
>)
    ensures
        r == round_winner(*turnup, *first, *second),
{
    match (first.visibility, second.visibility) {
        (Visibility::Down, Visibility::Down) => None,
        (Visibility::Down, Visibility::Up) => Some(second.player),
        (Visibility::Up, Visibility::Down) => Some(first.player),
        (Visibility::Up, Visibility::Up) => {
            match compare_face_up_cards(turnup, &first.card, &second.card) {
                Ordering::Greater => Some(first.player),
                Ordering::Less => Some(second.player),
                Ordering::Equal => None,
            }
        },
    }
}

fn compare_face_up_cards(turnup: &Turnup, first: &Card, second: &Card) -> (r: Ordering)
    ensures
        r is Greater <==> face_strength(*first, *turnup) > face_strength(*second, *turnup),
        r is Less <==> face_strength(*first, *turnup) < face_strength(*second, *turnup),
        r is Equal <==> face_strength(*first, *turnup) == face_strength(*second, *turnup),
{
    let first_is_manilha = first.is_manilha(turnup);
    let second_is_manilha = second.is_manilha(turnup);
    if first_is_manilha && !second_is_manilha {
        Ordering::Greater
    } else if !first_is_manilha && second_is_manilha {
        Ordering::Less
    } else if first_is_manilha && second_is_manilha {
        let a = first.suit.manilha_strength();
        let b = second.suit.manilha_strength();
        if a > b {
            Ordering::Greater
        } else if a < b {
            Ordering::Less
        } else {
            Ordering::Equal
        }
    } else {
        let a = first.rank.index();
        let b = second.rank.index();
        if a > b {
            Ordering::Greater
        } else if a < b {
            Ordering::Less
        } else {
            Ordering::Equal
        }
    }
}

proof fn lemma_wins_step(rounds: Seq<RoundView>, i: int, player: Player)
    requires
        0 <= i < rounds.len(),
    ensures
        wins_of(rounds.subrange(0, i + 1), player) == wins_of(rounds.subrange(0, i), player) + (
        if rounds[i].winner == Some(player) {
            1nat
        } else {
            0nat
        }),
{
    assert(rounds.subrange(0, i + 1).drop_last() =~= rounds.subrange(0, i));
}

proof fn lemma_first_winner_step(rounds: Seq<RoundView>, i: int)
    requires
        0 <= i < rounds.len(),
        rounds[i].winner is None,
    ensures
        first_round_winner(rounds.subrange(i, rounds.len() as int)) == first_round_winner(
            rounds.subrange(i + 1, rounds.len() as int),
        ),
{
    assert(rounds.subrange(i, rounds.len() as int).drop_first() =~= rounds.subrange(
        i + 1,
        rounds.len() as int,
    ));
}

pub fn decide_hand_winner(rounds: &[CompletedRound], first_round_leader: Player) -> (r: Option<
    Player,
>)
    ensures
        r == hand_winner_of(round_views(rounds@), first_round_leader),
{
    let ghost views = round_views(rounds@);
    let mut wins_zero: usize = 0;
    let mut wins_one: usize = 0;
    let mut tie = false;
    let mut first_winner: Option<Player> = None;
    let mut i: usize = 0;
    assert(views.subrange(0, 0) =~= Seq::<RoundView>::empty());
    assert(views.subrange(0, views.len() as int) =~= views);
    while i < rounds.len()
        invariant
            i <= rounds@.len(),
            views == round_views(rounds@),
            views.len() == rounds@.len(),
            wins_zero == wins_of(views.subrange(0, i as int), 0),
            wins_one == wins_of(views.subrange(0, i as int), 1),
            wins_zero + wins_one <= i,
            tie <==> exists|j: int| 0 <= j < i && (#[trigger] views[j]).winner is None,
            first_round_winner(views) == match first_winner {
                Some(w) => Some(w),
                None => first_round_winner(views.subrange(i as int, views.len() as int)),
            },
            first_winner is None ==> forall|j: int| 0 <= j < i ==> (#[trigger] views[j]).winner is None,
        decreases rounds@.len() - i,
    {
        proof {
            lemma_wins_step(views, i as int, 0);
            lemma_wins_step(views, i as int, 1);
        }
        let winner = rounds[i].winner;
        assert(winner == views[i as int].winner);
        if winner == Some(0u8) {
            wins_zero += 1;
        } else if winner == Some(1u8) {
            wins_one += 1;
        }
        match winner {
            None => {
                tie = true;
                proof {
                    if first_winner is None {
                        lemma_first_winner_step(views, i as int);
                    }
                }
            },
            Some(w) => {
                if first_winner.is_none() {
                    proof {
                        let rest = views.subrange(i as int, views.len() as int);
                        assert(rest[0] == views[i as int]);
                    }
                    first_winner = Some(w);
                }
            },
        }
        i += 1;
    }
    assert(views.subrange(0, i as int) =~= views);
    proof {
        if first_winner is None {
            assert(views.subrange(i as int, views.len() as int).len() == 0);
        }
    }
    if wins_zero >= 2 {
        return Some(0);
    }
    if wins_one >= 2 {
        return Some(1);
    }
    if rounds.len() >= 2 {
        if wins_zero == 1 && wins_one == 0 && tie {
            return Some(0);
        }
        if wins_one == 1 && wins_zero == 0 && tie {
            return Some(1);
        }
    }
    if rounds.len() == 3 {
        if wins_zero == 1 && wins_one == 1 {
            return first_winner;
        }
        return Some(first_round_leader);
    }
    None
}

pub fn expected_round_leader(dealer: Player, completed_rounds: &[CompletedRound]) -> (r: Player)
    ensures
        r == next_round_leader(dealer, round_views(completed_rounds@)),
{
    let n = completed_rounds.len();
    if n > 0 {
        let last = &completed_rounds[n - 1];
        match last.winner {
            Some(winner) => winner,
            None => last.leader,
        }
    } else {
        other_player(dealer)
    }
}

pub fn first_round_leader(dealer: Player, completed_rounds: &[CompletedRound]) -> (r: Player)
    ensures
        r == opening_leader(dealer, round_views(completed_rounds@)),
{
    if completed_rounds.len() > 0 {
        completed_rounds[0].leader
    } else {
        other_player(dealer)
    }
}

pub fn next_raise_after(value: u8) -> (r: Option<u8>)
    ensures
        r == ladder_next(value),
{
    let mut index: usize = 0;
    while index < 5
        invariant
            index <= 5,
            forall|j: int| 0 <= j < index ==> RAISE_LADDER@[j] != value,
        decreases 5 - index,
    {
        if RAISE_LADDER[index] == value {
            if index + 1 < 5 {
                return Some(RAISE_LADDER[index + 1]);
            } else {
                return None;
            }
        }
        index += 1;
    }
    None
}

pub fn other_player(player: Player) -> (r: Player)
    ensures
        r == opponent_of(player),
{
    if player == 0 { 1 } else { 0 }
}

pub fn is_player(player: Player) -> (r: bool)
    ensures
        r == is_player_id(player),
{
    player == 0 || player == 1
}

pub fn score_triggers_eleven_hand(score: &Score) -> (r: bool)
    ensures
        r == eleven_hand(*score),
{
    score.zero == 11 || score.one == 11
}

pub fn both_players_on_eleven(score: &Score) -> (r: bool)
    ensures
        r == both_on_eleven(*score),
{
    score.zero == 11 && score.one == 11
}

pub fn starting_hand_value(score: &Score) -> (r: u8)
    ensures
        r == opening_hand_value(*score),
{
    if both_players_on_eleven(score) {
        ELEVEN_AUTO_HAND_VALUE
    } else {
        INITIAL_HAND_VALUE
    }
}

pub fn eleven_hand_decision_player(score: &Score) -> (r: Option<Player>)
    ensures
        r == eleven_decider(*score),
{
    if score.zero == 11 && score.one != 11 {
        Some(0)
    } else if score.one == 11 && score.zero != 11 {
        Some(1)
    } else {
        None
    }
}

pub fn score_winner(score: &Score) -> (r: Option<Player>)
    ensures
        r == match_winner_of(*score),
{
    if score.zero >= MATCH_TARGET {
        Some(0)
    } else if score.one >= MATCH_TARGET {
        Some(1)
    } else {
        None
    }
}

/// Round laws: a face-down card never takes a round from a face-up one, whichever was
/// played first; two face-down cards tie; and the order of play does not change who
/// takes the round.
pub proof fn lemma_round_winner_laws(turnup: Turnup, a: PlayedCard, b: PlayedCard)
    ensures
        a.visibility == Visibility::Up && b.visibility == Visibility::Down ==> round_winner(
            turnup,
            a,
            b,
        ) == Some(a.player) && round_winner(turnup, b, a) == Some(a.player),
        a.visibility == Visibility::Down && b.visibility == Visibility::Down ==> round_winner(
            turnup,
            a,
            b,
        ) is None,
        round_winner(turnup, a, b) == round_winner(turnup, b, a),
        round_winner(turnup, a, b) matches Some(w) ==> w == a.player || w == b.player,
        a.visibility == Visibility::Up && b.visibility == Visibility::Up && face_strength(a.card, turnup)
            > face_strength(b.card, turnup) ==> round_winner(turnup, a, b) == Some(a.player),
        a.visibility == Visibility::Up && b.visibility == Visibility::Up && face_strength(a.card, turnup)
            == face_strength(b.card, turnup) ==> round_winner(turnup, a, b) is None,
{
}

/// Face-up, manilhas rank by suit (clubs, hearts, spades, diamonds from the strongest)
/// and plain cards by rank (three, two, ace, king, jack, queen, seven, six, five, four
/// from the strongest); equal plain ranks tie.
pub proof fn lemma_face_up_order(turnup: Turnup, a: PlayedCard, b: PlayedCard)
    requires
        a.visibility == Visibility::Up,
        b.visibility == Visibility::Up,
    ensures
        is_manilha_rank(a.card.rank, turnup) && is_manilha_rank(b.card.rank, turnup) && suit_order(
            a.card.suit,
        ) > suit_order(b.card.suit) ==> round_winner(turnup, a, b) == Some(a.player),
        !is_manilha_rank(a.card.rank, turnup) && !is_manilha_rank(b.card.rank, turnup) && rank_order(
            a.card.rank,
        ) > rank_order(b.card.rank) ==> round_winner(turnup, a, b) == Some(a.player),
        !is_manilha_rank(a.card.rank, turnup) && !is_manilha_rank(b.card.rank, turnup) && a.card.rank
            == b.card.rank ==> round_winner(turnup, a, b) is None,
{
}

/// Face-up, every manilha beats every plain card.
pub proof fn lemma_manilha_beats_plain(turnup: Turnup, a: PlayedCard, b: PlayedCard)
    requires
        a.visibility == Visibility::Up,
        b.visibility == Visibility::Up,
        is_manilha_rank(a.card.rank, turnup),
        !is_manilha_rank(b.card.rank, turnup),
    ensures
        round_winner(turnup, a, b) == Some(a.player),
        round_winner(turnup, b, a) == Some(a.player),
{
    assert(rank_order(b.card.rank) <= 9);
}

/// The other player, as an optional winner.
pub open spec fn swapped_winner(w: Option<Player>) -> Option<Player> {
    match w {
        Some(p) => Some(opponent_of(p)),
        None => None,
    }
}

/// The rounds with the two players' round wins exchanged.
pub open spec fn swapped_rounds(rounds: Seq<RoundView>) -> Seq<RoundView> {
    rounds.map_values(|r: RoundView| RoundView { winner: swapped_winner(r.winner), ..r })
}

proof fn lemma_swapped_wins(rounds: Seq<RoundView>, p: Player)
    requires
        is_player_id(p),
        forall|i: int| 0 <= i < rounds.len() ==> ((#[trigger] rounds[i]).winner matches Some(w) ==> is_player_id(w)),
    ensures
        wins_of(swapped_rounds(rounds), opponent_of(p)) == wins_of(rounds, p),
    decreases rounds.len(),
{
    if rounds.len() > 0 {
        assert(swapped_rounds(rounds).drop_last() =~= swapped_rounds(rounds.drop_last()));
        assert forall|i: int| 0 <= i < rounds.drop_last().len() implies ((#[trigger] rounds.drop_last()[i]).winner matches Some(w) ==> is_player_id(w)) by {
            assert(rounds.drop_last()[i] == rounds[i]);
        }
        lemma_swapped_wins(rounds.drop_last(), p);
        assert(rounds.last() == rounds[rounds.len() - 1]);
    }
}

proof fn lemma_swapped_first_winner(rounds: Seq<RoundView>)
    ensures
        first_round_winner(swapped_rounds(rounds)) == swapped_winner(first_round_winner(rounds)),
    decreases rounds.len(),
{
    if rounds.len() > 0 {
        assert(swapped_rounds(rounds).drop_first() =~= swapped_rounds(rounds.drop_first()));
        lemma_swapped_first_winner(rounds.drop_first());
    }
}

/// The hand winner does not favour either seat: exchanging the players' round wins and
/// the first leader exchanges who takes the hand.
pub proof fn lemma_hand_winner_symmetric(rounds: Seq<RoundView>, first_leader: Player)
    requires
        is_player_id(first_leader),
        rounds.len() <= 3,
        forall|i: int| 0 <= i < rounds.len() ==> ((#[trigger] rounds[i]).winner matches Some(w) ==> is_player_id(w)),
    ensures
        hand_winner_of(swapped_rounds(rounds), opponent_of(first_leader)) == swapped_winner(
            hand_winner_of(rounds, first_leader),
        ),
{
    lemma_swapped_wins(rounds, 0);
    lemma_swapped_wins(rounds, 1);
    lemma_swapped_first_winner(rounds);
    lemma_wins_total(rounds);
    let sw = swapped_rounds(rounds);
    assert(has_tied_round(sw) == has_tied_round(rounds)) by {
        if has_tied_round(rounds) {
            let i = choose|i: int| 0 <= i < rounds.len() && (#[trigger] rounds[i]).winner is None;
            assert(sw[i].winner is None);
        }
        if has_tied_round(sw) {
            let i = choose|i: int| 0 <= i < sw.len() && (#[trigger] sw[i]).winner is None;
            assert(rounds[i].winner is None);
        }
    }
}

/// Two rounds, one won by `p` and one tied, in either order, give `p` the hand.
pub proof fn lemma_win_and_tie_takes_hand(rounds: Seq<RoundView>, first_leader: Player, p: Player)
    requires
        is_player_id(p),
        rounds.len() == 2,
        (rounds[0].winner == Some(p) && rounds[1].winner is None) || (rounds[0].winner is None
            && rounds[1].winner == Some(p)),
    ensures
        hand_winner_of(rounds, first_leader) == Some(p),
{
    reveal_with_fuel(wins_of, 3);
    assert(rounds.drop_last().drop_last() =~= Seq::<RoundView>::empty());
    assert(rounds.drop_last()[0] == rounds[0]);
    assert(rounds.drop_last().last() == rounds[0]);
    assert(rounds.last() == rounds[1]);
    if rounds[0].winner is None {
        assert(rounds[0].winner is None);
    } else {
        assert(rounds[1].winner is None);
    }
}

/// No more rounds are won than played.
proof fn lemma_wins_total(rounds: Seq<RoundView>)
    ensures
        wins_of(rounds, 0) + wins_of(rounds, 1) <= rounds.len(),
    decreases rounds.len(),
{
    if rounds.len() > 0 {
        lemma_wins_total(rounds.drop_last());
    }
}

/// Two rounds won by the same player give that player the hand.
pub proof fn lemma_two_wins_take_hand(rounds: Seq<RoundView>, first_leader: Player, p: Player, i: int, j: int)
    requires
        is_player_id(p),
        rounds.len() <= 3,
        0 <= i < j < rounds.len(),
        rounds[i].winner == Some(p),
        rounds[j].winner == Some(p),
    ensures
        hand_winner_of(rounds, first_leader) == Some(p),
{
    lemma_wins_at_least_two(rounds, p, i, j);
    lemma_wins_total(rounds);
}

/// Three tied rounds give the hand to the first round's leader.
pub proof fn lemma_all_tied_leader_takes_hand(rounds: Seq<RoundView>, first_leader: Player)
    requires
        rounds.len() == 3,
        forall|i: int| 0 <= i < 3 ==> (#[trigger] rounds[i]).winner is None,
    ensures
        hand_winner_of(rounds, first_leader) == Some(first_leader),
{
    reveal_with_fuel(wins_of, 4);
    assert(rounds.drop_last().last() == rounds[1]);
    assert(rounds.drop_last().drop_last().last() == rounds[0]);
}

/// After three rounds with one win each and a tie, the hand goes to whoever won the
/// earlier of the two decided rounds.
pub proof fn lemma_split_rounds_first_winner_takes_hand(rounds: Seq<RoundView>, first_leader: Player, p: Player, i: int, j: int)
    requires
        is_player_id(p),
        rounds.len() == 3,
        0 <= i < j < 3,
        rounds[i].winner == Some(p),
        rounds[j].winner == Some(opponent_of(p)),
        forall|k: int| 0 <= k < 3 && k != i && k != j ==> (#[trigger] rounds[k]).winner is None,
    ensures
        hand_winner_of(rounds, first_leader) == Some(p),
{
    reveal_with_fuel(wins_of, 4);
    reveal_with_fuel(first_round_winner, 4);
    assert(rounds.drop_last().last() == rounds[1]);
    assert(rounds.drop_last().drop_last().last() == rounds[0]);
    assert(rounds.drop_first()[0] == rounds[1]);
    assert(rounds.drop_first().drop_first()[0] == rounds[2]);
    if i == 0 {
        assert(rounds[0].winner is Some);
    } else {
        assert(rounds[0].winner is None);
        assert(rounds.drop_first()[0].winner is Some);
    }
}

proof fn lemma_wins_at_least_two(rounds: Seq<RoundView>, p: Player, i: int, j: int)
    requires
        0 <= i < j < rounds.len(),
        rounds[i].winner == Some(p),
        rounds[j].winner == Some(p),
    ensures
        wins_of(rounds, p) >= 2,
    decreases rounds.len(),
{
    let n = rounds.len();
    if j < n - 1 {
        assert(rounds.drop_last()[i] == rounds[i]);
        assert(rounds.drop_last()[j] == rounds[j]);
        lemma_wins_at_least_two(rounds.drop_last(), p, i, j);
    } else {
        lemma_wins_at_least_one(rounds.drop_last(), p, i);
    }
}

proof fn lemma_wins_at_least_one(rounds: Seq<RoundView>, p: Player, i: int)
    requires
        0 <= i < rounds.len(),
        rounds[i].winner == Some(p),
    ensures
        wins_of(rounds, p) >= 1,
    decreases rounds.len(),
{
    if i < rounds.len() - 1 {
        assert(rounds.drop_last()[i] == rounds[i]);
        lemma_wins_at_least_one(rounds.drop_last(), p, i);
    }
}

} // verus!
