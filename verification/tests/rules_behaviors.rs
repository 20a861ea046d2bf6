use truco_engine::cards::{Card, Rank, Suit, Turnup};
use truco_engine::error::EngineError;
use truco_engine::lists::PlayList;
use truco_engine::rules::{
    compare_plays, decide_hand_winner, eleven_hand_decision_player, expected_round_leader,
    first_round_leader, next_raise_after, other_player, score_winner, starting_hand_value,
};
use truco_engine::state::{CompletedRound, PlayedCard, Player, Score, Visibility};

fn round(leader: Player, winner: Option<Player>) -> CompletedRound {
    CompletedRound { leader, winner, plays: PlayList::new() }
}

#[test]
fn hand_winner_covers_the_paulista_tie_ladder() {
    // Two straight wins.
    assert_eq!(decide_hand_winner(&[round(0, Some(1)), round(1, Some(1))], 0), Some(1));
    // Tied first round: round 2 decides immediately.
    assert_eq!(decide_hand_winner(&[round(0, None), round(0, Some(1))], 0), Some(1));
    // Win then tie: the first winner takes the hand.
    assert_eq!(decide_hand_winner(&[round(0, Some(0)), round(0, None)], 0), Some(0));
    // 1-1 after two rounds: still open.
    assert_eq!(decide_hand_winner(&[round(0, Some(0)), round(0, Some(1))], 0), None);
    // 1-1 plus a tied third round: first round's winner.
    assert_eq!(
        decide_hand_winner(&[round(0, Some(1)), round(1, Some(0)), round(0, None)], 0),
        Some(1)
    );
    // Two ties then a win.
    assert_eq!(decide_hand_winner(&[round(0, None), round(0, None), round(0, Some(1))], 0), Some(1));
    // All three tied: the first-round leader (the mao) wins.
    assert_eq!(decide_hand_winner(&[round(1, None), round(1, None), round(1, None)], 1), Some(1));
    // Single completed round decides nothing.
    assert_eq!(decide_hand_winner(&[round(0, Some(0))], 0), None);
    assert_eq!(decide_hand_winner(&[round(0, None)], 0), None);
}

#[test]
fn raise_ladder_steps() {
    assert_eq!(next_raise_after(1), Some(3));
    assert_eq!(next_raise_after(3), Some(6));
    assert_eq!(next_raise_after(6), Some(9));
    assert_eq!(next_raise_after(9), Some(12));
    assert_eq!(next_raise_after(12), None);
    assert_eq!(next_raise_after(2), None);
}

#[test]
fn tied_round_keeps_leader_and_win_moves_it() {
    assert_eq!(expected_round_leader(1, &[]), 0);
    assert_eq!(expected_round_leader(1, &[round(0, Some(1))]), 1);
    assert_eq!(expected_round_leader(1, &[round(0, None)]), 0);
}

fn up(player: Player, rank: Rank, suit: Suit) -> PlayedCard {
    PlayedCard {
        player,
        visibility: Visibility::Up,
        card: Card { id: format!("t{player}{rank:?}{suit:?}"), rank, suit },
    }
}

fn down(player: Player) -> PlayedCard {
    PlayedCard {
        player,
        visibility: Visibility::Down,
        card: Card { id: format!("d{player}"), rank: Rank::Three, suit: Suit::Clubs },
    }
}

#[test]
fn face_down_cards_never_win_and_plain_ranks_can_tie() {
    let turnup = Turnup { rank: Rank::Four, suit: Suit::Spades };

    // Both hidden: tie. Hidden loses to any face-up card, even the weakest.
    assert_eq!(compare_plays(&turnup, &down(0), &down(1)), None);
    assert_eq!(compare_plays(&turnup, &down(0), &up(1, Rank::Four, Suit::Hearts)), Some(1));
    // Equal plain ranks tie regardless of suit.
    assert_eq!(
        compare_plays(&turnup, &up(0, Rank::King, Suit::Clubs), &up(1, Rank::King, Suit::Hearts)),
        None
    );
    // Manilha (turnup 4 -> manilha 5) beats the top plain rank; manilha
    // suits order diamonds < spades < hearts < clubs.
    assert_eq!(
        compare_plays(&turnup, &up(0, Rank::Five, Suit::Diamonds), &up(1, Rank::Three, Suit::Clubs)),
        Some(0)
    );
    assert_eq!(
        compare_plays(&turnup, &up(0, Rank::Five, Suit::Diamonds), &up(1, Rank::Five, Suit::Clubs)),
        Some(1)
    );
}

#[test]
fn manilha_follows_the_turnup_cyclically() {
    assert_eq!(Rank::Three.next_for_manilha(), Rank::Four);
    assert_eq!(Rank::Seven.next_for_manilha(), Rank::Queen);
    let turnup = Turnup { rank: Rank::Three, suit: Suit::Hearts };
    let four = Card { id: "x".to_string(), rank: Rank::Four, suit: Suit::Diamonds };
    assert!(four.is_manilha(&turnup));
    assert_eq!(Rank::Three.index(), 9);
    assert_eq!(Suit::Clubs.manilha_strength(), 3);
    // A manilha of diamonds still beats the top plain card.
    assert_eq!(
        compare_plays(&turnup, &up(0, Rank::Three, Suit::Clubs), &up(1, Rank::Four, Suit::Diamonds)),
        Some(1)
    );
}

#[test]
fn first_round_leader_is_the_dealers_opponent_or_the_recorded_leader() {
    assert_eq!(first_round_leader(1, &[]), 0);
    assert_eq!(first_round_leader(0, &[]), 1);
    assert_eq!(first_round_leader(0, &[round(1, None), round(1, Some(0))]), 1);
    assert_eq!(other_player(0), 1);
    assert_eq!(other_player(1), 0);
}

#[test]
fn eleven_points_rules() {
    assert_eq!(eleven_hand_decision_player(&Score { zero: 11, one: 3 }), Some(0));
    assert_eq!(eleven_hand_decision_player(&Score { zero: 2, one: 11 }), Some(1));
    assert_eq!(eleven_hand_decision_player(&Score { zero: 11, one: 11 }), None);
    assert_eq!(starting_hand_value(&Score { zero: 11, one: 11 }), 3);
    assert_eq!(starting_hand_value(&Score { zero: 11, one: 0 }), 1);
    assert_eq!(score_winner(&Score { zero: 12, one: 3 }), Some(0));
    assert_eq!(score_winner(&Score { zero: 11, one: 12 }), Some(1));
    assert_eq!(score_winner(&Score { zero: 11, one: 11 }), None);
}

#[test]
fn award_saturates_at_the_match_target() {
    let mut score = Score { zero: 10, one: 4 };
    score.award(0, 3);
    assert_eq!(score, Score { zero: 12, one: 4 });
    score.award(1, 255);
    assert_eq!(score, Score { zero: 12, one: 12 });
    let mut fresh = Score { zero: 0, one: 0 };
    fresh.award(1, 6);
    assert_eq!(fresh, Score { zero: 0, one: 6 });
}

#[test]
fn error_codes_are_stable() {
    assert_eq!(EngineError::InvalidInitialState.code(), "INVALID_INITIAL_STATE");
    assert_eq!(EngineError::HideNotAllowedInFirstRound.code(), "HIDE_NOT_ALLOWED_IN_FIRST_ROUND");
    assert_eq!(EngineError::NoPendingElevenDecision.code(), "NO_PENDING_ELEVEN_DECISION");
    assert_eq!(EngineError::SerializationFailed.code(), "SERIALIZATION_FAILED");
}
