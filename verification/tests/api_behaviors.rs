use truco_engine::actions::Action;
use truco_engine::api::{ApiMatch, HandStart, MatchConfig};
use truco_engine::cards::{Card, Rank, Suit, Turnup};
use truco_engine::engine_types::PublicCard;
use truco_engine::lists::CardList;
use truco_engine::state::{Hands, Score};

fn card(id: &str, rank: Rank, suit: Suit) -> Card {
    Card { id: id.to_string(), rank, suit }
}

fn sample_hand_start() -> HandStart {
    HandStart {
        turnup: Turnup { rank: Rank::Ace, suit: Suit::Spades },
        hands: Hands {
            zero: CardList::from_vec(vec![
                card("p0c0", Rank::Seven, Suit::Diamonds),
                card("p0c1", Rank::Six, Suit::Clubs),
                card("p0c2", Rank::Four, Suit::Hearts),
            ]),
            one: CardList::from_vec(vec![
                card("p1c0", Rank::Three, Suit::Clubs),
                card("p1c1", Rank::Five, Suit::Spades),
                card("p1c2", Rank::Four, Suit::Diamonds),
            ]),
        },
    }
}

fn new_match() -> ApiMatch {
    ApiMatch::new(MatchConfig { starting_dealer: 1, score: Score { zero: 0, one: 0 } })
        .expect("api match should initialize")
}

#[test]
fn api_match_snapshot_has_stable_shape_before_hand_starts() {
    let snapshot = new_match().public_view();
    assert_eq!(snapshot.score, Score { zero: 0, one: 0 });
    assert_eq!(snapshot.winner, None);
    assert_eq!(snapshot.next_dealer, 1);
    assert_eq!(snapshot.current_player, None);
    assert!(!snapshot.hand_in_progress);
    assert!(snapshot.hand.is_none());
}

#[test]
fn api_match_can_start_hand_and_return_snapshot() {
    let mut game = new_match();
    let snapshot = game.start_hand(sample_hand_start()).expect("hand should start");

    assert_eq!(snapshot.next_dealer, 1);
    assert_eq!(snapshot.current_player, Some(0));
    assert!(snapshot.hand_in_progress);
    assert_eq!(snapshot.hand.as_ref().expect("hand state should be present").current_round.leader, 0);
}

#[test]
fn api_match_can_apply_action_and_return_json_result() {
    let mut game = new_match();
    game.start_hand(sample_hand_start()).expect("hand should start");

    let result = game
        .apply_action_for_current_player(&Action::PlayFaceUp { card_id: "p0c0".to_string() })
        .expect("action should succeed");

    assert_eq!(result.acted_by, 0);
    assert_eq!(result.snapshot.current_player, Some(1));
    assert_eq!(
        result.snapshot.hand.expect("hand").current_round.plays[0].card,
        Some(PublicCard { rank: Rank::Seven, suit: Suit::Diamonds })
    );
}

#[test]
fn api_match_legal_actions_include_concede_hand() {
    let mut game = new_match();
    game.start_hand(sample_hand_start()).expect("hand should start");

    let legal_actions = game.legal_actions_for_current_player().expect("legal actions should serialize");
    assert!(legal_actions.iter().any(|action| *action == Action::ConcedeHand));
}
