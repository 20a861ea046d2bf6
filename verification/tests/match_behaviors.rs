use truco_engine::actions::Action;
use truco_engine::cards::{Card, Rank, Suit, Turnup};
use truco_engine::error::EngineError;
use truco_engine::game_match::Match;
use truco_engine::lists::CardList;
use truco_engine::state::{Hands, Score};

fn card(id: &str, rank: Rank, suit: Suit) -> Card {
    Card { id: id.to_string(), rank, suit }
}

fn sample_turnup() -> Turnup {
    Turnup { rank: Rank::Ace, suit: Suit::Spades }
}

fn sample_hands() -> Hands {
    Hands {
        zero: CardList::from_vec(vec![
            card("p0c0", Rank::Seven, Suit::Diamonds),
            card("p0c1", Rank::Six, Suit::Clubs),
            card("p0c2", Rank::Four, Suit::Hearts),
        ]),
        one: CardList::from_vec(vec![
            card("p1c0", Rank::Three, Suit::Clubs),
            card("p1c1", Rank::Five, Suit::Spades),
            card("p1c2", Rank::Four, Suit::Diamonds),
        ]),
    }
}

#[test]
fn match_can_start_first_hand_and_delegate_turn_queries() {
    let mut game = Match::new(1, Score { zero: 0, one: 0 }).expect("match should initialize");

    let hand = game.start_hand(sample_turnup(), sample_hands()).expect("first hand should start");

    assert_eq!(hand.current_player(), Some(0));
    assert_eq!(game.current_player(), Some(0));
    let legal_actions = game.legal_actions_for_current_player().expect("legal actions should compute");
    let strategic_actions = game
        .strategic_legal_actions_for_current_player()
        .expect("strategic actions should compute");

    assert!(legal_actions.contains(&Action::ConcedeHand));
    assert!(!strategic_actions.contains(&Action::ConcedeHand));
}

#[test]
fn match_cannot_start_new_hand_while_current_one_is_active() {
    let mut game = Match::new(1, Score { zero: 0, one: 0 }).expect("match should initialize");
    game.start_hand(sample_turnup(), sample_hands()).expect("first hand should start");

    let error = game
        .start_hand(sample_turnup(), sample_hands())
        .expect_err("second hand should be blocked");

    assert_eq!(error, EngineError::HandStillInProgress);
}

#[test]
fn finishing_a_hand_updates_score_and_rotates_dealer() {
    let mut game = Match::new(1, Score { zero: 0, one: 0 }).expect("match should initialize");
    game.start_hand(
        Turnup { rank: Rank::Six, suit: Suit::Spades },
        Hands {
            zero: CardList::from_vec(vec![
                card("p0c0", Rank::Seven, Suit::Diamonds),
                card("p0c1", Rank::Six, Suit::Clubs),
                card("p0c2", Rank::Four, Suit::Hearts),
            ]),
            one: CardList::from_vec(vec![
                card("p1c0", Rank::Five, Suit::Diamonds),
                card("p1c1", Rank::Four, Suit::Clubs),
                card("p1c2", Rank::Three, Suit::Spades),
            ]),
        },
    )
    .expect("hand should start");

    game.apply_action_for_current_player(&Action::Raise { to: 3 }).expect("raise should succeed");
    game.apply_action_for_current_player(&Action::Fold).expect("fold should finish the hand");

    assert_eq!(game.score(), &Score { zero: 1, one: 0 });
    assert_eq!(game.winner(), None);
    assert_eq!(game.dealer_for_next_hand(), 0);
    assert!(game.current_hand().expect("finished hand should still be inspectable").is_hand_over());

    let next_hand = game
        .start_hand(sample_turnup(), sample_hands())
        .expect("next hand should start after the previous one ends");
    assert_eq!(next_hand.state().dealer, 0);
    assert_eq!(game.current_player(), Some(1));
}

#[test]
fn decided_match_cannot_start_new_hand() {
    let mut game = Match::new(1, Score { zero: 12, one: 0 }).expect("match should initialize");

    let error = game
        .start_hand(sample_turnup(), sample_hands())
        .expect_err("decided match should reject new hands");

    assert_eq!(error, EngineError::MatchAlreadyDecided);
}

#[test]
fn match_requires_active_hand_for_delegated_actions() {
    let mut game = Match::new(1, Score { zero: 0, one: 0 }).expect("match should initialize");

    let error = game
        .apply_action_for_current_player(&Action::Raise { to: 3 })
        .expect_err("no active hand should reject delegated action");

    assert_eq!(error, EngineError::NoActiveHand);
}

#[test]
fn match_rejects_unknown_dealers_and_players() {
    assert_eq!(Match::new(2, Score { zero: 0, one: 0 }).err().map(|e| e.code()), Some("INVALID_INITIAL_STATE"));
    let game = Match::new(0, Score { zero: 0, one: 0 }).expect("match should initialize");
    assert_eq!(game.player_view(3).err(), Some(EngineError::InvalidPlayer));
    assert_eq!(game.legal_actions(0).err(), Some(EngineError::NoActiveHand));
    assert_eq!(game.strategic_legal_actions(0).err(), Some(EngineError::NoActiveHand));
    let view = game.public_view();
    assert_eq!(view.current_player, None);
    assert!(!view.hand_in_progress);
    assert!(view.hand.is_none());
}

#[test]
fn exported_match_restores_to_the_same_match() {
    let mut game = Match::new(1, Score { zero: 3, one: 5 }).expect("match should initialize");
    let empty = Match::from_state(game.export_state()).expect("a match without a hand should restore");
    assert_eq!(empty.export_state(), game.export_state());
    assert_eq!(empty.public_view(), game.public_view());

    game.start_hand(sample_turnup(), sample_hands()).expect("hand should start");
    game.apply_action_for_current_player(&Action::PlayFaceUp { card_id: "p0c0".to_string() })
        .expect("play should succeed");
    let restored = Match::from_state(game.export_state()).expect("a live match should restore");
    assert_eq!(restored.export_state(), game.export_state());
    assert_eq!(restored.public_view(), game.public_view());
    assert_eq!(restored.legal_actions_for_current_player(), game.legal_actions_for_current_player());

    let mut tampered = game.export_state();
    tampered.next_dealer = 0;
    assert_eq!(Match::from_state(tampered).unwrap_err(), EngineError::InvalidInitialState);
}

#[test]
fn a_match_is_decided_within_twenty_three_hands() {
    let mut game = Match::new(1, Score { zero: 0, one: 0 }).expect("match should initialize");
    let mut hands_played = 0usize;
    while game.winner().is_none() {
        hands_played += 1;
        assert!(hands_played <= 23);
        game.start_hand(sample_turnup(), sample_hands()).expect("hand should start");
        let mut actions_taken = 0usize;
        while game.current_hand().is_some_and(|hand| !hand.is_hand_over()) {
            actions_taken += 1;
            assert!(actions_taken <= 20);
            let actions = game.legal_actions_for_current_player().expect("live hand offers actions");
            let pick = actions
                .iter()
                .find(|a| matches!(a, Action::PlayFaceUp { .. } | Action::AcceptEleven))
                .unwrap_or(&actions[0])
                .clone();
            game.apply_action_for_current_player(&pick).expect("a listed action applies");
        }
    }
    assert!(game.score().zero == 12 || game.score().one == 12);
}
