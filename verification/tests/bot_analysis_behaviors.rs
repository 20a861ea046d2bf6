use rand::rngs::StdRng;
use rand::SeedableRng;
use truco_engine::actions::Action;
use truco_engine::bot_analysis::{analyze_tactical_turn, analyze_tactical_turn_sampled, BotAnalysisError};
use truco_engine::cards::{Card, Rank, Suit, Turnup};
use truco_engine::error::EngineError;
use truco_engine::game_match::Match;
use truco_engine::lists::CardList;
use truco_engine::state::{Hands, Score};

fn card(id: &str, rank: Rank, suit: Suit) -> Card {
    Card { id: id.to_string(), rank, suit }
}

fn sample_turnup() -> Turnup {
    Turnup { rank: Rank::Ace, suit: Suit::Spades }
}

fn sample_hands() -> Hands {
    Hands {
        zero: CardList::from_vec(vec![
            card("p0c0", Rank::Four, Suit::Hearts),
            card("p0c1", Rank::Seven, Suit::Diamonds),
            card("p0c2", Rank::Six, Suit::Clubs),
        ]),
        one: CardList::from_vec(vec![
            card("p1c0", Rank::Four, Suit::Diamonds),
            card("p1c1", Rank::Seven, Suit::Hearts),
            card("p1c2", Rank::Five, Suit::Spades),
        ]),
    }
}

fn started_game() -> Match {
    let mut game = Match::new(1, Score { zero: 0, one: 0 }).expect("match should initialize");
    game.start_hand(sample_turnup(), sample_hands()).expect("hand should start");
    game
}

#[test]
fn tactical_analysis_counts_completed_hidden_opponent_information_from_players_view() {
    let mut game = started_game();
    for action in [
        Action::PlayFaceUp { card_id: "p0c0".into() },
        Action::PlayFaceUp { card_id: "p1c0".into() },
        Action::PlayFaceDown { card_id: "p0c1".into() },
        Action::PlayFaceDown { card_id: "p1c1".into() },
    ] {
        game.apply_action_for_current_player(&action).expect("scripted action should apply");
    }

    let analysis = analyze_tactical_turn(&game, 0).expect("analysis should succeed");
    assert_eq!(analysis.action_summaries.len(), 3);
    assert!(analysis.action_summaries.iter().all(|summary| summary.total_determinizations == 1190));
}

#[test]
fn tactical_analysis_counts_current_hidden_opponent_information_from_players_view() {
    let mut game = started_game();
    game.apply_action_for_current_player(&Action::PlayFaceUp { card_id: "p0c0".into() })
        .expect("first play should apply");
    game.apply_action_for_current_player(&Action::PlayFaceUp { card_id: "p1c0".into() })
        .expect("round should resolve");
    game.apply_action_for_current_player(&Action::PlayFaceDown { card_id: "p0c1".into() })
        .expect("hidden play should apply");

    let analysis = analyze_tactical_turn(&game, 1).expect("analysis should succeed");
    assert!(analysis.action_summaries.iter().all(|summary| summary.total_determinizations == 1190));
}

#[test]
fn sampled_tactical_analysis_uses_budget_for_wide_first_response_range() {
    let mut game = started_game();
    game.apply_action_for_current_player(&Action::PlayFaceUp { card_id: "p0c0".into() })
        .expect("first play should apply");

    let mut rng = StdRng::seed_from_u64(42);
    let analysis = analyze_tactical_turn_sampled(&game, 1, 8, &mut rng).expect("analysis should succeed");

    assert_eq!(analysis.action_summaries.len(), 4);
    assert!(analysis
        .action_summaries
        .iter()
        .all(|summary| summary.total_determinizations == 8 && !summary.force_hand_win));
}

#[test]
fn analysis_needs_an_active_hand_and_the_turn() {
    let game = Match::new(1, Score { zero: 0, one: 0 }).expect("match should initialize");
    assert_eq!(
        analyze_tactical_turn(&game, 0).expect_err("no hand yet"),
        BotAnalysisError::Engine(EngineError::NoActiveHand)
    );
    let game = started_game();
    assert_eq!(
        analyze_tactical_turn(&game, 1).expect_err("not seat one's turn"),
        BotAnalysisError::Engine(EngineError::ActOutOfTurn)
    );
}

#[test]
fn sampled_analysis_within_budget_is_exhaustive() {
    let mut game = started_game();
    for action in [
        Action::PlayFaceUp { card_id: "p0c0".into() },
        Action::PlayFaceUp { card_id: "p1c0".into() },
        Action::PlayFaceDown { card_id: "p0c1".into() },
        Action::PlayFaceDown { card_id: "p1c1".into() },
    ] {
        game.apply_action_for_current_player(&action).expect("scripted action should apply");
    }
    let mut rng = StdRng::seed_from_u64(7);
    let sampled = analyze_tactical_turn_sampled(&game, 0, 5000, &mut rng).expect("analysis should succeed");
    let exhaustive = analyze_tactical_turn(&game, 0).expect("analysis should succeed");
    assert_eq!(sampled, exhaustive);
}

#[test]
fn a_known_last_trick_has_exact_values() {
    // Seat zero holds the last manilha with seat one's last card known to it only as
    // hidden; after the first round is won outright the hand is decided by the last cards.
    let mut game = Match::new(1, Score { zero: 0, one: 0 }).expect("match should initialize");
    game.start_hand(
        sample_turnup(),
        Hands {
            zero: CardList::from_vec(vec![
                card("p0c0", Rank::Three, Suit::Hearts),
                card("p0c1", Rank::Two, Suit::Clubs),
                card("p0c2", Rank::Four, Suit::Clubs),
            ]),
            one: CardList::from_vec(vec![
                card("p1c0", Rank::Four, Suit::Diamonds),
                card("p1c1", Rank::Five, Suit::Hearts),
                card("p1c2", Rank::Five, Suit::Spades),
            ]),
        },
    )
    .expect("hand should start");
    for action in [
        Action::PlayFaceUp { card_id: "p0c0".into() },
        Action::PlayFaceUp { card_id: "p1c0".into() },
    ] {
        game.apply_action_for_current_player(&action).expect("scripted action should apply");
    }
    let analysis = analyze_tactical_turn(&game, 0).expect("analysis should succeed");
    // Playing the Two of Clubs, the strongest manilha, face up wins the hand in every
    // determinization: the first round is won and no card beats it.
    let summary = analysis
        .action_summaries
        .iter()
        .find(|s| s.action == Action::PlayFaceUp { card_id: "p0c1".into() })
        .expect("the manilha can be played");
    assert!(summary.force_hand_win);
    assert!(summary.worst_case_signed_points >= 1);
    assert_eq!(summary.winning_determinizations, summary.total_determinizations);
}
