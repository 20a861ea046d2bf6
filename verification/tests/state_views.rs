use truco_engine::actions::Action;
use truco_engine::api::{ApiMatch, HandStart, MatchConfig};
use truco_engine::cards::{Card, Rank, Suit, Turnup};
use truco_engine::engine::Engine;
use truco_engine::engine_types::PublicCompletedRound;
use truco_engine::error::EngineError;
use truco_engine::game_match::Match;
use truco_engine::lists::{CardList, PlayList, RoundList};
use truco_engine::match_types::{EngineState, MatchState};
use truco_engine::state::{
    CompletedRound, CurrentRound, GameState, Hands, PendingRaise, PlayedCard, Player, Score,
    Visibility,
};

fn card(id: &str, rank: Rank, suit: Suit) -> Card {
    Card { id: id.to_string(), rank, suit }
}

fn sample_turnup() -> Turnup {
    Turnup { rank: Rank::Ace, suit: Suit::Spades }
}

fn sample_hands() -> Hands {
    Hands {
        zero: CardList::from_vec(vec![
            card("p0c0", Rank::Seven, Suit::Diamonds),
            card("p0c1", Rank::Six, Suit::Clubs),
            card("p0c2", Rank::Four, Suit::Hearts),
        ]),
        one: CardList::from_vec(vec![
            card("p1c0", Rank::Three, Suit::Clubs),
            card("p1c1", Rank::Five, Suit::Spades),
            card("p1c2", Rank::Four, Suit::Diamonds),
        ]),
    }
}

fn zero_score() -> Score {
    Score { zero: 0, one: 0 }
}

fn play_up(id: &str) -> Action {
    Action::PlayFaceUp { card_id: id.to_string() }
}

#[test]
fn engine_state_round_trips_after_hand_is_decided() {
    let mut engine = Engine::new_hand(1, zero_score(), sample_turnup(), sample_hands())
        .expect("engine should initialize");
    engine.apply_action_for_current_player(&Action::Raise { to: 3 }).expect("raise should succeed");
    engine.apply_action_for_current_player(&Action::Fold).expect("fold should end the hand");

    let exported = engine.export_state();
    let restored = Engine::from_exported_state(exported).expect("exported engine state should restore");

    assert!(restored.is_hand_over());
    assert_eq!(restored.hand_winner(), Some(0));
    assert_eq!(restored.match_winner(), None);
    assert_eq!(restored.state().score, Score { zero: 1, one: 0 });
}

#[test]
fn match_state_round_trips_through_api_boundary() {
    let mut game = ApiMatch::new(MatchConfig { starting_dealer: 1, score: zero_score() })
        .expect("api match should initialize");
    game.start_hand(HandStart { turnup: sample_turnup(), hands: sample_hands() }).expect("hand should start");
    game.apply_action_for_current_player(&play_up("p0c0")).expect("action should succeed");

    let exported = game.export_state();
    let restored = ApiMatch::from_state(exported).expect("match state should restore");

    assert_eq!(restored.public_view().current_player, Some(1));
    assert_eq!(
        restored.public_view().hand.expect("hand should be present").current_round.plays.len(),
        1
    );
}

#[test]
fn player_view_includes_private_hand_but_not_opponent_hand() {
    let mut game = Match::new(1, zero_score()).expect("match should initialize");
    game.start_hand(sample_turnup(), sample_hands()).expect("hand should start");
    game.apply_action_for_current_player(&play_up("p0c0")).expect("first play should succeed");

    let player_one_view = game.player_view(1).expect("player view should succeed");

    assert_eq!(player_one_view.player, 1);
    assert_eq!(player_one_view.current_player, Some(1));
    assert_eq!(player_one_view.hand.as_ref().expect("hand should be visible to the player").hand.len(), 3);
    let visible_card = player_one_view
        .hand
        .as_ref()
        .expect("hand should be visible to the player")
        .public_state
        .current_round
        .plays[0]
        .card
        .as_ref()
        .expect("face-up card should stay visible");
    assert_eq!(visible_card.rank, Rank::Seven);
    assert_eq!(visible_card.suit, Suit::Diamonds);
}

#[test]
fn api_match_player_view_serializes_cleanly() {
    let mut game = ApiMatch::new(MatchConfig { starting_dealer: 1, score: zero_score() })
        .expect("api match should initialize");
    game.start_hand(HandStart { turnup: sample_turnup(), hands: sample_hands() }).expect("hand should start");

    let view = game.player_view(0).expect("player view should serialize");

    assert_eq!(view.player, 0);
    assert_eq!(view.score, Score { zero: 0, one: 0 });
    assert_eq!(view.hand.expect("hand list").hand.len(), 3);
}

#[test]
fn completed_rounds_keep_private_plays_while_public_state_stays_summary_only() {
    let mut engine = Engine::new_hand(
        1,
        zero_score(),
        Turnup { rank: Rank::Seven, suit: Suit::Spades },
        Hands {
            zero: CardList::from_vec(vec![
                card("p0c0", Rank::King, Suit::Hearts),
                card("p0c1", Rank::Four, Suit::Clubs),
                card("p0c2", Rank::Queen, Suit::Diamonds),
            ]),
            one: CardList::from_vec(vec![
                card("p1c0", Rank::Four, Suit::Diamonds),
                card("p1c1", Rank::Five, Suit::Clubs),
                card("p1c2", Rank::Jack, Suit::Clubs),
            ]),
        },
    )
    .expect("engine should initialize");

    engine.apply_action_for_current_player(&play_up("p0c0")).expect("first round play should succeed");
    engine.apply_action_for_current_player(&play_up("p1c0")).expect("round should resolve");
    engine
        .apply_action_for_current_player(&Action::PlayFaceDown { card_id: "p0c1".to_string() })
        .expect("second-round hidden play should succeed");
    engine.apply_action_for_current_player(&play_up("p1c1")).expect("second round should resolve");

    let exported = engine.export_state();
    let rounds = exported.state.completed_rounds.as_slice();
    assert_eq!(rounds.len(), 2);
    assert_eq!(rounds[1].plays.len(), 2);
    assert_eq!(rounds[1].plays.as_slice()[0].visibility, Visibility::Down);
    assert_eq!(rounds[1].plays.as_slice()[0].card.rank, Rank::Four);
    assert_eq!(rounds[1].plays.as_slice()[0].card.suit, Suit::Clubs);

    let public_state = engine.public_state();
    assert_eq!(
        public_state.completed_rounds,
        vec![
            PublicCompletedRound { leader: 0, winner: Some(0) },
            PublicCompletedRound { leader: 0, winner: Some(1) },
        ]
    );
}

#[test]
fn exported_state_includes_last_raised_by_after_accepted_raise() {
    let mut engine = Engine::new_hand(1, zero_score(), sample_turnup(), sample_hands())
        .expect("engine should initialize");

    engine.apply_action_for_current_player(&Action::Raise { to: 3 }).expect("raise should succeed");
    engine.apply_action_for_current_player(&Action::AcceptRaise).expect("accept should succeed");

    let exported = engine.export_state();
    assert_eq!(exported.state.last_raised_by, Some(0));
}

fn legacy_hands() -> Hands {
    Hands {
        zero: CardList::from_vec(vec![
            card("p0c0", Rank::Seven, Suit::Diamonds),
            card("p0c1", Rank::Six, Suit::Clubs),
            card("p0c2", Rank::Four, Suit::Hearts),
        ]),
        one: CardList::from_vec(vec![
            card("p1c0", Rank::Seven, Suit::Clubs),
            card("p1c1", Rank::Five, Suit::Spades),
            card("p1c2", Rank::Four, Suit::Diamonds),
        ]),
    }
}

fn legacy_state(next_player: Player, hand_value: u8, pending_raise: Option<PendingRaise>) -> GameState {
    GameState {
        dealer: 1,
        next_player: Some(next_player),
        score: zero_score(),
        hand_value,
        turnup: sample_turnup(),
        hands: legacy_hands(),
        completed_rounds: RoundList::new(),
        current_round: CurrentRound { leader: 0, plays: PlayList::new() },
        last_raised_by: None,
        pending_raise,
        pending_decision: None,
    }
}

#[test]
fn pending_raise_state_without_last_raised_by_normalizes_on_load() {
    let engine = Engine::from_state(legacy_state(
        1,
        1,
        Some(PendingRaise { raised_by: 0, to: 3, previous_value: 1 }),
    ))
    .expect("legacy pending-raise state should load");

    assert_eq!(engine.state().last_raised_by, Some(0));
}

#[test]
fn fresh_hand_state_without_last_raised_by_normalizes_to_none() {
    let engine = Engine::from_state(legacy_state(0, 1, None)).expect("legacy fresh state should load");

    assert_eq!(engine.state().last_raised_by, None);
}

#[test]
fn accepted_raise_state_without_last_raised_by_is_rejected_as_ambiguous() {
    let error = Engine::from_state(legacy_state(0, 3, None))
        .expect_err("accepted-raised legacy state should be rejected");

    assert_eq!(error, EngineError::InvalidInitialState);
}

#[test]
fn pending_reraise_state_round_trips_after_villain_raises_over_a_hero_play() {
    let mut engine = Engine::new_hand(1, zero_score(), sample_turnup(), sample_hands())
        .expect("engine should initialize");

    engine.apply_action_for_current_player(&play_up("p0c0")).expect("hero should open the round");
    engine.apply_action_for_current_player(&Action::Raise { to: 3 }).expect("villain raise should succeed");
    engine.apply_action_for_current_player(&Action::Raise { to: 6 }).expect("hero re-raise should succeed");

    let exported = engine.export_state();
    assert_eq!(exported.state.last_raised_by, Some(0));
    assert_eq!(exported.state.pending_raise.as_ref().map(|raise| raise.raised_by), Some(0));
    assert_eq!(exported.state.pending_raise.as_ref().map(|raise| raise.to), Some(6));
    assert_eq!(exported.state.pending_raise.as_ref().map(|raise| raise.previous_value), Some(3));
    let restored = Engine::from_exported_state(exported).expect("pending re-raise state should restore");

    assert_eq!(restored.state().hand_value, 1);
    assert_eq!(restored.state().last_raised_by, Some(0));
    assert_eq!(restored.state().pending_raise.as_ref().map(|raise| raise.to), Some(6));
    assert_eq!(restored.state().pending_raise.as_ref().map(|raise| raise.previous_value), Some(3));
    assert_eq!(restored.state().current_round.plays.len(), 1);
    assert_eq!(restored.state().next_player, Some(1));
}

#[test]
fn accepted_reraise_state_round_trips_after_villain_raises_over_a_hero_play() {
    let mut engine = Engine::new_hand(1, zero_score(), sample_turnup(), sample_hands())
        .expect("engine should initialize");

    engine.apply_action_for_current_player(&play_up("p0c0")).expect("hero should open the round");
    engine.apply_action_for_current_player(&Action::Raise { to: 3 }).expect("villain raise should succeed");
    engine.apply_action_for_current_player(&Action::Raise { to: 6 }).expect("hero re-raise should succeed");
    engine
        .apply_action_for_current_player(&Action::AcceptRaise)
        .expect("villain should be able to accept the re-raise");

    let exported = engine.export_state();
    assert_eq!(exported.state.last_raised_by, Some(0));
    assert!(exported.state.pending_raise.is_none());
    let restored = Engine::from_exported_state(exported).expect("accepted re-raise state should restore");

    assert_eq!(restored.state().hand_value, 6);
    assert_eq!(restored.state().last_raised_by, Some(0));
    assert!(restored.state().pending_raise.is_none());
    assert_eq!(restored.state().current_round.plays.len(), 1);
    assert_eq!(restored.state().next_player, Some(1));
}

#[test]
fn accepted_reraise_state_round_trips_when_villain_raises_before_leading_round_two() {
    let mut game = Match::new(1, Score { zero: 3, one: 1 }).expect("match should initialize");
    game.start_hand(
        Turnup { rank: Rank::Jack, suit: Suit::Spades },
        Hands {
            zero: CardList::from_vec(vec![
                card("p0c0", Rank::Five, Suit::Diamonds),
                card("p0c1", Rank::Seven, Suit::Clubs),
                card("p0c2", Rank::Three, Suit::Hearts),
            ]),
            one: CardList::from_vec(vec![
                card("p1c0", Rank::Six, Suit::Spades),
                card("p1c1", Rank::Two, Suit::Spades),
                card("p1c2", Rank::Three, Suit::Clubs),
            ]),
        },
    )
    .expect("hand should start");

    game.apply_action_for_current_player(&play_up("p0c0")).expect("hero should open the first round");
    game.apply_action_for_current_player(&play_up("p1c0")).expect("villain should win the first round");
    game.apply_action_for_current_player(&Action::Raise { to: 3 })
        .expect("villain should be able to raise before leading round two");
    game.apply_action_for_current_player(&Action::Raise { to: 6 }).expect("hero should be able to re-raise");
    game.apply_action_for_current_player(&Action::AcceptRaise)
        .expect("villain should be able to accept the re-raise");

    let exported = game.export_state();
    let restored = Match::from_state(exported).expect("accepted re-raise state should restore cleanly");
    let restored_hand = restored.current_hand().expect("hand should still be active");

    assert_eq!(restored_hand.state().hand_value, 6);
    assert_eq!(restored_hand.state().current_round.leader, 1);
    assert_eq!(restored.current_player(), Some(1));
    assert!(restored_hand.state().pending_raise.is_none());
}

fn up(player: Player, id: &str, rank: Rank, suit: Suit) -> PlayedCard {
    PlayedCard { player, visibility: Visibility::Up, card: card(id, rank, suit) }
}

#[test]
fn accepted_raise_state_round_trips_after_split_rounds_reach_the_third_trick() {
    let state = GameState {
        dealer: 1,
        next_player: Some(0),
        score: zero_score(),
        hand_value: 3,
        turnup: Turnup { rank: Rank::Five, suit: Suit::Clubs },
        hands: Hands {
            zero: CardList::from_vec(vec![card("p0c1", Rank::Seven, Suit::Clubs)]),
            one: CardList::from_vec(vec![card("p1c2", Rank::Six, Suit::Spades)]),
        },
        completed_rounds: RoundList::from_vec(vec![
            CompletedRound {
                leader: 0,
                winner: Some(1),
                plays: PlayList::from_vec(vec![
                    up(0, "p0c0", Rank::Five, Suit::Hearts),
                    up(1, "p1c0", Rank::Ace, Suit::Spades),
                ]),
            },
            CompletedRound {
                leader: 1,
                winner: Some(0),
                plays: PlayList::from_vec(vec![
                    up(1, "p1c1", Rank::Two, Suit::Spades),
                    up(0, "p0c2", Rank::Three, Suit::Hearts),
                ]),
            },
        ]),
        current_round: CurrentRound { leader: 0, plays: PlayList::new() },
        last_raised_by: Some(0),
        pending_raise: None,
        pending_decision: None,
    };
    let restored = Match::from_state(MatchState {
        next_dealer: 1,
        score: zero_score(),
        winner: None,
        current_hand: Some(EngineState { state, hand_winner: None, match_winner: None }),
    })
    .expect("split-round raised state should restore");

    let exported = restored.export_state();
    let mut replayed = Match::from_state(exported).expect("round-tripped match should restore");
    replayed.apply_action_for_current_player(&play_up("p0c1")).expect("hero should be able to lead the third round");
    replayed.apply_action_for_current_player(&play_up("p1c2")).expect("villain should answer the third round");

    let finished = replayed.export_state();
    let restored_finished = Match::from_state(finished).expect("finished third-round raised hand should restore");

    assert_eq!(restored_finished.score(), &Score { zero: 0, one: 3 });
    assert_eq!(restored_finished.winner(), None);
    assert!(restored_finished.current_hand().expect("hand").is_hand_over());
    assert_eq!(restored_finished.current_hand().expect("hand").state().current_round.leader, 1);
}
