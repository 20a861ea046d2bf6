use truco_engine::actions::Action;
use truco_engine::cards::{Card, Rank, Suit, Turnup};
use truco_engine::engine::Engine;
use truco_engine::engine_types::{PublicCompletedRound, PublicPlay};
use truco_engine::error::EngineError;
use truco_engine::lists::{CardList, PlayList, RoundList};
use truco_engine::state::{
    CompletedRound, CurrentRound, GameState, Hands, PendingDecision, PendingDecisionKind,
    PendingRaise, Player, Score, Visibility,
};

fn card(id: &str, rank: Rank, suit: Suit) -> Card {
    Card { id: id.to_string(), rank, suit }
}

fn hands(zero: Vec<Card>, one: Vec<Card>) -> Hands {
    Hands { zero: CardList::from_vec(zero), one: CardList::from_vec(one) }
}

#[allow(clippy::too_many_arguments)]
fn state(
    next_player: Option<Player>,
    score: Score,
    hand_value: u8,
    turnup: Turnup,
    hands: Hands,
    completed_rounds: Vec<CompletedRound>,
    last_raised_by: Option<Player>,
    pending_raise: Option<PendingRaise>,
    pending_decision: Option<PendingDecision>,
) -> GameState {
    GameState {
        dealer: 1,
        next_player,
        score,
        hand_value,
        turnup,
        hands,
        completed_rounds: RoundList::from_vec(completed_rounds),
        current_round: CurrentRound { leader: 0, plays: PlayList::new() },
        last_raised_by,
        pending_raise,
        pending_decision,
    }
}

fn ace_of_spades() -> Turnup {
    Turnup { rank: Rank::Ace, suit: Suit::Spades }
}

fn six_of_spades() -> Turnup {
    Turnup { rank: Rank::Six, suit: Suit::Spades }
}

fn raise_hands() -> Hands {
    hands(
        vec![
            card("p0c0", Rank::Seven, Suit::Diamonds),
            card("p0c1", Rank::Six, Suit::Clubs),
            card("p0c2", Rank::Four, Suit::Hearts),
        ],
        vec![
            card("p1c0", Rank::Seven, Suit::Clubs),
            card("p1c1", Rank::Five, Suit::Spades),
            card("p1c2", Rank::Four, Suit::Diamonds),
        ],
    )
}

fn eleven_hands() -> Hands {
    hands(
        vec![
            card("p0c0", Rank::Seven, Suit::Diamonds),
            card("p0c1", Rank::Six, Suit::Clubs),
            card("p0c2", Rank::Four, Suit::Hearts),
        ],
        vec![
            card("p1c0", Rank::Five, Suit::Diamonds),
            card("p1c1", Rank::Four, Suit::Clubs),
            card("p1c2", Rank::Three, Suit::Spades),
        ],
    )
}

fn zero_score() -> Score {
    Score { zero: 0, one: 0 }
}

fn play_up(id: &str) -> Action {
    Action::PlayFaceUp { card_id: id.to_string() }
}

fn pending_raise_state() -> GameState {
    state(
        Some(1),
        zero_score(),
        1,
        ace_of_spades(),
        raise_hands(),
        vec![],
        None,
        Some(PendingRaise { raised_by: 0, to: 3, previous_value: 1 }),
        None,
    )
}

#[test]
fn pending_raise_limits_legal_actions() {
    let engine = Engine::from_state(pending_raise_state()).expect("state should load");
    let actions = engine.legal_actions(1).expect("legal actions should compute");

    assert!(actions.contains(&Action::AcceptRaise));
    assert!(actions.contains(&Action::Fold));
    assert!(actions.contains(&Action::ConcedeHand));
    assert!(actions.contains(&Action::Raise { to: 6 }));
    assert!(!actions.contains(&play_up("p1c0")));
}

#[test]
fn strategic_legal_actions_exclude_concede_hand() {
    let engine = Engine::from_state(pending_raise_state()).expect("state should load");
    let legal_actions = engine.legal_actions(1).expect("legal actions should compute");
    let strategic_actions = engine.strategic_legal_actions(1).expect("strategic actions should compute");

    assert!(legal_actions.contains(&Action::ConcedeHand));
    assert!(!strategic_actions.contains(&Action::ConcedeHand));
    assert!(strategic_actions.contains(&Action::AcceptRaise));
    assert!(strategic_actions.contains(&Action::Fold));
    assert!(strategic_actions.contains(&Action::Raise { to: 6 }));
}

#[test]
fn hidden_card_is_omitted_from_public_state() {
    let state = state(
        Some(0),
        zero_score(),
        1,
        Turnup { rank: Rank::Seven, suit: Suit::Spades },
        hands(
            vec![card("p0c0", Rank::King, Suit::Hearts), card("p0c1", Rank::Five, Suit::Clubs)],
            vec![card("p1c0", Rank::Four, Suit::Diamonds), card("p1c1", Rank::Six, Suit::Hearts)],
        ),
        vec![CompletedRound { leader: 0, winner: Some(0), plays: PlayList::new() }],
        None,
        None,
        None,
    );

    let mut engine = Engine::from_state(state).expect("state should load");
    engine
        .apply_action(0, &Action::PlayFaceDown { card_id: "p0c0".to_string() })
        .expect("hidden play should be allowed after the first round");

    let public_state = engine.public_state();
    assert_eq!(
        public_state.current_round.plays[0],
        PublicPlay { player: 0, visibility: Visibility::Down, card: None }
    );
}

fn fold_hands() -> Hands {
    hands(
        vec![
            card("p0c0", Rank::Seven, Suit::Diamonds),
            card("p0c1", Rank::Six, Suit::Clubs),
            card("p0c2", Rank::Four, Suit::Hearts),
        ],
        vec![
            card("p1c0", Rank::Five, Suit::Diamonds),
            card("p1c1", Rank::Four, Suit::Clubs),
            card("p1c2", Rank::Three, Suit::Spades),
        ],
    )
}

#[test]
fn fold_awards_previous_hand_value_to_raiser() {
    let state = state(Some(0), zero_score(), 1, six_of_spades(), fold_hands(), vec![], None, None, None);
    let mut engine = Engine::from_state(state).expect("state should load");
    engine.apply_action(0, &Action::Raise { to: 3 }).expect("opening raise should be legal");
    engine.apply_action(1, &Action::Fold).expect("fold should resolve the hand");

    let public_state = engine.public_state();
    assert_eq!(public_state.hand_winner, Some(0));
    assert_eq!(public_state.score, Score { zero: 1, one: 0 });
    assert_eq!(public_state.next_player, None);
}

#[test]
fn concede_hand_awards_current_hand_value_to_opponent() {
    let state = state(Some(0), zero_score(), 3, six_of_spades(), fold_hands(), vec![], Some(1), None, None);
    let mut engine = Engine::from_state(state).expect("state should load");
    engine.apply_action(0, &Action::ConcedeHand).expect("conceding the hand should be legal");

    let public_state = engine.public_state();
    assert_eq!(public_state.hand_winner, Some(1));
    assert_eq!(public_state.score, Score { zero: 0, one: 3 });
    assert_eq!(public_state.next_player, None);
}

#[test]
fn all_three_tied_rounds_award_hand_to_first_leader() {
    let state = state(
        Some(0),
        zero_score(),
        1,
        Turnup { rank: Rank::Four, suit: Suit::Spades },
        hands(
            vec![
                card("p0c0", Rank::Seven, Suit::Diamonds),
                card("p0c1", Rank::Six, Suit::Clubs),
                card("p0c2", Rank::Three, Suit::Hearts),
            ],
            vec![
                card("p1c0", Rank::Seven, Suit::Clubs),
                card("p1c1", Rank::Six, Suit::Spades),
                card("p1c2", Rank::Three, Suit::Diamonds),
            ],
        ),
        vec![],
        None,
        None,
        None,
    );

    let mut engine = Engine::from_state(state).expect("state should load");
    for (player, action) in [
        (0, play_up("p0c0")),
        (1, play_up("p1c0")),
        (0, play_up("p0c1")),
        (1, play_up("p1c1")),
        (0, play_up("p0c2")),
        (1, play_up("p1c2")),
    ] {
        engine.apply_action(player, &action).expect("play should succeed");
    }

    let public_state = engine.public_state();
    assert_eq!(public_state.hand_winner, Some(0));
    assert_eq!(public_state.score, Score { zero: 1, one: 0 });
    let tied = PublicCompletedRound { leader: 0, winner: None };
    assert_eq!(public_state.completed_rounds, vec![tied, tied, tied]);
}

fn decision(player: Player) -> Option<PendingDecision> {
    Some(PendingDecision { kind: PendingDecisionKind::MaoDeOnze, player })
}

#[test]
fn accepts_eleven_without_changing_turn_order() {
    let state = state(
        Some(0),
        Score { zero: 11, one: 0 },
        1,
        six_of_spades(),
        eleven_hands(),
        vec![],
        None,
        None,
        decision(0),
    );
    let mut engine = Engine::from_state(state).expect("state should load");
    engine.apply_action(0, &Action::AcceptEleven).expect("accepting eleven should be legal");

    let public_state = engine.public_state();
    assert_eq!(public_state.hand_value, 3);
    assert_eq!(public_state.pending_decision, None);
    assert_eq!(public_state.next_player, Some(0));
}

#[test]
fn accepts_eleven_and_returns_play_to_the_round_leader() {
    let state = state(
        Some(1),
        Score { zero: 4, one: 11 },
        1,
        six_of_spades(),
        eleven_hands(),
        vec![],
        None,
        None,
        decision(1),
    );
    let mut engine = Engine::from_state(state).expect("state should load");
    engine.apply_action(1, &Action::AcceptEleven).expect("accepting eleven should be legal");

    let public_state = engine.public_state();
    assert_eq!(public_state.hand_value, 3);
    assert_eq!(public_state.pending_decision, None);
    assert_eq!(public_state.next_player, Some(0));
}

#[test]
fn rejects_mao_de_onze_owned_by_the_non_eleven_player() {
    let state = state(
        Some(0),
        Score { zero: 4, one: 11 },
        1,
        six_of_spades(),
        eleven_hands(),
        vec![],
        None,
        None,
        decision(0),
    );
    let error = Engine::from_state(state).expect_err("non-eleven player should not own mao de onze");
    assert_eq!(error, EngineError::InvalidInitialState);
}

fn open_state() -> GameState {
    state(Some(0), zero_score(), 1, ace_of_spades(), raise_hands(), vec![], None, None, None)
}

#[test]
fn accepted_raise_blocks_immediate_reraise_in_legal_actions() {
    let mut engine = Engine::from_state(open_state()).expect("state should load");
    engine.apply_action(0, &Action::Raise { to: 3 }).expect("opening raise should be legal");
    engine.apply_action(1, &Action::AcceptRaise).expect("accepting raise should be legal");

    let actions = engine.legal_actions(0).expect("actions should compute");
    assert!(!actions.contains(&Action::Raise { to: 6 }));
    assert!(actions.contains(&play_up("p0c0")));
}

#[test]
fn accepted_raise_rejects_immediate_reraise_attempt() {
    let mut engine = Engine::from_state(open_state()).expect("state should load");
    engine.apply_action(0, &Action::Raise { to: 3 }).expect("opening raise should be legal");
    engine.apply_action(1, &Action::AcceptRaise).expect("accepting raise should be legal");

    let error = engine
        .apply_action(0, &Action::Raise { to: 6 })
        .expect_err("same player should not re-raise immediately");
    assert_eq!(error, EngineError::RaiseNotAllowed);
}

#[test]
fn accepted_raise_keeps_card_play_legal_for_original_raiser() {
    let mut engine = Engine::from_state(open_state()).expect("state should load");
    engine.apply_action(0, &Action::Raise { to: 3 }).expect("opening raise should be legal");
    engine.apply_action(1, &Action::AcceptRaise).expect("accepting raise should be legal");
    engine.apply_action(0, &play_up("p0c0")).expect("raiser should still be able to play a card");

    let public_state = engine.public_state();
    assert_eq!(public_state.hand_value, 3);
    assert_eq!(public_state.current_round.plays[0].player, 0);
    assert_eq!(public_state.next_player, Some(1));
}

#[test]
fn responder_can_still_reraise_while_raise_is_pending() {
    let state = state(
        Some(0),
        zero_score(),
        1,
        ace_of_spades(),
        hands(
            vec![
                card("p0c0", Rank::Three, Suit::Diamonds),
                card("p0c1", Rank::Seven, Suit::Clubs),
                card("p0c2", Rank::Four, Suit::Hearts),
            ],
            vec![
                card("p1c0", Rank::King, Suit::Clubs),
                card("p1c1", Rank::Six, Suit::Spades),
                card("p1c2", Rank::Five, Suit::Diamonds),
            ],
        ),
        vec![],
        None,
        None,
        None,
    );
    let mut engine = Engine::from_state(state).expect("state should load");
    engine.apply_action(0, &Action::Raise { to: 3 }).expect("opening raise should be legal");
    engine
        .apply_action(1, &Action::Raise { to: 6 })
        .expect("re-raise should remain legal for the responder");

    let public_state = engine.public_state();
    let pending = public_state.pending_raise.expect("a raise is pending");
    assert_eq!(pending.raised_by, 1);
    assert_eq!(pending.to, 6);
    assert_eq!(public_state.next_player, Some(0));
}

#[test]
fn opponent_can_raise_after_original_raiser_plays() {
    let mut engine = Engine::from_state(open_state()).expect("state should load");
    engine.apply_action(0, &Action::Raise { to: 3 }).expect("opening raise should be legal");
    engine.apply_action(1, &Action::AcceptRaise).expect("accepting raise should be legal");
    engine.apply_action(0, &play_up("p0c0")).expect("raiser should be able to play");

    let actions = engine.legal_actions(1).expect("actions should compute");
    assert!(actions.contains(&Action::Raise { to: 6 }));
}

#[test]
fn rejects_hidden_card_in_first_round() {
    let state = state(
        Some(0),
        zero_score(),
        1,
        ace_of_spades(),
        hands(
            vec![
                card("p0c0", Rank::Seven, Suit::Diamonds),
                card("p0c1", Rank::Six, Suit::Clubs),
                card("p0c2", Rank::Four, Suit::Hearts),
            ],
            vec![
                card("p1c0", Rank::Three, Suit::Clubs),
                card("p1c1", Rank::Five, Suit::Spades),
                card("p1c2", Rank::Four, Suit::Diamonds),
            ],
        ),
        vec![],
        None,
        None,
        None,
    );
    let mut engine = Engine::from_state(state).expect("state should load");
    let error = engine
        .apply_action(0, &Action::PlayFaceDown { card_id: "p0c0".to_string() })
        .expect_err("first-round hidden play should be rejected");

    assert_eq!(error, EngineError::HideNotAllowedInFirstRound);
}

fn fresh_hands() -> Hands {
    hands(
        vec![
            card("p0c0", Rank::Seven, Suit::Diamonds),
            card("p0c1", Rank::Six, Suit::Clubs),
            card("p0c2", Rank::Four, Suit::Hearts),
        ],
        vec![
            card("p1c0", Rank::Three, Suit::Clubs),
            card("p1c1", Rank::Five, Suit::Spades),
            card("p1c2", Rank::Four, Suit::Diamonds),
        ],
    )
}

#[test]
fn can_start_a_fresh_hand_without_manual_state_plumbing() {
    let engine = Engine::new_hand(1, zero_score(), ace_of_spades(), fresh_hands())
        .expect("fresh hand should initialize");

    assert_eq!(engine.current_player(), Some(0));
    assert!(!engine.is_hand_over());
    assert!(!engine.is_match_over());
    assert_eq!(engine.state().current_round.leader, 0);
    assert!(engine.legal_actions_for_current_player().is_ok());
}

#[test]
fn fresh_hand_on_eleven_opens_with_pending_decision() {
    let engine = Engine::new_hand(1, Score { zero: 11, one: 0 }, six_of_spades(), eleven_hands())
        .expect("fresh hand on eleven should initialize");

    let actions = engine
        .legal_actions_for_current_player()
        .expect("current player should have legal actions");
    assert_eq!(engine.current_player(), Some(0));
    assert!(actions.contains(&Action::AcceptEleven));
    assert!(actions.contains(&Action::FoldEleven));
    assert!(actions.contains(&Action::ConcedeHand));
}

#[test]
fn fresh_hand_on_eleven_assigns_the_decision_to_the_player_on_eleven() {
    let engine = Engine::new_hand(1, Score { zero: 4, one: 11 }, six_of_spades(), eleven_hands())
        .expect("fresh hand on eleven should initialize");

    let actions = engine
        .legal_actions_for_current_player()
        .expect("the player on eleven should receive the decision");
    assert_eq!(engine.current_player(), Some(1));
    assert!(actions.contains(&Action::AcceptEleven));
    assert!(actions.contains(&Action::FoldEleven));
    assert!(actions.contains(&Action::ConcedeHand));
}

#[test]
fn fresh_hand_with_both_players_on_eleven_starts_playing_for_three() {
    let engine = Engine::new_hand(1, Score { zero: 11, one: 11 }, six_of_spades(), eleven_hands())
        .expect("fresh hand with both players on eleven should initialize");

    let actions = engine
        .legal_actions_for_current_player()
        .expect("the round leader should be able to play immediately");
    assert_eq!(engine.current_player(), Some(0));
    assert_eq!(engine.state().hand_value, 3);
    assert!(engine.state().pending_decision.is_none());
    assert!(!actions.contains(&Action::AcceptEleven));
    assert!(!actions.contains(&Action::FoldEleven));
    assert!(actions.contains(&Action::ConcedeHand));
    assert!(actions.contains(&play_up("p0c0")));
}

#[test]
fn rejects_pending_mao_de_onze_when_both_players_are_on_eleven() {
    let state = state(
        Some(0),
        Score { zero: 11, one: 11 },
        3,
        six_of_spades(),
        eleven_hands(),
        vec![],
        None,
        None,
        decision(0),
    );
    let error = Engine::from_state(state).expect_err("11-11 hands should not create a pending decision");
    assert_eq!(error, EngineError::InvalidInitialState);
}

#[test]
fn can_apply_action_for_current_player_without_repeating_turn_owner() {
    let mut engine = Engine::new_hand(1, zero_score(), ace_of_spades(), fresh_hands())
        .expect("fresh hand should initialize");

    let acted = engine
        .apply_action_for_current_player(&play_up("p0c0"))
        .expect("current player action should succeed");

    assert_eq!(acted, 0);
    assert_eq!(engine.current_player(), Some(1));
}

#[test]
fn every_listed_action_applies_cleanly() {
    // Each legal action of a fresh hand applies, and none leaves the engine stuck.
    let engine = Engine::new_hand(1, zero_score(), ace_of_spades(), fresh_hands())
        .expect("fresh hand should initialize");
    let actions = engine.legal_actions(0).expect("actions should compute");
    assert_eq!(actions.len(), 5);
    for action in &actions {
        let mut copy = engine.clone();
        copy.apply_action(0, action).expect("a listed action must apply");
    }
}

#[test]
fn acting_out_of_turn_or_after_the_hand_is_rejected() {
    let mut engine = Engine::new_hand(1, zero_score(), ace_of_spades(), fresh_hands())
        .expect("fresh hand should initialize");
    assert_eq!(engine.apply_action(1, &play_up("p1c0")), Err(EngineError::ActOutOfTurn));
    assert_eq!(engine.legal_actions(1), Err(EngineError::ActOutOfTurn));
    assert_eq!(engine.apply_action(0, &play_up("p1c0")), Err(EngineError::CardNotInHand));
    assert_eq!(engine.apply_action(0, &Action::AcceptRaise), Err(EngineError::NoPendingRaise));
    assert_eq!(engine.apply_action(0, &Action::Fold), Err(EngineError::NoPendingRaise));
    assert_eq!(engine.apply_action(0, &Action::AcceptEleven), Err(EngineError::NoPendingElevenDecision));
    assert_eq!(engine.apply_action(0, &Action::FoldEleven), Err(EngineError::NoPendingElevenDecision));
    assert_eq!(engine.apply_action(0, &Action::Raise { to: 6 }), Err(EngineError::InvalidRaiseTarget));
    engine.apply_action(0, &Action::Raise { to: 3 }).expect("raise");
    assert_eq!(engine.apply_action(1, &play_up("p1c0")), Err(EngineError::RaisePending));
    engine.apply_action(1, &Action::ConcedeHand).expect("concede");
    // A concession while a raise is pending pays the value before the raise.
    assert_eq!(engine.state().score, Score { zero: 1, one: 0 });
    assert_eq!(engine.apply_action(0, &play_up("p0c0")), Err(EngineError::HandAlreadyDecided));
    assert_eq!(engine.legal_actions_for_current_player(), Err(EngineError::HandAlreadyDecided));
    assert_eq!(engine.apply_action_for_current_player(&Action::Fold), Err(EngineError::HandAlreadyDecided));
}

#[test]
fn decisions_block_plays_and_raises_on_eleven() {
    let mut engine = Engine::new_hand(1, Score { zero: 11, one: 0 }, six_of_spades(), eleven_hands())
        .expect("fresh hand on eleven should initialize");
    assert_eq!(engine.apply_action(0, &play_up("p0c0")), Err(EngineError::DecisionPending));
    assert_eq!(engine.apply_action(0, &Action::Raise { to: 3 }), Err(EngineError::RaiseNotAllowed));
    engine.apply_action(0, &Action::FoldEleven).expect("fold eleven");
    assert_eq!(engine.hand_winner(), Some(1));
    assert_eq!(engine.state().score, Score { zero: 11, one: 1 });
}

#[test]
fn winning_the_last_points_decides_the_match() {
    let mut engine = Engine::new_hand(1, Score { zero: 0, one: 11 }, six_of_spades(), eleven_hands())
        .expect("fresh hand on eleven should initialize");
    engine.apply_action(1, &Action::AcceptEleven).expect("accept eleven");
    engine.apply_action(0, &Action::ConcedeHand).expect("concede");
    assert_eq!(engine.match_winner(), Some(1));
    assert!(engine.is_match_over());
    assert_eq!(engine.state().score, Score { zero: 0, one: 12 });
}

#[test]
fn player_view_rejects_unknown_players() {
    let engine = Engine::new_hand(1, zero_score(), ace_of_spades(), fresh_hands())
        .expect("fresh hand should initialize");
    assert_eq!(engine.player_view(2).err(), Some(EngineError::InvalidPlayer));
    let view = engine.player_view(1).expect("player view");
    assert_eq!(view.hand.len(), 3);
    assert_eq!(view.hand[0].id, "p1c0");
}

#[test]
fn loading_normalizes_cards_already_played() {
    // A played card that is still listed in the hand is dropped from it on load.
    let mut raw = open_state();
    raw.current_round.plays = PlayList::from_vec(vec![truco_engine::state::PlayedCard {
        player: 0,
        visibility: Visibility::Up,
        card: card("p0c0", Rank::Seven, Suit::Diamonds),
    }]);
    raw.next_player = Some(1);
    let engine = Engine::from_state(raw).expect("state should load");
    assert_eq!(engine.state().hands.zero.len(), 2);
    assert_eq!(truco_engine::validation::validate_state(engine.state()), Ok(()));
}
