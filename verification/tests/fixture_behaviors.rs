use truco_engine::actions::Action;
use truco_engine::cards::{Card, Rank, Suit, Turnup};
use truco_engine::engine::Engine;
use truco_engine::bot_analysis::BotAnalysisError;
use truco_engine::error::EngineError;
use truco_engine::exploration::ExplorationError;
use truco_engine::fixtures::{
    actions_match, check_initial_state_error, execute_step, FixtureStep, InitialStateCheck,
    StepFailure,
};
use truco_engine::json_model::{
    assert_expected_subset, duplicate_json, json_equal, JsonValue, MismatchKind, PathStep,
};
use truco_engine::lists::{CardList, PlayList, RoundList};
use truco_engine::oracle::{apply_action, eval_state, expand_state};
use truco_engine::state::{CompletedRound, Hands, PlayedCard, Score, Visibility};

fn card(id: &str, rank: Rank, suit: Suit) -> Card {
    Card { id: id.to_string(), rank, suit }
}

fn fresh_engine() -> Engine {
    let hands = Hands {
        zero: CardList::from_vec(vec![
            card("p0c0", Rank::Seven, Suit::Diamonds),
            card("p0c1", Rank::Six, Suit::Clubs),
            card("p0c2", Rank::Four, Suit::Hearts),
        ]),
        one: CardList::from_vec(vec![
            card("p1c0", Rank::Five, Suit::Spades),
            card("p1c1", Rank::Queen, Suit::Hearts),
            card("p1c2", Rank::Jack, Suit::Clubs),
        ]),
    };
    Engine::new_hand(1, Score { zero: 0, one: 0 }, Turnup { rank: Rank::Ace, suit: Suit::Spades }, hands)
        .expect("hand should deal")
}

fn num(n: i64) -> JsonValue {
    JsonValue::Number(n.to_string())
}

fn text(s: &str) -> JsonValue {
    JsonValue::Text(s.to_string())
}

fn object(entries: Vec<(&str, JsonValue)>) -> JsonValue {
    JsonValue::Object(entries.into_iter().map(|(k, v)| (k.to_string(), v)).collect())
}

#[test]
fn subset_accepts_extra_keys_in_actual() {
    let actual = object(vec![("a", num(1)), ("b", text("x")), ("c", JsonValue::Null)]);
    let expected = object(vec![("b", text("x"))]);
    assert!(assert_expected_subset(&actual, &expected).is_ok());
}

#[test]
fn subset_reports_missing_key() {
    let actual = object(vec![("a", num(1))]);
    let expected = object(vec![("score", object(vec![]))]);
    let mismatch = assert_expected_subset(&actual, &expected).unwrap_err();
    assert!(mismatch.path.is_empty());
    assert!(matches!(mismatch.kind, MismatchKind::MissingKey(ref k) if k == "score"));
}

#[test]
fn subset_reports_array_length_mismatch_under_key() {
    let actual = object(vec![("rounds", JsonValue::Array(vec![num(1), num(2)]))]);
    let expected = object(vec![("rounds", JsonValue::Array(vec![num(1)]))]);
    let mismatch = assert_expected_subset(&actual, &expected).unwrap_err();
    assert_eq!(mismatch.path.len(), 1);
    assert!(matches!(mismatch.path[0], PathStep::Key(ref k) if k == "rounds"));
    assert!(matches!(mismatch.kind, MismatchKind::LengthMismatch { expected: 1, actual: 2 }));
}

#[test]
fn subset_reports_value_mismatch_with_full_path() {
    let actual = object(vec![(
        "plays",
        JsonValue::Array(vec![object(vec![("player", num(0))]), object(vec![("player", num(1))])]),
    )]);
    let expected = object(vec![(
        "plays",
        JsonValue::Array(vec![object(vec![("player", num(0))]), object(vec![("player", num(0))])]),
    )]);
    let mismatch = assert_expected_subset(&actual, &expected).unwrap_err();
    assert_eq!(mismatch.path.len(), 3);
    assert!(matches!(mismatch.path[0], PathStep::Key(ref k) if k == "plays"));
    assert!(matches!(mismatch.path[1], PathStep::Index(1)));
    assert!(matches!(mismatch.path[2], PathStep::Key(ref k) if k == "player"));
    match mismatch.kind {
        MismatchKind::ValueMismatch { expected, actual } => {
            assert!(json_equal(&expected, &num(0)));
            assert!(json_equal(&actual, &num(1)));
        }
        other => panic!("unexpected mismatch {other:?}"),
    }
}

#[test]
fn subset_compares_scalars_and_kinds() {
    assert!(assert_expected_subset(&text("1"), &num(1)).is_err());
    assert!(assert_expected_subset(&JsonValue::Bool(true), &JsonValue::Bool(true)).is_ok());
    assert!(assert_expected_subset(&JsonValue::Null, &object(vec![])).is_err());
}

#[test]
fn json_equality_is_structural_and_duplicates_are_equal() {
    let value = object(vec![("a", JsonValue::Array(vec![num(1), text("b")]))]);
    let copy = duplicate_json(&value);
    assert!(json_equal(&value, &copy));
    let other = object(vec![("a", JsonValue::Array(vec![num(1), text("c")]))]);
    assert!(!json_equal(&value, &other));
}

#[test]
fn actions_match_compares_kind_and_payload() {
    let a = Action::PlayFaceUp { card_id: "p0c0".to_string() };
    let b = Action::PlayFaceUp { card_id: "p0c0".to_string() };
    let c = Action::PlayFaceDown { card_id: "p0c0".to_string() };
    assert!(actions_match(&a, &b));
    assert!(!actions_match(&a, &c));
    assert!(actions_match(&Action::Raise { to: 3 }, &Action::Raise { to: 3 }));
    assert!(!actions_match(&Action::Raise { to: 3 }, &Action::Raise { to: 6 }));
}

#[test]
fn initial_state_check_reports_each_verdict() {
    let engine = fresh_engine();
    let valid = engine.state().clone();
    assert_eq!(check_initial_state_error(&valid, &"invalid_initial_state".to_string()), InitialStateCheck::Accepted);

    let mut bad = valid.clone();
    bad.hand_value = 2;
    let expected_code = EngineError::InvalidInitialState.code().to_string();
    assert_eq!(check_initial_state_error(&bad, &expected_code), InitialStateCheck::RejectedAsExpected);
    assert_eq!(
        check_initial_state_error(&bad, &"other_code".to_string()),
        InitialStateCheck::RejectedWith(EngineError::InvalidInitialState)
    );
}

#[test]
fn execute_step_checks_legal_actions() {
    let mut engine = fresh_engine();
    let rendered = JsonValue::Null;
    let ok = FixtureStep::AssertLegalActions {
        player: 0,
        must_include: vec![Action::PlayFaceUp { card_id: "p0c0".to_string() }],
        must_exclude: vec![Action::AcceptRaise],
    };
    assert!(execute_step(&mut engine, &ok, &rendered).is_ok());

    let missing = FixtureStep::AssertLegalActions {
        player: 0,
        must_include: vec![Action::PlayFaceUp { card_id: "p1c0".to_string() }],
        must_exclude: vec![],
    };
    assert!(matches!(
        execute_step(&mut engine, &missing, &rendered),
        Err(StepFailure::MissingLegalAction(Action::PlayFaceUp { ref card_id })) if card_id == "p1c0"
    ));

    let present = FixtureStep::AssertLegalActions {
        player: 0,
        must_include: vec![],
        must_exclude: vec![Action::Raise { to: 3 }],
    };
    assert!(matches!(
        execute_step(&mut engine, &present, &rendered),
        Err(StepFailure::UnexpectedLegalAction(Action::Raise { to: 3 }))
    ));

    let wrong_player =
        FixtureStep::AssertLegalActions { player: 1, must_include: vec![], must_exclude: vec![] };
    assert!(matches!(
        execute_step(&mut engine, &wrong_player, &rendered),
        Err(StepFailure::LegalActions(EngineError::ActOutOfTurn))
    ));
}

#[test]
fn execute_step_applies_and_rejects_actions() {
    let mut engine = fresh_engine();
    let rendered = JsonValue::Null;
    let rejected = FixtureStep::AssertRejectedAction {
        player: 1,
        action: Action::PlayFaceUp { card_id: "p1c0".to_string() },
        error_code: EngineError::ActOutOfTurn.code().to_string(),
    };
    assert!(execute_step(&mut engine, &rejected, &rendered).is_ok());

    let wrong_code = FixtureStep::AssertRejectedAction {
        player: 1,
        action: Action::PlayFaceUp { card_id: "p1c0".to_string() },
        error_code: "CARD_NOT_IN_HAND".to_string(),
    };
    assert!(matches!(
        execute_step(&mut engine, &wrong_code, &rendered),
        Err(StepFailure::WrongRejection(EngineError::ActOutOfTurn))
    ));

    let apply = FixtureStep::ApplyAction {
        player: 0,
        action: Action::PlayFaceUp { card_id: "p0c0".to_string() },
    };
    assert!(execute_step(&mut engine, &apply, &rendered).is_ok());
    assert_eq!(engine.current_player(), Some(1));

    let again = FixtureStep::ApplyAction {
        player: 0,
        action: Action::PlayFaceUp { card_id: "p0c1".to_string() },
    };
    assert!(matches!(
        execute_step(&mut engine, &again, &rendered),
        Err(StepFailure::ApplyAction(EngineError::ActOutOfTurn))
    ));

    let accepted = FixtureStep::AssertRejectedAction {
        player: 1,
        action: Action::PlayFaceUp { card_id: "p1c0".to_string() },
        error_code: "act_out_of_turn".to_string(),
    };
    assert!(matches!(
        execute_step(&mut engine, &accepted, &rendered),
        Err(StepFailure::RejectedActionSucceeded(_))
    ));
    assert_eq!(engine.current_player(), Some(0));
}

#[test]
fn execute_step_compares_rendered_state() {
    let mut engine = fresh_engine();
    let rendered = object(vec![("next_player", num(0)), ("hand_value", num(1))]);
    let good = FixtureStep::AssertState { expect: object(vec![("hand_value", num(1))]) };
    assert!(execute_step(&mut engine, &good, &rendered).is_ok());
    let bad = FixtureStep::AssertState { expect: object(vec![("hand_value", num(3))]) };
    assert!(matches!(execute_step(&mut engine, &bad, &rendered), Err(StepFailure::StateMismatch(_))));

    let round_trip = FixtureStep::AssertExportRoundTrip { expect: object(vec![("next_player", num(0))]) };
    let before = engine.public_state();
    assert!(execute_step(&mut engine, &round_trip, &rendered).is_ok());
    assert_eq!(engine.public_state(), before);
    let round_trip_bad = FixtureStep::AssertExportRoundTrip { expect: object(vec![("next_player", num(1))]) };
    assert!(matches!(
        execute_step(&mut engine, &round_trip_bad, &rendered),
        Err(StepFailure::RoundTripMismatch(_))
    ));
}

#[test]
fn oracle_summarises_a_saved_hand() {
    let engine = fresh_engine();
    let summary = eval_state(engine.export_state()).expect("state should evaluate");
    assert_eq!(summary.current_player, Some(0));
    assert_eq!(summary.hand_winner, None);
    assert_eq!(summary.match_winner, None);
    assert_eq!(summary.public_state, engine.public_state());
    assert_eq!(summary.export_state, engine.export_state());
    assert_eq!(summary.legal_actions, engine.legal_actions(0).unwrap());
}

#[test]
fn oracle_applies_one_action() {
    let engine = fresh_engine();
    let summary = apply_action(
        engine.export_state(),
        Some(0),
        Some(Action::PlayFaceUp { card_id: "p0c0".to_string() }),
    )
    .expect("action should apply");
    assert_eq!(summary.current_player, Some(1));

    let out_of_turn = apply_action(
        engine.export_state(),
        Some(1),
        Some(Action::PlayFaceUp { card_id: "p1c0".to_string() }),
    );
    assert_eq!(out_of_turn.unwrap_err(), EngineError::ActOutOfTurn);

    let missing = apply_action(engine.export_state(), None, Some(Action::Fold));
    assert_eq!(missing.unwrap_err(), EngineError::InvalidInitialState);
    let missing_action = apply_action(engine.export_state(), Some(0), None);
    assert_eq!(missing_action.unwrap_err(), EngineError::InvalidInitialState);
}

#[test]
fn oracle_expands_every_legal_action() {
    let engine = fresh_engine();
    let expanded = expand_state(engine.export_state()).expect("state should expand");
    let legal = engine.legal_actions(0).unwrap();
    assert_eq!(expanded.children.len(), legal.len());
    for ((action, child), expected) in expanded.children.iter().zip(legal.iter()) {
        assert_eq!(action, expected);
        let mut next = engine.clone();
        next.apply_action(0, expected).unwrap();
        assert_eq!(child.public_state, next.public_state());
        assert_eq!(child.current_player, next.current_player());
    }
}

#[test]
fn oracle_rejects_an_invalid_saved_hand() {
    let engine = fresh_engine();
    let mut state = engine.export_state();
    state.state.hand_value = 2;
    assert_eq!(eval_state(state.clone()).unwrap_err(), EngineError::InvalidInitialState);
    assert_eq!(expand_state(state).unwrap_err(), EngineError::InvalidInitialState);
}

#[test]
fn errors_carry_codes_and_messages() {
    assert_eq!(EngineError::RaisePending.code(), "RAISE_PENDING");
    assert_eq!(EngineError::RaisePending.message(), "a pending raise must be answered first");
    assert_eq!(EngineError::ActOutOfTurn.message(), "act out of turn");
    assert_eq!(ExplorationError::NoRangeCandidates.message(), "no range candidates matched the spec");
    assert_eq!(ExplorationError::Engine(EngineError::CardNotInHand).message(), "card not in hand");
    assert_eq!(ExplorationError::Engine(EngineError::CardNotInHand).code(), "CARD_NOT_IN_HAND");
    assert_eq!(BotAnalysisError::NoLegalActions.message(), "bot received no legal actions");
    assert_eq!(BotAnalysisError::InvalidAnalysis("bad".to_string()).message(), "bad");
    assert_eq!(BotAnalysisError::Engine(EngineError::InvalidPlayer).message(), "invalid player");
}

#[test]
fn exactly_the_listed_actions_are_accepted() {
    let engine = fresh_engine();
    let legal = engine.legal_actions(0).unwrap();
    let candidates = vec![
        Action::PlayFaceUp { card_id: "p0c0".to_string() },
        Action::PlayFaceUp { card_id: "p0c2".to_string() },
        Action::PlayFaceUp { card_id: "p1c0".to_string() },
        Action::PlayFaceDown { card_id: "p0c0".to_string() },
        Action::Raise { to: 3 },
        Action::Raise { to: 6 },
        Action::AcceptRaise,
        Action::Fold,
        Action::AcceptEleven,
        Action::FoldEleven,
        Action::ConcedeHand,
    ];
    for action in candidates {
        let mut copy = engine.clone();
        let accepted = copy.apply_action(0, &action).is_ok();
        assert_eq!(accepted, legal.contains(&action), "{action:?}");
    }
}

#[test]
fn finished_hand_restores_to_its_own_state() {
    let mut engine = fresh_engine();
    engine.apply_action(0, &Action::Raise { to: 3 }).unwrap();
    engine.apply_action(1, &Action::AcceptRaise).unwrap();
    engine.apply_action(0, &Action::PlayFaceUp { card_id: "p0c0".to_string() }).unwrap();
    engine.apply_action(1, &Action::ConcedeHand).unwrap();
    assert!(engine.is_hand_over());
    let restored = Engine::from_exported_state(engine.export_state()).expect("finished hand restores");
    let mut expected = engine.state().clone();
    expected.last_raised_by = restored.state().last_raised_by;
    assert_eq!(restored.state(), &expected);
    assert_eq!(restored.hand_winner(), engine.hand_winner());
    assert_eq!(restored.match_winner(), engine.match_winner());
    let again = Engine::from_exported_state(restored.export_state()).unwrap();
    assert_eq!(again.state(), restored.state());
}

#[test]
fn inline_lists_push_remove_and_clear() {
    let mut cards = CardList::from_vec(vec![
        card("a", Rank::Four, Suit::Clubs),
        card("b", Rank::Five, Suit::Clubs),
        card("c", Rank::Six, Suit::Clubs),
    ]);
    let taken = cards.remove(1);
    assert_eq!(taken.id, "b");
    assert_eq!(cards.to_vec().iter().map(|c| c.id.clone()).collect::<Vec<_>>(), vec!["a", "c"]);

    let mut plays = PlayList::new();
    plays.push(PlayedCard { player: 0, visibility: Visibility::Up, card: taken.clone() });
    assert_eq!(plays.len(), 1);
    let mut rounds = RoundList::new();
    rounds.push(CompletedRound { leader: 0, winner: Some(0), plays: plays.clone() });
    assert_eq!(rounds.len(), 1);
    assert_eq!(rounds.to_vec()[0].plays.len(), 1);
    plays.clear();
    assert_eq!(plays.len(), 0);
}

#[test]
fn a_hand_ends_within_twenty_actions_even_when_every_raise_is_taken() {
    let mut engine = fresh_engine();
    let mut taken = 0usize;
    while !engine.is_hand_over() {
        let player = engine.current_player().expect("a live hand has a player to move");
        let legal = engine.legal_actions(player).unwrap();
        let pick = legal
            .iter()
            .find(|a| matches!(a, Action::Raise { .. }))
            .or_else(|| legal.iter().find(|a| matches!(a, Action::AcceptRaise | Action::AcceptEleven)))
            .or_else(|| legal.iter().find(|a| matches!(a, Action::PlayFaceUp { .. })))
            .expect("some action other than folding")
            .clone();
        engine.apply_action(player, &pick).unwrap();
        taken += 1;
        assert!(taken <= 20);
    }
    assert!(taken >= 6);
}
