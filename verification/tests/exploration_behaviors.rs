use truco_engine::actions::Action;
use truco_engine::cards::{Card, Rank, Suit, Turnup};
use truco_engine::error::EngineError;
use truco_engine::exploration::{
    pick_weighted_index, resolve_match_spec, total_weight, CardConstraint, CardFace,
    CompletedHiddenPlayOverride, ExplorationError, ExplorationMatchSpec, HandPattern,
    HiddenPlayRangeSpec, HiddenPlayRanges, HiddenRanges, PendingHandSpec, PlayerRangeSpec,
    WeightedCardOption, WeightedHandOption,
};
use truco_engine::game_match::Match;
use truco_engine::lists::CardList;
use truco_engine::match_types::MatchState;
use truco_engine::state::{Hands, Score, Visibility};

fn card(id: &str, rank: Rank, suit: Suit) -> Card {
    Card { id: id.to_string(), rank, suit }
}

fn face(rank: Rank, suit: Suit) -> CardFace {
    CardFace { rank, suit }
}

fn turnup() -> Turnup {
    Turnup { rank: Rank::Ace, suit: Suit::Spades }
}

fn sample_hands() -> Hands {
    Hands {
        zero: CardList::from_vec(vec![
            card("p0c0", Rank::Four, Suit::Hearts),
            card("p0c1", Rank::Seven, Suit::Diamonds),
            card("p0c2", Rank::Six, Suit::Clubs),
        ]),
        one: CardList::from_vec(vec![
            card("p1c0", Rank::Four, Suit::Diamonds),
            card("p1c1", Rank::Seven, Suit::Hearts),
            card("p1c2", Rank::Five, Suit::Spades),
        ]),
    }
}

fn fresh_match_state() -> MatchState {
    Match::new(1, Score { zero: 0, one: 0 }).expect("match should initialize").export_state()
}

fn active_match() -> Match {
    let mut game = Match::new(1, Score { zero: 0, one: 0 }).expect("match should initialize");
    game.start_hand(turnup(), sample_hands()).expect("hand should start");
    game
}

fn no_ranges() -> HiddenRanges {
    HiddenRanges { zero: None, one: None }
}

fn no_plays() -> HiddenPlayRanges {
    HiddenPlayRanges { zero: None, one: None }
}

fn spec(base_state: MatchState) -> ExplorationMatchSpec {
    ExplorationMatchSpec {
        base_state,
        pending_hand: None,
        hidden_ranges: no_ranges(),
        hidden_plays: no_plays(),
        completed_hidden_plays: vec![],
        seed: Some(7),
    }
}

fn any_card() -> CardConstraint {
    CardConstraint {
        exact: None,
        allowed_ranks: None,
        allowed_suits: None,
        is_manilha: None,
        strength_at_least: None,
        strength_at_most: None,
    }
}

fn exact_hand(cards: Vec<CardFace>) -> PlayerRangeSpec {
    PlayerRangeSpec { weighted_hands: vec![WeightedHandOption { weight: 1, hand: HandPattern::Exact { cards } }] }
}

fn faces(cards: &[Card]) -> Vec<CardFace> {
    cards.iter().map(|c| face(c.rank, c.suit)).collect()
}

fn strength(f: &CardFace, t: &Turnup) -> usize {
    if f.rank == t.rank.next_for_manilha() {
        10 + f.suit.manilha_strength()
    } else {
        f.rank.index()
    }
}

#[test]
fn spec_without_ranges_returns_the_base_state() {
    let base = active_match().export_state();
    let resolved = resolve_match_spec(&spec(base.clone())).expect("plain spec should resolve");
    assert_eq!(resolved, base);
}

#[test]
fn pending_hand_deals_two_valid_hands_with_generated_ids() {
    let mut s = spec(fresh_match_state());
    s.pending_hand = Some(PendingHandSpec { turnup: turnup() });
    s.hidden_ranges = HiddenRanges { zero: None, one: None };
    // A range on one seat is what makes the pending hand resolvable.
    s.hidden_ranges.one = Some(PlayerRangeSpec {
        weighted_hands: vec![WeightedHandOption {
            weight: 1,
            hand: HandPattern::Ordered { slots: vec![any_card(), any_card(), any_card()] },
        }],
    });
    let resolved = resolve_match_spec(&s).expect("pending hand should resolve");
    let hand = resolved.current_hand.expect("a hand should be dealt");
    let zero = hand.state.hands.zero.to_vec();
    let one = hand.state.hands.one.to_vec();
    assert_eq!(zero.len(), 3);
    assert_eq!(one.len(), 3);
    let ids: Vec<&str> = zero.iter().chain(one.iter()).map(|c| c.id.as_str()).collect();
    assert_eq!(ids, vec!["p0c0", "p0c1", "p0c2", "p1c0", "p1c1", "p1c2"]);
    let mut all = faces(&zero);
    all.extend(faces(&one));
    for (i, a) in all.iter().enumerate() {
        assert_ne!(*a, face(turnup().rank, turnup().suit));
        for b in all.iter().skip(i + 1) {
            assert_ne!(a, b);
        }
    }
    for hand_cards in [&zero, &one] {
        let f = faces(hand_cards);
        assert!(f.windows(2).all(|w| strength(&w[0], &turnup()) <= strength(&w[1], &turnup())));
    }
    assert_eq!(hand.state.turnup, turnup());
    assert_eq!(hand.state.dealer, 1);
}

#[test]
fn pending_hand_honours_an_exact_range() {
    let mut s = spec(fresh_match_state());
    s.pending_hand = Some(PendingHandSpec { turnup: turnup() });
    s.hidden_ranges.zero = Some(exact_hand(vec![
        face(Rank::Three, Suit::Clubs),
        face(Rank::Two, Suit::Clubs),
        face(Rank::Two, Suit::Hearts),
    ]));
    let resolved = resolve_match_spec(&s).expect("exact range should resolve");
    let zero = resolved.current_hand.expect("hand dealt").state.hands.zero.to_vec();
    // Sorted by strength with the Ace turnup making Twos manilhas: 3C, 2H, 2C.
    assert_eq!(
        faces(&zero),
        vec![face(Rank::Three, Suit::Clubs), face(Rank::Two, Suit::Hearts), face(Rank::Two, Suit::Clubs)]
    );
}

#[test]
fn the_same_seed_resolves_the_same_way() {
    let mut s = spec(fresh_match_state());
    s.pending_hand = Some(PendingHandSpec { turnup: turnup() });
    s.hidden_ranges.one = Some(PlayerRangeSpec {
        weighted_hands: vec![WeightedHandOption {
            weight: 3,
            hand: HandPattern::Ordered { slots: vec![any_card(), any_card(), any_card()] },
        }],
    });
    s.seed = Some(1234);
    let first = resolve_match_spec(&s).expect("should resolve");
    let second = resolve_match_spec(&s).expect("should resolve");
    assert_eq!(first, second);
}

#[test]
fn active_hand_range_replaces_the_opponents_cards_but_keeps_ids() {
    let mut s = spec(active_match().export_state());
    s.hidden_ranges.one = Some(exact_hand(vec![
        face(Rank::King, Suit::Hearts),
        face(Rank::Queen, Suit::Clubs),
        face(Rank::Jack, Suit::Diamonds),
    ]));
    let resolved = resolve_match_spec(&s).expect("active range should resolve");
    let hand = resolved.current_hand.expect("hand still active");
    let one = hand.state.hands.one.to_vec();
    let ids: Vec<&str> = one.iter().map(|c| c.id.as_str()).collect();
    assert_eq!(ids, vec!["p1c0", "p1c1", "p1c2"]);
    assert_eq!(
        faces(&one),
        vec![face(Rank::Queen, Suit::Clubs), face(Rank::Jack, Suit::Diamonds), face(Rank::King, Suit::Hearts)]
    );
    assert_eq!(hand.state.hands.zero.to_vec(), sample_hands().zero.to_vec());
}

#[test]
fn active_range_cannot_reuse_a_fixed_card() {
    let mut s = spec(active_match().export_state());
    // Seat 0 still holds the Four of Hearts, so no hand of seat 1 may contain it.
    s.hidden_ranges.one = Some(exact_hand(vec![
        face(Rank::Four, Suit::Hearts),
        face(Rank::Queen, Suit::Clubs),
        face(Rank::Jack, Suit::Diamonds),
    ]));
    let error = resolve_match_spec(&s).expect_err("range should find no candidate");
    assert_eq!(error, ExplorationError::NoRangeCandidates);
    assert_eq!(error.code(), "NO_RANGE_CANDIDATES");
}

#[test]
fn hidden_play_range_rewrites_the_face_down_card() {
    let mut game = active_match();
    game.apply_action_for_current_player(&Action::PlayFaceUp { card_id: "p0c0".into() }).expect("play");
    game.apply_action_for_current_player(&Action::PlayFaceUp { card_id: "p1c0".into() }).expect("play");
    game.apply_action_for_current_player(&Action::PlayFaceDown { card_id: "p0c1".into() }).expect("hidden play");
    let mut s = spec(game.export_state());
    let mut only_kings = any_card();
    only_kings.allowed_ranks = Some(vec![Rank::King]);
    only_kings.allowed_suits = Some(vec![Suit::Clubs]);
    s.hidden_plays.zero = Some(HiddenPlayRangeSpec {
        weighted_cards: vec![WeightedCardOption { weight: 2, card: only_kings }],
    });
    let resolved = resolve_match_spec(&s).expect("hidden play should resolve");
    let hand = resolved.current_hand.expect("hand still active");
    let plays = hand.state.current_round.plays.to_vec();
    assert_eq!(plays.len(), 1);
    assert_eq!(plays[0].visibility, Visibility::Down);
    assert_eq!(plays[0].card.id, "p0c1");
    assert_eq!(face(plays[0].card.rank, plays[0].card.suit), face(Rank::King, Suit::Clubs));
}

#[test]
fn hidden_play_range_needs_a_face_down_play() {
    let mut s = spec(active_match().export_state());
    s.hidden_plays.zero = Some(HiddenPlayRangeSpec {
        weighted_cards: vec![WeightedCardOption { weight: 1, card: any_card() }],
    });
    let error = resolve_match_spec(&s).expect_err("no face-down play yet");
    assert_eq!(error, ExplorationError::NoHiddenPlayToOverride);
    assert_eq!(error.code(), "NO_HIDDEN_PLAY_TO_OVERRIDE");
}

#[test]
fn completed_override_needs_a_face_down_play_in_that_round() {
    let mut s = spec(active_match().export_state());
    s.completed_hidden_plays = vec![CompletedHiddenPlayOverride {
        round_index: 0,
        player: 1,
        weighted_cards: vec![WeightedCardOption { weight: 1, card: any_card() }],
    }];
    let error = resolve_match_spec(&s).expect_err("no completed round yet");
    assert_eq!(error, ExplorationError::NoCompletedHiddenPlayToOverride);
    assert_eq!(error.code(), "NO_COMPLETED_HIDDEN_PLAY_TO_OVERRIDE");
}

#[test]
fn completed_override_rewrites_a_face_down_play() {
    let mut game = active_match();
    for action in [
        Action::PlayFaceUp { card_id: "p0c0".into() },
        Action::PlayFaceUp { card_id: "p1c0".into() },
        Action::PlayFaceDown { card_id: "p0c1".into() },
        Action::PlayFaceDown { card_id: "p1c1".into() },
    ] {
        game.apply_action_for_current_player(&action).expect("scripted action");
    }
    let mut s = spec(game.export_state());
    let mut exact = any_card();
    exact.exact = Some(face(Rank::Queen, Suit::Spades));
    s.completed_hidden_plays = vec![CompletedHiddenPlayOverride {
        round_index: 1,
        player: 1,
        weighted_cards: vec![WeightedCardOption { weight: 1, card: exact }],
    }];
    let resolved = resolve_match_spec(&s).expect("override should resolve");
    let hand = resolved.current_hand.expect("hand still active");
    let rounds = hand.state.completed_rounds.to_vec();
    let plays = rounds[1].plays.to_vec();
    let villain = plays.iter().find(|p| p.player == 1).expect("villain played");
    assert_eq!(face(villain.card.rank, villain.card.suit), face(Rank::Queen, Suit::Spades));
    assert_eq!(villain.card.id, "p1c1");
}

#[test]
fn dispatch_errors_follow_the_shape_of_the_spec() {
    let mut s = spec(active_match().export_state());
    s.pending_hand = Some(PendingHandSpec { turnup: turnup() });
    let error = resolve_match_spec(&s).expect_err("pending hand over an active one");
    assert_eq!(error, ExplorationError::PendingHandRequiresNoActiveHand);
    assert_eq!(error.code(), "PENDING_HAND_REQUIRES_NO_ACTIVE_HAND");

    let mut s = spec(fresh_match_state());
    s.hidden_ranges.zero = Some(exact_hand(vec![face(Rank::Three, Suit::Clubs)]));
    let error = resolve_match_spec(&s).expect_err("ranges without a hand");
    assert_eq!(error, ExplorationError::MissingPendingHandSpec);
    assert_eq!(error.code(), "MISSING_PENDING_HAND_SPEC");

    let mut s = spec(fresh_match_state());
    s.hidden_plays.one = Some(HiddenPlayRangeSpec { weighted_cards: vec![] });
    let error = resolve_match_spec(&s).expect_err("hidden plays without a hand");
    assert_eq!(error, ExplorationError::HiddenPlayRequiresActiveHand);
    assert_eq!(error.code(), "HIDDEN_PLAY_REQUIRES_ACTIVE_HAND");
}

#[test]
fn invalid_base_state_is_an_engine_error() {
    let mut base = fresh_match_state();
    base.next_dealer = 5;
    let error = resolve_match_spec(&spec(base)).expect_err("invalid dealer");
    assert_eq!(error, ExplorationError::Engine(EngineError::InvalidInitialState));
    assert_eq!(error.code(), "INVALID_INITIAL_STATE");
}

#[test]
fn zero_weight_options_offer_nothing() {
    let mut s = spec(fresh_match_state());
    s.pending_hand = Some(PendingHandSpec { turnup: turnup() });
    s.hidden_ranges.zero = Some(PlayerRangeSpec {
        weighted_hands: vec![WeightedHandOption {
            weight: 0,
            hand: HandPattern::Ordered { slots: vec![any_card(), any_card(), any_card()] },
        }],
    });
    let error = resolve_match_spec(&s).expect_err("weight zero admits nothing");
    assert_eq!(error, ExplorationError::NoRangeCandidates);
}

#[test]
fn weighted_index_follows_running_totals() {
    let weights = [2u64, 0, 3];
    assert_eq!(total_weight(&weights), 5);
    assert_eq!(pick_weighted_index(&weights, 0), Some(0));
    assert_eq!(pick_weighted_index(&weights, 1), Some(0));
    assert_eq!(pick_weighted_index(&weights, 2), Some(2));
    assert_eq!(pick_weighted_index(&weights, 4), Some(2));
    assert_eq!(pick_weighted_index(&weights, 5), None);
    assert_eq!(total_weight(&[u64::MAX, 2]), 1);
}

#[test]
fn exploration_error_codes_are_stable() {
    assert_eq!(ExplorationError::NoActiveHand.code(), "NO_ACTIVE_HAND");
    assert_eq!(ExplorationError::InvalidPlayerRange.code(), "INVALID_PLAYER_RANGE");
    assert_eq!(ExplorationError::Engine(EngineError::CardNotInHand).code(), "CARD_NOT_IN_HAND");
}
