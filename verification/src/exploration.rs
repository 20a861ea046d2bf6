//! Resolving exploration specs: a saved match plus ranges for what one player cannot
//! see (the other's hand, face-down plays), resolved into one concrete match state by a
//! weighted random draw among every compatible assignment.
use vstd::prelude::*;

use crate::cards::{Card, Turnup};
use crate::error::EngineError;
use crate::match_types::MatchState;
use crate::ranges::{
    face_of, hands_of, matching_hands, standard_deck, without_every, without_first,
};
use crate::state::{Player, PlayedCard, RoundView, StateView, Visibility};

pub use crate::ranges::{CardConstraint, CardFace, HandPattern};

verus! {

/// A saved match together with ranges for its hidden information.
#[derive(Debug, Clone, PartialEq, Eq)]
pub struct ExplorationMatchSpec {
    pub base_state: MatchState,
    pub pending_hand: Option<PendingHandSpec>,
    pub hidden_ranges: HiddenRanges,
    pub hidden_plays: HiddenPlayRanges,
    pub completed_hidden_plays: Vec<CompletedHiddenPlayOverride>,
    pub seed: Option<u64>,
}

/// The turnup of a hand still to be dealt.
#[derive(Debug, Clone, Copy, PartialEq, Eq, Structural)]
pub struct PendingHandSpec {
    pub turnup: Turnup,
}

/// A range of hands per seat.
#[derive(Debug, Clone, PartialEq, Eq)]
pub struct HiddenRanges {
    pub zero: Option<PlayerRangeSpec>,
    pub one: Option<PlayerRangeSpec>,
}

/// A range for the face-down card a seat has in the current round, per seat.
#[derive(Debug, Clone, PartialEq, Eq)]
pub struct HiddenPlayRanges {
    pub zero: Option<HiddenPlayRangeSpec>,
    pub one: Option<HiddenPlayRangeSpec>,
}

#[derive(Debug, Clone, PartialEq, Eq)]
pub struct HiddenPlayRangeSpec {
    pub weighted_cards: Vec<WeightedCardOption>,
}

/// A range for a face-down card played in a completed round.
#[derive(Debug, Clone, PartialEq, Eq)]
pub struct CompletedHiddenPlayOverride {
    pub round_index: usize,
    pub player: Player,
    pub weighted_cards: Vec<WeightedCardOption>,
}

#[derive(Debug, Clone, PartialEq, Eq)]
pub struct PlayerRangeSpec {
    pub weighted_hands: Vec<WeightedHandOption>,
}

#[derive(Debug, Clone, PartialEq, Eq)]
pub struct WeightedHandOption {
    pub weight: u32,
    pub hand: HandPattern,
}

#[derive(Debug, Clone, PartialEq, Eq)]
pub struct WeightedCardOption {
    pub weight: u32,
    pub card: CardConstraint,
}

/// Why a spec could not be resolved.
#[derive(Debug, Clone, Copy, PartialEq, Eq, Structural)]
pub enum ExplorationError {
    Engine(EngineError),
    NoActiveHand,
    MissingPendingHandSpec,
    PendingHandRequiresNoActiveHand,
    HiddenPlayRequiresActiveHand,
    NoHiddenPlayToOverride,
    NoCompletedHiddenPlayToOverride,
    InvalidPlayerRange,
    NoRangeCandidates,
}

/// The machine-readable code of each error; an engine error keeps its own code.
pub open spec fn exploration_error_code(error: ExplorationError) -> Seq<char> {
    match error {
        ExplorationError::Engine(e) => crate::error::engine_error_code(e),
        ExplorationError::NoActiveHand => "NO_ACTIVE_HAND"@,
        ExplorationError::MissingPendingHandSpec => "MISSING_PENDING_HAND_SPEC"@,
        ExplorationError::PendingHandRequiresNoActiveHand => "PENDING_HAND_REQUIRES_NO_ACTIVE_HAND"@,
        ExplorationError::HiddenPlayRequiresActiveHand => "HIDDEN_PLAY_REQUIRES_ACTIVE_HAND"@,
        ExplorationError::NoHiddenPlayToOverride => "NO_HIDDEN_PLAY_TO_OVERRIDE"@,
        ExplorationError::NoCompletedHiddenPlayToOverride => "NO_COMPLETED_HIDDEN_PLAY_TO_OVERRIDE"@,
        ExplorationError::InvalidPlayerRange => "INVALID_PLAYER_RANGE"@,
        ExplorationError::NoRangeCandidates => "NO_RANGE_CANDIDATES"@,
    }
}

/// The human-readable message of each error; an engine error keeps its own message.
pub open spec fn exploration_error_message(error: ExplorationError) -> Seq<char> {
    match error {
        ExplorationError::Engine(e) => crate::error::engine_error_message(e),
        ExplorationError::NoActiveHand => "exploration spec requires an active hand"@,
        ExplorationError::MissingPendingHandSpec => "exploration spec requires `pending_hand` when no active hand is present"@,
        ExplorationError::PendingHandRequiresNoActiveHand => "`pending_hand` may only be used when no active hand is present"@,
        ExplorationError::HiddenPlayRequiresActiveHand => "hidden-play exploration requires an active hand"@,
        ExplorationError::NoHiddenPlayToOverride => "no hidden face-down play exists for that player"@,
        ExplorationError::NoCompletedHiddenPlayToOverride => "no completed-round hidden face-down play exists at that target"@,
        ExplorationError::InvalidPlayerRange => "invalid player range"@,
        ExplorationError::NoRangeCandidates => "no range candidates matched the spec"@,
    }
}

impl ExplorationError {
    pub fn code(&self) -> (r: &'static str)
        ensures
            r@ == exploration_error_code(*self),
    {
        match self {
            ExplorationError::Engine(error) => error.code(),
            ExplorationError::NoActiveHand => "NO_ACTIVE_HAND",
            ExplorationError::MissingPendingHandSpec => "MISSING_PENDING_HAND_SPEC",
            ExplorationError::PendingHandRequiresNoActiveHand => "PENDING_HAND_REQUIRES_NO_ACTIVE_HAND",
            ExplorationError::HiddenPlayRequiresActiveHand => "HIDDEN_PLAY_REQUIRES_ACTIVE_HAND",
            ExplorationError::NoHiddenPlayToOverride => "NO_HIDDEN_PLAY_TO_OVERRIDE",
            ExplorationError::NoCompletedHiddenPlayToOverride => "NO_COMPLETED_HIDDEN_PLAY_TO_OVERRIDE",
            ExplorationError::InvalidPlayerRange => "INVALID_PLAYER_RANGE",
            ExplorationError::NoRangeCandidates => "NO_RANGE_CANDIDATES",
        }
    }

    /// The human-readable message of the error.
    pub fn message(&self) -> (r: &'static str)
        ensures
            r@ == exploration_error_message(*self),
    {
        match self {
            ExplorationError::Engine(error) => error.message(),
            ExplorationError::NoActiveHand => "exploration spec requires an active hand",
            ExplorationError::MissingPendingHandSpec => "exploration spec requires `pending_hand` when no active hand is present",
            ExplorationError::PendingHandRequiresNoActiveHand => "`pending_hand` may only be used when no active hand is present",
            ExplorationError::HiddenPlayRequiresActiveHand => "hidden-play exploration requires an active hand",
            ExplorationError::NoHiddenPlayToOverride => "no hidden face-down play exists for that player",
            ExplorationError::NoCompletedHiddenPlayToOverride => "no completed-round hidden face-down play exists at that target",
            ExplorationError::InvalidPlayerRange => "invalid player range",
            ExplorationError::NoRangeCandidates => "no range candidates matched the spec",
        }
    }
}

/// The hand range of a seat, if any.
pub open spec fn range_of(ranges: HiddenRanges, player: Player) -> Option<PlayerRangeSpec> {
    if player == 0 {
        ranges.zero
    } else if player == 1 {
        ranges.one
    } else {
        None
    }
}

/// The hidden-play range of a seat, if any.
pub open spec fn play_range_of(plays: HiddenPlayRanges, player: Player) -> Option<HiddenPlayRangeSpec> {
    if player == 0 {
        plays.zero
    } else if player == 1 {
        plays.one
    } else {
        None
    }
}

impl HiddenRanges {
    pub fn player(&self, player: Player) -> (r: Option<&PlayerRangeSpec>)
        ensures
            match r {
                Some(x) => range_of(*self, player) == Some(*x),
                None => range_of(*self, player) is None,
            },
    {
        match player {
            0 => self.zero.as_ref(),
            1 => self.one.as_ref(),
            _ => None,
        }
    }
}

impl HiddenPlayRanges {
    pub fn player(&self, player: Player) -> (r: Option<&HiddenPlayRangeSpec>)
        ensures
            match r {
                Some(x) => play_range_of(*self, player) == Some(*x),
                None => play_range_of(*self, player) is None,
            },
    {
        match player {
            0 => self.zero.as_ref(),
            1 => self.one.as_ref(),
            _ => None,
        }
    }
}

impl Default for HiddenRanges {
    fn default() -> (r: Self)
        ensures
            r.zero is None && r.one is None,
    {
        HiddenRanges { zero: None, one: None }
    }
}

impl Default for HiddenPlayRanges {
    fn default() -> (r: Self)
        ensures
            r.zero is None && r.one is None,
    {
        HiddenPlayRanges { zero: None, one: None }
    }
}

// ---------------------------------------------------------------------------
// Which faces are free, and which cards a range admits
// ---------------------------------------------------------------------------
/// The face of the turnup card.
pub open spec fn turnup_face(turnup: Turnup) -> CardFace {
    CardFace { rank: turnup.rank, suit: turnup.suit }
}

/// The faces of a list of cards.
pub open spec fn faces_of(cards: Seq<Card>) -> Seq<CardFace> {
    cards.map_values(|c: Card| face_of(c))
}

/// `faces` without any occurrence of each of `removed`.
pub open spec fn without_each(faces: Seq<CardFace>, removed: Seq<CardFace>) -> Seq<CardFace>
    decreases removed.len(),
{
    if removed.len() == 0 {
        faces
    } else {
        without_every(without_each(faces, removed.drop_last()), removed.last())
    }
}

/// Whether some completed-round override targets this round and seat.
pub open spec fn overridden(
    overrides: Seq<CompletedHiddenPlayOverride>,
    round_index: int,
    player: Player,
) -> bool {
    exists|k: int|
        0 <= k < overrides.len() && #[trigger] overrides[k].round_index == round_index
            && overrides[k].player == player
}

/// The faces of a completed round's plays that stay fixed: all but the face-down
/// plays that an override replaces.
pub open spec fn kept_round_plays(
    plays: Seq<PlayedCard>,
    round_index: int,
    overrides: Seq<CompletedHiddenPlayOverride>,
) -> Seq<CardFace>
    decreases plays.len(),
{
    if plays.len() == 0 {
        Seq::empty()
    } else {
        let rest = kept_round_plays(plays.drop_last(), round_index, overrides);
        let play = plays.last();
        if play.visibility == Visibility::Down && overridden(overrides, round_index, play.player) {
            rest
        } else {
            rest.push(face_of(play.card))
        }
    }
}

/// The fixed faces of all completed rounds, round by round.
pub open spec fn kept_rounds(rounds: Seq<RoundView>, overrides: Seq<CompletedHiddenPlayOverride>) -> Seq<
    CardFace,
>
    decreases rounds.len(),
{
    if rounds.len() == 0 {
        Seq::empty()
    } else {
        kept_rounds(rounds.drop_last(), overrides) + kept_round_plays(
            rounds.last().plays,
            rounds.len() - 1,
            overrides,
        )
    }
}

/// The fixed faces of the current round: all but the face-down plays of ranged seats.
pub open spec fn kept_current_plays(plays: Seq<PlayedCard>, ranged: HiddenPlayRanges) -> Seq<CardFace>
    decreases plays.len(),
{
    if plays.len() == 0 {
        Seq::empty()
    } else {
        let rest = kept_current_plays(plays.drop_last(), ranged);
        let play = plays.last();
        if play.visibility == Visibility::Down && play_range_of(ranged, play.player) is Some {
            rest
        } else {
            rest.push(face_of(play.card))
        }
    }
}

/// The faces of the hands that no range replaces.
pub open spec fn kept_hands(s: StateView, ranges: HiddenRanges) -> Seq<CardFace> {
    (if range_of(ranges, 0) is None {
        faces_of(s.hand_zero)
    } else {
        Seq::empty()
    }) + (if range_of(ranges, 1) is None {
        faces_of(s.hand_one)
    } else {
        Seq::empty()
    })
}

/// The faces free for a re-deal of an active hand: the deck without the turnup and
/// without every card that stays fixed.
pub open spec fn open_faces(
    s: StateView,
    ranges: HiddenRanges,
    plays: HiddenPlayRanges,
    overrides: Seq<CompletedHiddenPlayOverride>,
) -> Seq<CardFace> {
    without_each(
        without_every(standard_deck(), turnup_face(s.turnup)),
        kept_rounds(s.completed_rounds, overrides) + kept_current_plays(s.current_plays, plays)
            + kept_hands(s, ranges),
    )
}

/// The face of the first face-down play of `player` among `plays`.
pub open spec fn first_hidden_face(plays: Seq<PlayedCard>, player: Player) -> Option<CardFace>
    decreases plays.len(),
{
    if plays.len() == 0 {
        None
    } else if plays[0].player == player && plays[0].visibility == Visibility::Down {
        Some(face_of(plays[0].card))
    } else {
        first_hidden_face(plays.drop_first(), player)
    }
}

/// The faces of `available` that a constraint admits, in order.
pub open spec fn admitted_faces(c: CardConstraint, available: Seq<CardFace>, turnup: Turnup) -> Seq<
    CardFace,
>
    decreases available.len(),
{
    if available.len() == 0 {
        available
    } else {
        let rest = admitted_faces(c, available.drop_last(), turnup);
        if crate::ranges::constraint_admits(c, available.last(), turnup) {
            rest.push(available.last())
        } else {
            rest
        }
    }
}

/// Each face of `available` that an option admits, option by option, with the option's
/// weight; options of weight zero offer nothing.
pub open spec fn card_candidates(
    options: Seq<WeightedCardOption>,
    available: Seq<CardFace>,
    turnup: Turnup,
) -> Seq<(u64, CardFace)>
    decreases options.len(),
{
    if options.len() == 0 {
        Seq::empty()
    } else {
        let rest = card_candidates(options.drop_last(), available, turnup);
        let option = options.last();
        if option.weight == 0 {
            rest
        } else {
            rest + admitted_faces(option.card, available, turnup).map_values(
                |f: CardFace| (option.weight as u64, f),
            )
        }
    }
}

/// Each hand of `size` faces from `available` that an option's pattern admits, option by
/// option, with the option's weight; options of weight zero offer nothing.
pub open spec fn hand_candidates(
    options: Seq<WeightedHandOption>,
    available: Seq<CardFace>,
    size: nat,
    turnup: Turnup,
) -> Seq<(u32, Seq<CardFace>)>
    decreases options.len(),
{
    if options.len() == 0 {
        Seq::empty()
    } else {
        let rest = hand_candidates(options.drop_last(), available, size, turnup);
        let option = options.last();
        if option.weight == 0 {
            rest
        } else {
            rest + matching_hands(hands_of(available, size), option.hand, turnup).map_values(
                |h: Seq<CardFace>| (option.weight, h),
            )
        }
    }
}

/// The product of two weights, capped at the largest `u64`.
pub open spec fn capped_mul(a: u64, b: u64) -> u64 {
    if a * b > u64::MAX {
        u64::MAX
    } else {
        (a * b) as u64
    }
}

pub fn capped_product(a: u64, b: u64) -> (r: u64)
    ensures
        r == capped_mul(a, b),
{
    match a.checked_mul(b) {
        Some(p) => p,
        None => u64::MAX,
    }
}

fn is_overridden(overrides: &[CompletedHiddenPlayOverride], round_index: usize, player: Player) -> (r:
    bool)
    ensures
        r == overridden(overrides@, round_index as int, player),
{
    let mut k: usize = 0;
    while k < overrides.len()
        invariant
            k <= overrides@.len(),
            forall|j: int|
                0 <= j < k ==> !(#[trigger] overrides@[j].round_index == round_index
                    && overrides@[j].player == player),
        decreases overrides@.len() - k,
    {
        if overrides[k].round_index == round_index && overrides[k].player == player {
            return true;
        }
        k += 1;
    }
    false
}

fn push_kept_round_plays(
    plays: &[PlayedCard],
    round_index: usize,
    overrides: &[CompletedHiddenPlayOverride],
    out: &mut Vec<CardFace>,
)
    ensures
        final(out)@ == old(out)@ + kept_round_plays(plays@, round_index as int, overrides@),
{
    let ghost start = out@;
    let mut i: usize = 0;
    while i < plays.len()
        invariant
            i <= plays@.len(),
            out@ == start + kept_round_plays(plays@.take(i as int), round_index as int, overrides@),
        decreases plays@.len() - i,
    {
        assert(plays@.take(i as int + 1).drop_last() =~= plays@.take(i as int));
        let play = &plays[i];
        let hidden_override = play.visibility == Visibility::Down && is_overridden(
            overrides,
            round_index,
            play.player,
        );
        if !hidden_override {
            out.push(CardFace::of_card(&play.card));
        }
        i += 1;
        assert(out@ =~= start + kept_round_plays(
            plays@.take(i as int),
            round_index as int,
            overrides@,
        ));
    }
    assert(plays@.take(plays@.len() as int) =~= plays@);
}

fn push_kept_current_plays(plays: &[PlayedCard], ranged: &HiddenPlayRanges, out: &mut Vec<CardFace>)
    ensures
        final(out)@ == old(out)@ + kept_current_plays(plays@, *ranged),
{
    let ghost start = out@;
    let mut i: usize = 0;
    while i < plays.len()
        invariant
            i <= plays@.len(),
            out@ == start + kept_current_plays(plays@.take(i as int), *ranged),
        decreases plays@.len() - i,
    {
        assert(plays@.take(i as int + 1).drop_last() =~= plays@.take(i as int));
        let play = &plays[i];
        let hidden_override = play.visibility == Visibility::Down && ranged.player(
            play.player,
        ).is_some();
        if !hidden_override {
            out.push(CardFace::of_card(&play.card));
        }
        i += 1;
        assert(out@ =~= start + kept_current_plays(plays@.take(i as int), *ranged));
    }
    assert(plays@.take(plays@.len() as int) =~= plays@);
}

fn push_faces(cards: &[Card], out: &mut Vec<CardFace>)
    ensures
        final(out)@ == old(out)@ + faces_of(cards@),
{
    let ghost start = out@;
    let mut i: usize = 0;
    while i < cards.len()
        invariant
            i <= cards@.len(),
            out@ == start + faces_of(cards@.take(i as int)),
        decreases cards@.len() - i,
    {
        out.push(CardFace::of_card(&cards[i]));
        i += 1;
        assert(out@ =~= start + faces_of(cards@.take(i as int)));
    }
    assert(cards@.take(cards@.len() as int) =~= cards@);
}

/// `faces` without any occurrence of each of `removed`.
fn remove_each(faces: Vec<CardFace>, removed: &[CardFace]) -> (r: Vec<CardFace>)
    ensures
        r@ == without_each(faces@, removed@),
{
    let ghost start = faces@;
    let mut out = faces;
    let mut i: usize = 0;
    while i < removed.len()
        invariant
            i <= removed@.len(),
            out@ == without_each(start, removed@.take(i as int)),
        decreases removed@.len() - i,
    {
        assert(removed@.take(i as int + 1).drop_last() =~= removed@.take(i as int));
        out = crate::ranges::faces_without(out.as_slice(), removed[i]);
        i += 1;
    }
    assert(removed@.take(removed@.len() as int) =~= removed@);
    out
}

/// The faces free for a re-deal of an active hand.
fn available_cards(
    state: &crate::state::GameState,
    hidden_ranges: &HiddenRanges,
    hidden_plays: &HiddenPlayRanges,
    completed_hidden_plays: &[CompletedHiddenPlayOverride],
) -> (r: Vec<CardFace>)
    ensures
        r@ == open_faces(state@, *hidden_ranges, *hidden_plays, completed_hidden_plays@),
{
    let turnup = CardFace { rank: state.turnup.rank, suit: state.turnup.suit };
    let deck = crate::ranges::full_deck();
    let base = crate::ranges::faces_without(deck.as_slice(), turnup);
    let mut fixed: Vec<CardFace> = Vec::new();
    let rounds = state.completed_rounds.as_slice();
    let ghost round_views = state@.completed_rounds;
    let mut ri: usize = 0;
    while ri < rounds.len()
        invariant
            ri <= rounds@.len(),
            rounds@.map_values(|round: crate::state::CompletedRound| round@) == round_views,
            fixed@ == kept_rounds(round_views.take(ri as int), completed_hidden_plays@),
        decreases rounds@.len() - ri,
    {
        assert(round_views.take(ri as int + 1).drop_last() =~= round_views.take(ri as int));
        assert(round_views[ri as int] == rounds@[ri as int]@);
        push_kept_round_plays(rounds[ri].plays.as_slice(), ri, completed_hidden_plays, &mut fixed);
        ri += 1;
    }
    assert(round_views.take(rounds@.len() as int) =~= round_views);
    push_kept_current_plays(state.current_round.plays.as_slice(), hidden_plays, &mut fixed);
    if hidden_ranges.player(0).is_none() {
        push_faces(state.hands.zero.as_slice(), &mut fixed);
    }
    if hidden_ranges.player(1).is_none() {
        push_faces(state.hands.one.as_slice(), &mut fixed);
    }
    assert(fixed@ =~= kept_rounds(state@.completed_rounds, completed_hidden_plays@)
        + kept_current_plays(state@.current_plays, *hidden_plays) + kept_hands(
        state@,
        *hidden_ranges,
    ));
    remove_each(base, fixed.as_slice())
}

/// The face of the first face-down play of `player`.
fn hidden_play_of(plays: &[PlayedCard], player: Player) -> (r: Option<CardFace>)
    ensures
        r == first_hidden_face(plays@, player),
{
    assert(plays@.skip(0) =~= plays@);
    let mut i: usize = 0;
    while i < plays.len()
        invariant
            i <= plays@.len(),
            first_hidden_face(plays@.skip(i as int), player) == first_hidden_face(plays@, player),
        decreases plays@.len() - i,
    {
        assert(plays@.skip(i as int).drop_first() =~= plays@.skip(i as int + 1));
        if plays[i].player == player && plays[i].visibility == Visibility::Down {
            return Some(CardFace::of_card(&plays[i].card));
        }
        i += 1;
    }
    assert(plays@.skip(i as int).len() == 0);
    None
}

fn admitted(constraint: &CardConstraint, available: &[CardFace], turnup: &Turnup) -> (r: Vec<
    CardFace,
>)
    ensures
        r@ == admitted_faces(*constraint, available@, *turnup),
{
    let mut out: Vec<CardFace> = Vec::new();
    let mut i: usize = 0;
    while i < available.len()
        invariant
            i <= available@.len(),
            out@ == admitted_faces(*constraint, available@.take(i as int), *turnup),
        decreases available@.len() - i,
    {
        assert(available@.take(i as int + 1).drop_last() =~= available@.take(i as int));
        if crate::ranges::constraint_matches(constraint, &available[i], turnup) {
            out.push(available[i]);
        }
        i += 1;
    }
    assert(available@.take(available@.len() as int) =~= available@);
    out
}

/// Each admitted face with its option's weight.
fn build_card_candidates(options: &[WeightedCardOption], available: &[CardFace], turnup: &Turnup) -> (r:
    Vec<(u64, CardFace)>)
    ensures
        r@ == card_candidates(options@, available@, *turnup),
{
    let mut out: Vec<(u64, CardFace)> = Vec::new();
    let mut i: usize = 0;
    while i < options.len()
        invariant
            i <= options@.len(),
            out@ == card_candidates(options@.take(i as int), available@, *turnup),
        decreases options@.len() - i,
    {
        assert(options@.take(i as int + 1).drop_last() =~= options@.take(i as int));
        let option = &options[i];
        if option.weight != 0 {
            let faces = admitted(&option.card, available, turnup);
            let ghost start = out@;
            let ghost mapped = faces@.map_values(|f: CardFace| (option.weight as u64, f));
            let mut k: usize = 0;
            while k < faces.len()
                invariant
                    k <= faces@.len(),
                    mapped == faces@.map_values(|f: CardFace| (option.weight as u64, f)),
                    out@ == start + mapped.take(k as int),
                decreases faces@.len() - k,
            {
                out.push((option.weight as u64, faces[k]));
                k += 1;
                assert(out@ =~= start + mapped.take(k as int));
            }
            assert(mapped.take(faces@.len() as int) =~= mapped);
        }
        i += 1;
    }
    assert(options@.take(options@.len() as int) =~= options@);
    out
}

/// The plain values of weighted hands.
pub open spec fn weighted_hand_views(hands: Seq<(u32, Vec<CardFace>)>) -> Seq<(u32, Seq<CardFace>)> {
    hands.map_values(|h: (u32, Vec<CardFace>)| (h.0, h.1@))
}

/// Each admitted hand with its option's weight.
fn build_weighted_hands(
    options: &[WeightedHandOption],
    available: &[CardFace],
    size: usize,
    turnup: &Turnup,
) -> (r: Vec<(u32, Vec<CardFace>)>)
    ensures
        weighted_hand_views(r@) == hand_candidates(options@, available@, size as nat, *turnup),
{
    let mut out: Vec<(u32, Vec<CardFace>)> = Vec::new();
    let mut i: usize = 0;
    while i < options.len()
        invariant
            i <= options@.len(),
            weighted_hand_views(out@) == hand_candidates(
                options@.take(i as int),
                available@,
                size as nat,
                *turnup,
            ),
        decreases options@.len() - i,
    {
        assert(options@.take(i as int + 1).drop_last() =~= options@.take(i as int));
        let option = &options[i];
        if option.weight != 0 {
            let hands = crate::ranges::enumerate_matching_hands(
                available,
                size,
                &option.hand,
                turnup,
            );
            let ghost start = weighted_hand_views(out@);
            let ghost mapped = crate::ranges::face_lists(hands@).map_values(
                |h: Seq<CardFace>| (option.weight, h),
            );
            let mut k: usize = 0;
            while k < hands.len()
                invariant
                    k <= hands@.len(),
                    mapped == crate::ranges::face_lists(hands@).map_values(
                        |h: Seq<CardFace>| (option.weight, h),
                    ),
                    weighted_hand_views(out@) == start + mapped.take(k as int),
                decreases hands@.len() - k,
            {
                let ghost before = out@;
                out.push((option.weight, crate::ranges::copy_faces(hands[k].as_slice())));
                assert(weighted_hand_views(out@) =~= weighted_hand_views(before).push(
                    mapped[k as int],
                ));
                k += 1;
                assert(weighted_hand_views(out@) =~= start + mapped.take(k as int));
            }
            assert(mapped.take(hands@.len() as int) =~= mapped);
        }
        i += 1;
    }
    assert(options@.take(options@.len() as int) =~= options@);
    out
}

// ---------------------------------------------------------------------------
// Candidates for each seat's private cards, and their joint assignments
// ---------------------------------------------------------------------------
/// A candidate for one seat's private cards: its weight, its face-down play (where that
/// play is ranged) and its hand.
pub struct PrivateView {
    pub weight: u64,
    pub hidden_play: Option<CardFace>,
    pub hand: Seq<CardFace>,
}

/// The options for a seat's face-down play: each admitted face with its weight, or, with
/// no range, the play as it is; `None` when a range admits nothing.
pub open spec fn hidden_choices(
    available: Seq<CardFace>,
    fixed: Option<CardFace>,
    range: Option<HiddenPlayRangeSpec>,
    turnup: Turnup,
) -> Option<Seq<(u64, Option<CardFace>)>> {
    match range {
        Some(r) => {
            let c = card_candidates(r.weighted_cards@, available, turnup);
            if c.len() == 0 {
                None
            } else {
                Some(c.map_values(|x: (u64, CardFace)| (x.0, Some(x.1))))
            }
        },
        None => Some(seq![(1u64, fixed)]),
    }
}

/// The options for a seat's hand: each admitted hand with its weight, or, with no
/// range, the hand as it is; `None` when a range admits nothing.
pub open spec fn hand_choices(
    available: Seq<CardFace>,
    size: nat,
    range: Option<PlayerRangeSpec>,
    fixed_hand: Seq<Card>,
    turnup: Turnup,
) -> Option<Seq<(u32, Seq<CardFace>)>> {
    match range {
        Some(r) => {
            let c = hand_candidates(r.weighted_hands@, available, size, turnup);
            if c.len() == 0 {
                None
            } else {
                Some(c)
            }
        },
        None => Some(seq![(1u32, faces_of(fixed_hand))]),
    }
}

/// Every pairing of a face-down option with a hand drawn from the faces it leaves, with
/// the two weights multiplied; `None` when some face-down option leaves no hand.
pub open spec fn private_choices(
    hidden: Seq<(u64, Option<CardFace>)>,
    available: Seq<CardFace>,
    size: nat,
    range: Option<PlayerRangeSpec>,
    fixed_hand: Seq<Card>,
    turnup: Turnup,
) -> Option<Seq<PrivateView>>
    decreases hidden.len(),
{
    if hidden.len() == 0 {
        Some(Seq::empty())
    } else {
        match private_choices(hidden.drop_last(), available, size, range, fixed_hand, turnup) {
            None => None,
            Some(rest) => {
                let h = hidden.last();
                let hand_available = match h.1 {
                    Some(f) => without_first(available, f),
                    None => available,
                };
                match hand_choices(hand_available, size, range, fixed_hand, turnup) {
                    None => None,
                    Some(hands) => Some(
                        rest + hands.map_values(
                            |x: (u32, Seq<CardFace>)|
                                PrivateView {
                                    weight: capped_mul(h.0, x.0 as u64),
                                    hidden_play: h.1,
                                    hand: x.1,
                                },
                        ),
                    ),
                }
            },
        }
    }
}

/// The candidates for one seat of an active hand, or why there are none.
pub open spec fn player_choices(
    s: StateView,
    player: Player,
    available: Seq<CardFace>,
    ranges: HiddenRanges,
    plays: HiddenPlayRanges,
) -> Result<Seq<PrivateView>, ExplorationError> {
    let fixed = first_hidden_face(s.current_plays, player);
    if play_range_of(plays, player) is Some && fixed is None {
        Err(ExplorationError::NoHiddenPlayToOverride)
    } else {
        match hidden_choices(available, fixed, play_range_of(plays, player), s.turnup) {
            None => Err(ExplorationError::NoRangeCandidates),
            Some(h) => match private_choices(
                h,
                available,
                s.hand(player).len(),
                range_of(ranges, player),
                s.hand(player),
                s.turnup,
            ) {
                None => Err(ExplorationError::NoRangeCandidates),
                Some(c) => if c.len() == 0 {
                    Err(ExplorationError::NoRangeCandidates)
                } else {
                    Ok(c)
                },
            },
        }
    }
}

/// The candidates of each seat in turn; the first seat without candidates decides the error.
pub open spec fn seat_choices(
    s: StateView,
    seats: Seq<Player>,
    available: Seq<CardFace>,
    ranges: HiddenRanges,
    plays: HiddenPlayRanges,
) -> Result<Seq<Seq<PrivateView>>, ExplorationError>
    decreases seats.len(),
{
    if seats.len() == 0 {
        Ok(Seq::empty())
    } else {
        match seat_choices(s, seats.drop_last(), available, ranges, plays) {
            Err(e) => Err(e),
            Ok(prev) => match player_choices(s, seats.last(), available, ranges, plays) {
                Err(e) => Err(e),
                Ok(c) => Ok(prev.push(c)),
            },
        }
    }
}

/// The faces a candidate takes: its hand and its face-down play.
pub open spec fn cards_taken(c: PrivateView) -> Seq<CardFace> {
    match c.hidden_play {
        Some(f) => c.hand.push(f),
        None => c.hand,
    }
}

/// Whether two candidates claim a common face.
pub open spec fn private_overlap(a: PrivateView, b: PrivateView) -> bool {
    exists|i: int, j: int|
        0 <= i < cards_taken(a).len() && 0 <= j < cards_taken(b).len() && #[trigger] cards_taken(
            a,
        )[i] == #[trigger] cards_taken(b)[j]
}

/// One candidate for each re-dealt seat, with the product of their weights.
pub struct AssignmentView {
    pub weight: u64,
    pub choices: Seq<(Player, PrivateView)>,
}

/// `x` for the first seat with each candidate `y` of the second that shares no face with it.
pub open spec fn paired_with(p0: Player, x: PrivateView, p1: Player, ys: Seq<PrivateView>) -> Seq<
    AssignmentView,
>
    decreases ys.len(),
{
    if ys.len() == 0 {
        Seq::empty()
    } else {
        let rest = paired_with(p0, x, p1, ys.drop_last());
        let y = ys.last();
        if private_overlap(x, y) {
            rest
        } else {
            rest.push(
                AssignmentView {
                    weight: capped_mul(x.weight, y.weight),
                    choices: seq![(p0, x), (p1, y)],
                },
            )
        }
    }
}

/// Every compatible pair of candidates for two seats, first seat's candidates outermost.
pub open spec fn paired(p0: Player, xs: Seq<PrivateView>, p1: Player, ys: Seq<PrivateView>) -> Seq<
    AssignmentView,
>
    decreases xs.len(),
{
    if xs.len() == 0 {
        Seq::empty()
    } else {
        paired(p0, xs.drop_last(), p1, ys) + paired_with(p0, xs.last(), p1, ys)
    }
}

/// The joint assignments for up to two re-dealt seats.
pub open spec fn private_assignments(seats: Seq<Player>, cands: Seq<Seq<PrivateView>>) -> Seq<
    AssignmentView,
> {
    if seats.len() == 0 {
        seq![AssignmentView { weight: 1, choices: Seq::empty() }]
    } else if seats.len() == 1 {
        cands[0].map_values(
            |c: PrivateView| AssignmentView { weight: c.weight, choices: seq![(seats[0], c)] },
        )
    } else {
        paired(seats[0], cands[0], seats[1], cands[1])
    }
}

struct PrivateChoice {
    weight: u64,
    hidden_play: Option<CardFace>,
    hand_cards: Vec<CardFace>,
}

impl View for PrivateChoice {
    type V = PrivateView;

    closed spec fn view(&self) -> PrivateView {
        PrivateView { weight: self.weight, hidden_play: self.hidden_play, hand: self.hand_cards@ }
    }
}

spec fn private_views(v: Seq<PrivateChoice>) -> Seq<PrivateView> {
    v.map_values(|c: PrivateChoice| c@)
}

fn copy_choice(c: &PrivateChoice) -> (r: PrivateChoice)
    ensures
        r@ == c@,
{
    PrivateChoice {
        weight: c.weight,
        hidden_play: c.hidden_play,
        hand_cards: crate::ranges::copy_faces(c.hand_cards.as_slice()),
    }
}

spec fn opt_val<T>(o: Option<&T>) -> Option<T> {
    match o {
        Some(x) => Some(*x),
        None => None,
    }
}

fn build_hidden_choices(
    available: &[CardFace],
    fixed: Option<CardFace>,
    range: Option<&HiddenPlayRangeSpec>,
    turnup: &Turnup,
) -> (r: Option<Vec<(u64, Option<CardFace>)>>)
    ensures
        match r {
            Some(v) => hidden_choices(available@, fixed, opt_val(range), *turnup) == Some(v@),
            None => hidden_choices(available@, fixed, opt_val(range), *turnup) is None,
        },
{
    match range {
        Some(spec) => {
            let candidates = build_card_candidates(spec.weighted_cards.as_slice(), available, turnup);
            if candidates.len() == 0 {
                return None;
            }
            let ghost mapped = candidates@.map_values(|x: (u64, CardFace)| (x.0, Some(x.1)));
            let mut out: Vec<(u64, Option<CardFace>)> = Vec::new();
            let mut k: usize = 0;
            while k < candidates.len()
                invariant
                    k <= candidates@.len(),
                    mapped == candidates@.map_values(|x: (u64, CardFace)| (x.0, Some(x.1))),
                    out@ == mapped.take(k as int),
                decreases candidates@.len() - k,
            {
                out.push((candidates[k].0, Some(candidates[k].1)));
                k += 1;
                assert(out@ =~= mapped.take(k as int));
            }
            assert(mapped.take(candidates@.len() as int) =~= mapped);
            Some(out)
        },
        None => {
            let mut out: Vec<(u64, Option<CardFace>)> = Vec::new();
            out.push((1, fixed));
            assert(out@ =~= seq![(1u64, fixed)]);
            Some(out)
        },
    }
}

fn build_hand_choices(
    available: &[CardFace],
    size: usize,
    range: Option<&PlayerRangeSpec>,
    fixed_hand: &[Card],
    turnup: &Turnup,
) -> (r: Option<Vec<(u32, Vec<CardFace>)>>)
    ensures
        match r {
            Some(v) => hand_choices(available@, size as nat, opt_val(range), fixed_hand@, *turnup)
                == Some(weighted_hand_views(v@)),
            None => hand_choices(available@, size as nat, opt_val(range), fixed_hand@, *turnup) is None,
        },
{
    match range {
        Some(spec) => {
            let hands = build_weighted_hands(spec.weighted_hands.as_slice(), available, size, turnup);
            if hands.len() == 0 {
                return None;
            }
            Some(hands)
        },
        None => {
            let mut faces: Vec<CardFace> = Vec::new();
            push_faces(fixed_hand, &mut faces);
            assert(faces@ =~= faces_of(fixed_hand@));
            let mut out: Vec<(u32, Vec<CardFace>)> = Vec::new();
            out.push((1, faces));
            assert(weighted_hand_views(out@) =~= seq![(1u32, faces_of(fixed_hand@))]);
            Some(out)
        },
    }
}

fn build_private_choices(
    hidden: &Vec<(u64, Option<CardFace>)>,
    available: &Vec<CardFace>,
    size: usize,
    range: Option<&PlayerRangeSpec>,
    fixed_hand: &[Card],
    turnup: &Turnup,
) -> (r: Option<Vec<PrivateChoice>>)
    ensures
        match r {
            Some(v) => private_choices(
                hidden@,
                available@,
                size as nat,
                opt_val(range),
                fixed_hand@,
                *turnup,
            ) == Some(private_views(v@)),
            None => private_choices(
                hidden@,
                available@,
                size as nat,
                opt_val(range),
                fixed_hand@,
                *turnup,
            ) is None,
        },
{
    let mut out: Vec<PrivateChoice> = Vec::new();
    let mut i: usize = 0;
    while i < hidden.len()
        invariant
            i <= hidden@.len(),
            private_choices(
                hidden@.take(i as int),
                available@,
                size as nat,
                opt_val(range),
                fixed_hand@,
                *turnup,
            ) == Some(private_views(out@)),
        decreases hidden@.len() - i,
    {
        assert(hidden@.take(i as int + 1).drop_last() =~= hidden@.take(i as int));
        let (weight, hidden_play) = hidden[i];
        let mut hand_available = crate::ranges::copy_faces(available.as_slice());
        if let Some(card) = hidden_play {
            crate::ranges::remove_first_face(&mut hand_available, card);
        }
        let hands = match build_hand_choices(
            hand_available.as_slice(),
            size,
            range,
            fixed_hand,
            turnup,
        ) {
            Some(h) => h,
            None => {
                assert(private_choices(
                    hidden@,
                    available@,
                    size as nat,
                    opt_val(range),
                    fixed_hand@,
                    *turnup,
                ) is None) by {
                    lemma_private_choices_prefix_none(
                        hidden@,
                        available@,
                        size as nat,
                        opt_val(range),
                        fixed_hand@,
                        *turnup,
                        i as int + 1,
                    );
                }
                return None;
            },
        };
        let ghost start = private_views(out@);
        let ghost mapped = weighted_hand_views(hands@).map_values(
            |x: (u32, Seq<CardFace>)|
                PrivateView { weight: capped_mul(weight, x.0 as u64), hidden_play, hand: x.1 },
        );
        let mut k: usize = 0;
        while k < hands.len()
            invariant
                k <= hands@.len(),
                mapped == weighted_hand_views(hands@).map_values(
                    |x: (u32, Seq<CardFace>)|
                        PrivateView {
                            weight: capped_mul(weight, x.0 as u64),
                            hidden_play,
                            hand: x.1,
                        },
                ),
                private_views(out@) == start + mapped.take(k as int),
            decreases hands@.len() - k,
        {
            let ghost before = out@;
            let w = capped_product(weight, hands[k].0 as u64);
            out.push(
                PrivateChoice {
                    weight: w,
                    hidden_play,
                    hand_cards: crate::ranges::copy_faces(hands[k].1.as_slice()),
                },
            );
            assert(private_views(out@) =~= private_views(before).push(mapped[k as int]));
            k += 1;
            assert(private_views(out@) =~= start + mapped.take(k as int));
        }
        assert(mapped.take(hands@.len() as int) =~= mapped);
        i += 1;
    }
    assert(hidden@.take(hidden@.len() as int) =~= hidden@);
    Some(out)
}

proof fn lemma_private_choices_prefix_none(
    hidden: Seq<(u64, Option<CardFace>)>,
    available: Seq<CardFace>,
    size: nat,
    range: Option<PlayerRangeSpec>,
    fixed_hand: Seq<Card>,
    turnup: Turnup,
    n: int,
)
    requires
        0 <= n <= hidden.len(),
        private_choices(hidden.take(n), available, size, range, fixed_hand, turnup) is None,
    ensures
        private_choices(hidden, available, size, range, fixed_hand, turnup) is None,
    decreases hidden.len() - n,
{
    if n < hidden.len() {
        assert(hidden.take(n + 1).drop_last() =~= hidden.take(n));
        lemma_private_choices_prefix_none(hidden, available, size, range, fixed_hand, turnup, n + 1);
    } else {
        assert(hidden.take(n) =~= hidden);
    }
}

fn build_player_choices(
    state: &crate::state::GameState,
    player: Player,
    available: &Vec<CardFace>,
    hidden_ranges: &HiddenRanges,
    hidden_plays: &HiddenPlayRanges,
) -> (r: Result<Vec<PrivateChoice>, ExplorationError>)
    ensures
        match r {
            Ok(v) => player_choices(state@, player, available@, *hidden_ranges, *hidden_plays)
                == Ok::<Seq<PrivateView>, ExplorationError>(private_views(v@)),
            Err(e) => player_choices(state@, player, available@, *hidden_ranges, *hidden_plays)
                == Err::<Seq<PrivateView>, ExplorationError>(e),
        },
{
    let hand = state.hands.player(player);
    let fixed_hidden_play = hidden_play_of(state.current_round.plays.as_slice(), player);
    let play_range = hidden_plays.player(player);
    if play_range.is_some() && fixed_hidden_play.is_none() {
        return Err(ExplorationError::NoHiddenPlayToOverride);
    }
    let hidden = match build_hidden_choices(
        available.as_slice(),
        fixed_hidden_play,
        play_range,
        &state.turnup,
    ) {
        Some(h) => h,
        None => {
            return Err(ExplorationError::NoRangeCandidates);
        },
    };
    let choices = match build_private_choices(
        &hidden,
        available,
        hand.len(),
        hidden_ranges.player(player),
        hand,
        &state.turnup,
    ) {
        Some(c) => c,
        None => {
            return Err(ExplorationError::NoRangeCandidates);
        },
    };
    if choices.len() == 0 {
        return Err(ExplorationError::NoRangeCandidates);
    }
    Ok(choices)
}

/// Whether two candidates claim a common face.
fn choices_overlap(a: &PrivateChoice, b: &PrivateChoice) -> (r: bool)
    ensures
        r == private_overlap(a@, b@),
{
    let mut left = crate::ranges::copy_faces(a.hand_cards.as_slice());
    if let Some(f) = a.hidden_play {
        left.push(f);
    }
    let mut right = crate::ranges::copy_faces(b.hand_cards.as_slice());
    if let Some(f) = b.hidden_play {
        right.push(f);
    }
    assert(left@ =~= cards_taken(a@));
    assert(right@ =~= cards_taken(b@));
    let mut i: usize = 0;
    while i < left.len()
        invariant
            i <= left@.len(),
            left@ == cards_taken(a@),
            right@ == cards_taken(b@),
            forall|x: int, y: int|
                0 <= x < i && 0 <= y < right@.len() ==> #[trigger] left@[x] != #[trigger] right@[y],
        decreases left@.len() - i,
    {
        let mut j: usize = 0;
        while j < right.len()
            invariant
                i < left@.len(),
                j <= right@.len(),
                left@ == cards_taken(a@),
                right@ == cards_taken(b@),
                forall|x: int, y: int|
                    0 <= x < i && 0 <= y < right@.len() ==> #[trigger] left@[x] != #[trigger] right@[y],
                forall|y: int| 0 <= y < j ==> left@[i as int] != #[trigger] right@[y],
            decreases right@.len() - j,
        {
            if left[i] == right[j] {
                assert(cards_taken(a@)[i as int] == cards_taken(b@)[j as int]);
                return true;
            }
            j += 1;
        }
        i += 1;
    }
    false
}

/// A joint assignment of candidates to seats.
struct Assignment {
    weight: u64,
    choices: Vec<(Player, PrivateChoice)>,
}

impl View for Assignment {
    type V = AssignmentView;

    closed spec fn view(&self) -> AssignmentView {
        AssignmentView {
            weight: self.weight,
            choices: self.choices@.map_values(|c: (Player, PrivateChoice)| (c.0, c.1@)),
        }
    }
}

spec fn assignment_views(v: Seq<Assignment>) -> Seq<AssignmentView> {
    v.map_values(|a: Assignment| a@)
}

fn single_assignment(player: Player, c: &PrivateChoice, weight: u64) -> (r: Assignment)
    ensures
        r@ == (AssignmentView { weight, choices: seq![(player, c@)] }),
{
    let mut choices: Vec<(Player, PrivateChoice)> = Vec::new();
    choices.push((player, copy_choice(c)));
    let r = Assignment { weight, choices };
    assert(r@.choices =~= seq![(player, c@)]);
    r
}

fn pair_assignment(p0: Player, x: &PrivateChoice, p1: Player, y: &PrivateChoice) -> (r: Assignment)
    ensures
        r@ == (AssignmentView { weight: capped_mul(x@.weight, y@.weight), choices: seq![(p0, x@), (p1, y@)] }),
{
    let mut choices: Vec<(Player, PrivateChoice)> = Vec::new();
    choices.push((p0, copy_choice(x)));
    choices.push((p1, copy_choice(y)));
    let r = Assignment { weight: capped_product(x.weight, y.weight), choices };
    assert(r@.choices =~= seq![(p0, x@), (p1, y@)]);
    r
}

/// The joint assignments for up to two re-dealt seats.
fn build_assignments(seats: &Vec<Player>, candidates: &Vec<Vec<PrivateChoice>>) -> (r: Vec<
    Assignment,
>)
    requires
        seats@.len() <= 2,
        candidates@.len() == seats@.len(),
    ensures
        assignment_views(r@) == private_assignments(
            seats@,
            candidates@.map_values(|v: Vec<PrivateChoice>| private_views(v@)),
        ),
{
    let ghost cands = candidates@.map_values(|v: Vec<PrivateChoice>| private_views(v@));
    let mut out: Vec<Assignment> = Vec::new();
    if seats.len() == 0 {
        out.push(Assignment { weight: 1, choices: Vec::new() });
        assert(assignment_views(out@) =~= seq![
            AssignmentView { weight: 1, choices: Seq::empty() },
        ]) by {
            assert(out@[0]@.choices =~= Seq::<(Player, PrivateView)>::empty());
        }
        return out;
    }
    if seats.len() == 1 {
        let first = &candidates[0];
        assert(cands[0] == private_views(first@));
        let ghost mapped = cands[0].map_values(
            |c: PrivateView| AssignmentView { weight: c.weight, choices: seq![(seats@[0], c)] },
        );
        let mut k: usize = 0;
        while k < first.len()
            invariant
                k <= first@.len(),
                seats@.len() == 1,
                candidates@.len() == 1,
                cands == candidates@.map_values(|v: Vec<PrivateChoice>| private_views(v@)),
                first@ == candidates@[0]@,
                cands[0] == private_views(first@),
                mapped == cands[0].map_values(
                    |c: PrivateView|
                        AssignmentView { weight: c.weight, choices: seq![(seats@[0], c)] },
                ),
                assignment_views(out@) == mapped.take(k as int),
            decreases first@.len() - k,
        {
            let ghost before = out@;
            out.push(single_assignment(seats[0], &first[k], first[k].weight));
            assert(assignment_views(out@) =~= assignment_views(before).push(mapped[k as int]));
            k += 1;
            assert(assignment_views(out@) =~= mapped.take(k as int));
        }
        assert(mapped.take(first@.len() as int) =~= mapped);
        return out;
    }
    let p0 = seats[0];
    let p1 = seats[1];
    let xs = &candidates[0];
    let ys = &candidates[1];
    assert(cands[0] == private_views(xs@));
    assert(cands[1] == private_views(ys@));
    let mut i: usize = 0;
    while i < xs.len()
        invariant
            i <= xs@.len(),
            seats@.len() == 2,
            candidates@.len() == 2,
            p0 == seats@[0],
            p1 == seats@[1],
            cands == candidates@.map_values(|v: Vec<PrivateChoice>| private_views(v@)),
            xs@ == candidates@[0]@,
            ys@ == candidates@[1]@,
            cands[0] == private_views(xs@),
            cands[1] == private_views(ys@),
            assignment_views(out@) == paired(p0, cands[0].take(i as int), p1, cands[1]),
        decreases xs@.len() - i,
    {
        assert(cands[0].take(i as int + 1).drop_last() =~= cands[0].take(i as int));
        let ghost start = assignment_views(out@);
        let mut j: usize = 0;
        while j < ys.len()
            invariant
                i < xs@.len(),
                j <= ys@.len(),
                candidates@.len() == 2,
                cands == candidates@.map_values(|v: Vec<PrivateChoice>| private_views(v@)),
                xs@ == candidates@[0]@,
                ys@ == candidates@[1]@,
                cands[0] == private_views(xs@),
                cands[1] == private_views(ys@),
                assignment_views(out@) == start + paired_with(
                    p0,
                    xs@[i as int]@,
                    p1,
                    cands[1].take(j as int),
                ),
            decreases ys@.len() - j,
        {
            assert(cands[1].take(j as int + 1).drop_last() =~= cands[1].take(j as int));
            assert(cands[1][j as int] == ys@[j as int]@);
            if !choices_overlap(&xs[i], &ys[j]) {
                let ghost before = out@;
                out.push(pair_assignment(p0, &xs[i], p1, &ys[j]));
                assert(assignment_views(out@) =~= assignment_views(before).push(
                    assignment_views(out@).last(),
                ));
            }
            j += 1;
            assert(assignment_views(out@) =~= start + paired_with(
                p0,
                xs@[i as int]@,
                p1,
                cands[1].take(j as int),
            ));
        }
        assert(cands[1].take(ys@.len() as int) =~= cands[1]);
        assert(cands[0][i as int] == xs@[i as int]@);
        i += 1;
    }
    assert(cands[0].take(xs@.len() as int) =~= cands[0]);
    out
}

// ---------------------------------------------------------------------------
// Overrides of face-down plays in completed rounds
// ---------------------------------------------------------------------------
/// A completed round and seat whose face-down play an override re-deals.
#[derive(Debug, Clone, Copy, PartialEq, Eq, Structural)]
pub struct HiddenPlayTarget {
    pub round_index: usize,
    pub player: Player,
}

/// The target of an override.
pub open spec fn target_of(o: CompletedHiddenPlayOverride) -> HiddenPlayTarget {
    HiddenPlayTarget { round_index: o.round_index, player: o.player }
}

/// The face of the target seat's first face-down play in the target round.
pub open spec fn completed_hidden_face(rounds: Seq<RoundView>, t: HiddenPlayTarget) -> Option<CardFace> {
    if t.round_index < rounds.len() {
        first_hidden_face(rounds[t.round_index as int].plays, t.player)
    } else {
        None
    }
}

/// The error of the first override with no face-down play to replace or with no candidate.
pub open spec fn overrides_check(
    rounds: Seq<RoundView>,
    overrides: Seq<CompletedHiddenPlayOverride>,
    available: Seq<CardFace>,
    turnup: Turnup,
) -> Option<ExplorationError>
    decreases overrides.len(),
{
    if overrides.len() == 0 {
        None
    } else {
        match overrides_check(rounds, overrides.drop_last(), available, turnup) {
            Some(e) => Some(e),
            None => {
                let o = overrides.last();
                if completed_hidden_face(rounds, target_of(o)) is None {
                    Some(ExplorationError::NoCompletedHiddenPlayToOverride)
                } else if card_candidates(o.weighted_cards@, available, turnup).len() == 0 {
                    Some(ExplorationError::NoRangeCandidates)
                } else {
                    None
                }
            },
        }
    }
}

/// The candidates for a target: those of the last override that names it.
pub open spec fn candidates_for(
    overrides: Seq<CompletedHiddenPlayOverride>,
    available: Seq<CardFace>,
    turnup: Turnup,
    t: HiddenPlayTarget,
) -> Seq<(u64, CardFace)>
    decreases overrides.len(),
{
    if overrides.len() == 0 {
        Seq::empty()
    } else if target_of(overrides.last()) == t {
        card_candidates(overrides.last().weighted_cards@, available, turnup)
    } else {
        candidates_for(overrides.drop_last(), available, turnup, t)
    }
}

/// The position of a target among the keys of an assignment.
pub open spec fn key_index(m: Seq<(HiddenPlayTarget, CardFace)>, t: HiddenPlayTarget) -> Option<int>
    decreases m.len(),
{
    if m.len() == 0 {
        None
    } else if m[0].0 == t {
        Some(0)
    } else {
        match key_index(m.drop_first(), t) {
            Some(i) => Some(i + 1),
            None => None,
        }
    }
}

/// The assignment with `t` set to `c`: replaced where `t` is a key, added otherwise.
pub open spec fn map_insert(m: Seq<(HiddenPlayTarget, CardFace)>, t: HiddenPlayTarget, c: CardFace) -> Seq<
    (HiddenPlayTarget, CardFace),
> {
    match key_index(m, t) {
        Some(i) => m.update(i, (t, c)),
        None => m.push((t, c)),
    }
}

/// The assignment without the key `t`.
pub open spec fn map_remove(m: Seq<(HiddenPlayTarget, CardFace)>, t: HiddenPlayTarget) -> Seq<
    (HiddenPlayTarget, CardFace),
> {
    match key_index(m, t) {
        Some(i) => m.remove(i),
        None => m,
    }
}

/// Whether some target of the assignment is given `c`.
pub open spec fn value_taken(m: Seq<(HiddenPlayTarget, CardFace)>, c: CardFace) -> bool {
    exists|i: int| 0 <= i < m.len() && #[trigger] m[i].1 == c
}

/// The weight of the first candidate with face `c` (one when none has it).
pub open spec fn lookup_weight(cands: Seq<(u64, CardFace)>, c: CardFace) -> u64
    decreases cands.len(),
{
    if cands.len() == 0 {
        1
    } else if cands[0].1 == c {
        cands[0].0
    } else {
        lookup_weight(cands.drop_first(), c)
    }
}

/// The product of the weights an assignment's faces have among their targets' candidates.
pub open spec fn completed_weight(
    m: Seq<(HiddenPlayTarget, CardFace)>,
    overrides: Seq<CompletedHiddenPlayOverride>,
    available: Seq<CardFace>,
    turnup: Turnup,
) -> u64
    decreases m.len(),
{
    if m.len() == 0 {
        1
    } else {
        capped_mul(
            completed_weight(m.drop_last(), overrides, available, turnup),
            lookup_weight(candidates_for(overrides, available, turnup, m.last().0), m.last().1),
        )
    }
}

/// An assignment of faces to overridden plays, with its weight.
pub struct CompletedView {
    pub weight: u64,
    pub choices: Seq<(HiddenPlayTarget, CardFace)>,
}

/// The assignments found from target `i` on, extending `current`, with the assignment
/// left behind: each target in turn takes each of its candidates that no target of the
/// current assignment holds, and gives it up once the later targets are explored.
pub open spec fn completed_search(
    targets: Seq<HiddenPlayTarget>,
    i: nat,
    overrides: Seq<CompletedHiddenPlayOverride>,
    available: Seq<CardFace>,
    turnup: Turnup,
    current: Seq<(HiddenPlayTarget, CardFace)>,
) -> (Seq<CompletedView>, Seq<(HiddenPlayTarget, CardFace)>)
    decreases targets.len() - i, 1int, 0int,
{
    if i >= targets.len() {
        (
            seq![
                CompletedView {
                    weight: completed_weight(current, overrides, available, turnup),
                    choices: current,
                },
            ],
            current,
        )
    } else {
        completed_loop(targets, i, overrides, available, turnup, current, 0)
    }
}

/// `completed_search` for target `i`, from its `j`-th candidate on.
pub open spec fn completed_loop(
    targets: Seq<HiddenPlayTarget>,
    i: nat,
    overrides: Seq<CompletedHiddenPlayOverride>,
    available: Seq<CardFace>,
    turnup: Turnup,
    current: Seq<(HiddenPlayTarget, CardFace)>,
    j: nat,
) -> (Seq<CompletedView>, Seq<(HiddenPlayTarget, CardFace)>)
    decreases targets.len() - i, 0int, candidates_for(overrides, available, turnup, targets[i as int]).len() - j,
{
    if i >= targets.len() {
        (Seq::empty(), current)
    } else {
        let t = targets[i as int];
        let cands = candidates_for(overrides, available, turnup, t);
        if j >= cands.len() {
            (Seq::empty(), current)
        } else if value_taken(current, cands[j as int].1) {
            completed_loop(targets, i, overrides, available, turnup, current, j + 1)
        } else {
            let first = completed_search(
                targets,
                i + 1,
                overrides,
                available,
                turnup,
                map_insert(current, t, cands[j as int].1),
            );
            let second = completed_loop(
                targets,
                i,
                overrides,
                available,
                turnup,
                map_remove(first.1, t),
                j + 1,
            );
            (first.0 + second.0, second.1)
        }
    }
}

/// Every assignment of faces to the overridden plays, one target after another.
pub open spec fn completed_assignments(
    overrides: Seq<CompletedHiddenPlayOverride>,
    available: Seq<CardFace>,
    turnup: Turnup,
) -> Seq<CompletedView> {
    completed_search(
        overrides.map_values(|o: CompletedHiddenPlayOverride| target_of(o)),
        0,
        overrides,
        available,
        turnup,
        Seq::empty(),
    ).0
}

struct CompletedChoice {
    weight: u64,
    choices: Vec<(HiddenPlayTarget, CardFace)>,
}

impl View for CompletedChoice {
    type V = CompletedView;

    closed spec fn view(&self) -> CompletedView {
        CompletedView { weight: self.weight, choices: self.choices@ }
    }
}

spec fn completed_views(v: Seq<CompletedChoice>) -> Seq<CompletedView> {
    v.map_values(|c: CompletedChoice| c@)
}

/// Each override's target with its candidates, in override order.
spec fn table_ok(
    table: Seq<(HiddenPlayTarget, Vec<(u64, CardFace)>)>,
    overrides: Seq<CompletedHiddenPlayOverride>,
    available: Seq<CardFace>,
    turnup: Turnup,
) -> bool {
    &&& table.len() == overrides.len()
    &&& forall|k: int|
        0 <= k < table.len() ==> (#[trigger] table[k]).0 == target_of(overrides[k]) && table[k].1@
            == card_candidates(overrides[k].weighted_cards@, available, turnup)
}

fn table_index(
    table: &Vec<(HiddenPlayTarget, Vec<(u64, CardFace)>)>,
    t: HiddenPlayTarget,
    Ghost(overrides): Ghost<Seq<CompletedHiddenPlayOverride>>,
    Ghost(available): Ghost<Seq<CardFace>>,
    Ghost(turnup): Ghost<Turnup>,
) -> (r: Option<usize>)
    requires
        table_ok(table@, overrides, available, turnup),
    ensures
        match r {
            Some(k) => k < table@.len() && table@[k as int].1@ == candidates_for(
                overrides,
                available,
                turnup,
                t,
            ),
            None => candidates_for(overrides, available, turnup, t) == Seq::<(u64, CardFace)>::empty(),
        },
{
    let mut k: usize = table.len();
    assert(overrides.take(k as int) =~= overrides);
    while k > 0
        invariant
            k <= table@.len(),
            table_ok(table@, overrides, available, turnup),
            candidates_for(overrides, available, turnup, t) == candidates_for(
                overrides.take(k as int),
                available,
                turnup,
                t,
            ),
        decreases k,
    {
        assert(overrides.take(k as int).drop_last() =~= overrides.take(k as int - 1));
        assert(overrides.take(k as int).last() == overrides[k as int - 1]);
        assert(table@[k as int - 1].0 == target_of(overrides[k as int - 1]));
        if table[k - 1].0 == t {
            return Some(k - 1);
        }
        k -= 1;
    }
    None
}

proof fn lemma_key_index_at(m: Seq<(HiddenPlayTarget, CardFace)>, t: HiddenPlayTarget, i: int)
    requires
        0 <= i < m.len(),
        m[i].0 == t,
        forall|k: int| 0 <= k < i ==> m[k].0 != t,
    ensures
        key_index(m, t) == Some(i),
    decreases i,
{
    if i > 0 {
        lemma_key_index_at(m.drop_first(), t, i - 1);
    }
}

proof fn lemma_key_index_absent(m: Seq<(HiddenPlayTarget, CardFace)>, t: HiddenPlayTarget)
    requires
        forall|k: int| 0 <= k < m.len() ==> m[k].0 != t,
    ensures
        key_index(m, t) is None,
    decreases m.len(),
{
    if m.len() > 0 {
        lemma_key_index_absent(m.drop_first(), t);
    }
}

fn key_position(m: &Vec<(HiddenPlayTarget, CardFace)>, t: HiddenPlayTarget) -> (r: Option<usize>)
    ensures
        match r {
            Some(i) => i < m@.len() && key_index(m@, t) == Some(i as int),
            None => key_index(m@, t) is None,
        },
{
    let mut i: usize = 0;
    while i < m.len()
        invariant
            i <= m@.len(),
            forall|k: int| 0 <= k < i ==> m@[k].0 != t,
        decreases m@.len() - i,
    {
        if m[i].0 == t {
            proof {
                lemma_key_index_at(m@, t, i as int);
            }
            return Some(i);
        }
        i += 1;
    }
    proof {
        lemma_key_index_absent(m@, t);
    }
    None
}

fn insert_choice(m: &mut Vec<(HiddenPlayTarget, CardFace)>, t: HiddenPlayTarget, c: CardFace)
    ensures
        final(m)@ == map_insert(old(m)@, t, c),
{
    match key_position(m, t) {
        Some(i) => {
            m.set(i, (t, c));
        },
        None => {
            m.push((t, c));
        },
    }
}

fn remove_choice(m: &mut Vec<(HiddenPlayTarget, CardFace)>, t: HiddenPlayTarget)
    ensures
        final(m)@ == map_remove(old(m)@, t),
{
    match key_position(m, t) {
        Some(i) => {
            m.remove(i);
        },
        None => {},
    }
}

fn face_taken(m: &Vec<(HiddenPlayTarget, CardFace)>, c: CardFace) -> (r: bool)
    ensures
        r == value_taken(m@, c),
{
    let mut i: usize = 0;
    while i < m.len()
        invariant
            i <= m@.len(),
            forall|k: int| 0 <= k < i ==> #[trigger] m@[k].1 != c,
        decreases m@.len() - i,
    {
        if m[i].1 == c {
            return true;
        }
        i += 1;
    }
    false
}

fn weight_of_face(cands: &Vec<(u64, CardFace)>, c: CardFace) -> (r: u64)
    ensures
        r == lookup_weight(cands@, c),
{
    let mut i: usize = 0;
    assert(cands@.skip(0) =~= cands@);
    while i < cands.len()
        invariant
            i <= cands@.len(),
            lookup_weight(cands@.skip(i as int), c) == lookup_weight(cands@, c),
        decreases cands@.len() - i,
    {
        assert(cands@.skip(i as int).drop_first() =~= cands@.skip(i as int + 1));
        if cands[i].1 == c {
            return cands[i].0;
        }
        i += 1;
    }
    assert(cands@.skip(i as int).len() == 0);
    1
}

fn assignment_weight(
    m: &Vec<(HiddenPlayTarget, CardFace)>,
    table: &Vec<(HiddenPlayTarget, Vec<(u64, CardFace)>)>,
    Ghost(overrides): Ghost<Seq<CompletedHiddenPlayOverride>>,
    Ghost(available): Ghost<Seq<CardFace>>,
    Ghost(turnup): Ghost<Turnup>,
) -> (r: u64)
    requires
        table_ok(table@, overrides, available, turnup),
    ensures
        r == completed_weight(m@, overrides, available, turnup),
{
    let mut w: u64 = 1;
    let mut i: usize = 0;
    while i < m.len()
        invariant
            i <= m@.len(),
            table_ok(table@, overrides, available, turnup),
            w == completed_weight(m@.take(i as int), overrides, available, turnup),
        decreases m@.len() - i,
    {
        assert(m@.take(i as int + 1).drop_last() =~= m@.take(i as int));
        let (t, c) = m[i];
        let found = match table_index(table, t, Ghost(overrides), Ghost(available), Ghost(turnup)) {
            Some(k) => weight_of_face(&table[k].1, c),
            None => 1,
        };
        w = capped_product(w, found);
        i += 1;
    }
    assert(m@.take(m@.len() as int) =~= m@);
    w
}

fn search_completed(
    targets: &Vec<HiddenPlayTarget>,
    i: usize,
    table: &Vec<(HiddenPlayTarget, Vec<(u64, CardFace)>)>,
    current: &mut Vec<(HiddenPlayTarget, CardFace)>,
    out: &mut Vec<CompletedChoice>,
    Ghost(overrides): Ghost<Seq<CompletedHiddenPlayOverride>>,
    Ghost(available): Ghost<Seq<CardFace>>,
    Ghost(turnup): Ghost<Turnup>,
)
    requires
        i <= targets@.len(),
        table_ok(table@, overrides, available, turnup),
    ensures
        ({
            let res = completed_search(
                targets@,
                i as nat,
                overrides,
                available,
                turnup,
                old(current)@,
            );
            completed_views(final(out)@) == completed_views(old(out)@) + res.0 && final(current)@
                == res.1
        }),
    decreases targets@.len() - i, 1int, 0int,
{
    if i == targets.len() {
        let weight = assignment_weight(current, table, Ghost(overrides), Ghost(available), Ghost(turnup));
        let mut choices: Vec<(HiddenPlayTarget, CardFace)> = Vec::new();
        let mut k: usize = 0;
        while k < current.len()
            invariant
                k <= current@.len(),
                choices@ == current@.take(k as int),
            decreases current@.len() - k,
        {
            choices.push(current[k]);
            k += 1;
            assert(choices@ =~= current@.take(k as int));
        }
        assert(current@.take(current@.len() as int) =~= current@);
        let ghost before = out@;
        out.push(CompletedChoice { weight, choices });
        assert(completed_views(out@) =~= completed_views(before) + seq![
            CompletedView { weight, choices: current@ },
        ]);
        return;
    }
    loop_completed(targets, i, table, current, out, 0, Ghost(overrides), Ghost(available), Ghost(turnup));
}

fn loop_completed(
    targets: &Vec<HiddenPlayTarget>,
    i: usize,
    table: &Vec<(HiddenPlayTarget, Vec<(u64, CardFace)>)>,
    current: &mut Vec<(HiddenPlayTarget, CardFace)>,
    out: &mut Vec<CompletedChoice>,
    j: usize,
    Ghost(overrides): Ghost<Seq<CompletedHiddenPlayOverride>>,
    Ghost(available): Ghost<Seq<CardFace>>,
    Ghost(turnup): Ghost<Turnup>,
)
    requires
        i < targets@.len(),
        table_ok(table@, overrides, available, turnup),
    ensures
        ({
            let res = completed_loop(
                targets@,
                i as nat,
                overrides,
                available,
                turnup,
                old(current)@,
                j as nat,
            );
            completed_views(final(out)@) == completed_views(old(out)@) + res.0 && final(current)@
                == res.1
        }),
    decreases targets@.len() - i, 0int, candidates_for(
        overrides,
        available,
        turnup,
        targets@[i as int],
    ).len() - j,
{
    let n = targets.len();
    let t = targets[i];
    let ghost cands = candidates_for(overrides, available, turnup, t);
    let k = match table_index(table, t, Ghost(overrides), Ghost(available), Ghost(turnup)) {
        Some(k) => k,
        None => {
            assert(completed_views(out@) =~= completed_views(out@) + Seq::<CompletedView>::empty());
            return;
        },
    };
    if j >= table[k].1.len() {
        assert(completed_views(out@) =~= completed_views(out@) + Seq::<CompletedView>::empty());
        return;
    }
    let card = table[k].1[j].1;
    assert(card == cands[j as int].1);
    if face_taken(current, card) {
        loop_completed(targets, i, table, current, out, j + 1, Ghost(overrides), Ghost(available), Ghost(turnup));
        return;
    }
    let ghost out0 = out@;
    insert_choice(current, t, card);
    search_completed(targets, i + 1, table, current, out, Ghost(overrides), Ghost(available), Ghost(turnup));
    let ghost out1 = out@;
    remove_choice(current, t);
    loop_completed(targets, i, table, current, out, j + 1, Ghost(overrides), Ghost(available), Ghost(turnup));
    assert(completed_views(out@) =~= completed_views(out0) + (completed_views(out1).subrange(
        completed_views(out0).len() as int,
        completed_views(out1).len() as int,
    ) + completed_views(out@).subrange(
        completed_views(out1).len() as int,
        completed_views(out@).len() as int,
    )));
}

// ---------------------------------------------------------------------------
// Joint assignments and the weighted draw among them
// ---------------------------------------------------------------------------
/// A private assignment together with a completed-round assignment, and their weight.
pub struct JointView {
    pub weight: u64,
    pub private: Seq<(Player, PrivateView)>,
    pub completed: Seq<(HiddenPlayTarget, CardFace)>,
}

/// Whether a completed-round assignment gives out a face that the private assignment takes.
pub open spec fn joint_overlap(a: AssignmentView, c: CompletedView) -> bool {
    exists|i: int, x: int, k: int|
        0 <= i < a.choices.len() && 0 <= x < cards_taken(a.choices[i].1).len() && 0 <= k
            < c.choices.len() && #[trigger] cards_taken(a.choices[i].1)[x] == #[trigger] c.choices[k].1
}

/// `a` joined with each completed-round assignment that shares no face with it.
pub open spec fn joint_with(a: AssignmentView, cs: Seq<CompletedView>) -> Seq<JointView>
    decreases cs.len(),
{
    if cs.len() == 0 {
        Seq::empty()
    } else {
        let rest = joint_with(a, cs.drop_last());
        let c = cs.last();
        if joint_overlap(a, c) {
            rest
        } else {
            rest.push(
                JointView {
                    weight: capped_mul(a.weight, c.weight),
                    private: a.choices,
                    completed: c.choices,
                },
            )
        }
    }
}

/// Every compatible joint assignment, private assignments outermost.
pub open spec fn joint_all(assignments: Seq<AssignmentView>, cs: Seq<CompletedView>) -> Seq<JointView>
    decreases assignments.len(),
{
    if assignments.len() == 0 {
        Seq::empty()
    } else {
        joint_all(assignments.drop_last(), cs) + joint_with(assignments.last(), cs)
    }
}

/// The weights of a list of joint assignments.
pub open spec fn joint_weights(js: Seq<JointView>) -> Seq<u64> {
    js.map_values(|j: JointView| j.weight)
}

/// The sum of `a` and `b` as `u64` addition wraps it.
pub open spec fn wrapping_sum(a: u64, b: u64) -> u64 {
    if a + b > u64::MAX {
        (a + b - 0x1_0000_0000_0000_0000) as u64
    } else {
        (a + b) as u64
    }
}

/// The total of the weights, with wrapping `u64` addition.
pub open spec fn wrapped_total(ws: Seq<u64>) -> u64
    decreases ws.len(),
{
    if ws.len() == 0 {
        0
    } else {
        wrapping_sum(wrapped_total(ws.drop_last()), ws.last())
    }
}

/// The exact total of the weights.
pub open spec fn weight_sum(ws: Seq<u64>) -> int
    decreases ws.len(),
{
    if ws.len() == 0 {
        0
    } else {
        weight_sum(ws.drop_last()) + ws.last()
    }
}

/// The position that a draw of `target` below the total selects: the first weight whose
/// running total exceeds the target.
pub open spec fn weighted_pick(ws: Seq<u64>, target: int) -> Option<int>
    decreases ws.len(),
{
    if ws.len() == 0 {
        None
    } else if target < ws[0] {
        Some(0)
    } else {
        match weighted_pick(ws.drop_first(), target - ws[0]) {
            Some(i) => Some(i + 1),
            None => None,
        }
    }
}

proof fn lemma_wrapped_total_bound(ws: Seq<u64>)
    ensures
        wrapped_total(ws) <= weight_sum(ws),
    decreases ws.len(),
{
    if ws.len() > 0 {
        lemma_wrapped_total_bound(ws.drop_last());
    }
}

proof fn lemma_weight_sum_front(ws: Seq<u64>)
    requires
        ws.len() > 0,
    ensures
        weight_sum(ws) == ws[0] + weight_sum(ws.drop_first()),
    decreases ws.len(),
{
    if ws.len() > 1 {
        lemma_weight_sum_front(ws.drop_last());
        assert(ws.drop_last().drop_first() =~= ws.drop_first().drop_last());
        assert(ws.drop_first().last() == ws.last());
        assert(weight_sum(ws.drop_first()) == weight_sum(ws.drop_first().drop_last())
            + ws.drop_first().last());
        assert(ws.drop_last()[0] == ws[0]);
        assert(weight_sum(ws) == weight_sum(ws.drop_last()) + ws.last());
    } else {
        assert(ws.drop_first().len() == 0);
        assert(ws.drop_last().len() == 0);
        assert(weight_sum(ws.drop_first()) == 0);
        assert(weight_sum(ws.drop_last()) == 0);
        assert(weight_sum(ws) == weight_sum(ws.drop_last()) + ws.last());
    }
}

proof fn lemma_pick_found(ws: Seq<u64>, target: int)
    requires
        0 <= target < weight_sum(ws),
    ensures
        weighted_pick(ws, target) matches Some(i) && 0 <= i < ws.len() && ws[i] > 0,
    decreases ws.len(),
{
    if ws.len() == 0 {
    } else {
        lemma_weight_sum_front(ws);
        if target >= ws[0] {
            lemma_pick_found(ws.drop_first(), target - ws[0]);
        }
    }
}

proof fn lemma_pick_positive(ws: Seq<u64>, target: int)
    requires
        0 <= target,
        weighted_pick(ws, target) is Some,
    ensures
        weighted_pick(ws, target) matches Some(i) && 0 <= i < ws.len() && ws[i] > 0,
    decreases ws.len(),
{
    if ws.len() > 0 && target >= ws[0] {
        lemma_pick_positive(ws.drop_first(), target - ws[0]);
    }
}

/// The total of the weights, with wrapping `u64` addition.
pub fn total_weight(weights: &[u64]) -> (r: u64)
    ensures
        r == wrapped_total(weights@),
{
    let mut total: u64 = 0;
    let mut i: usize = 0;
    while i < weights.len()
        invariant
            i <= weights@.len(),
            total == wrapped_total(weights@.take(i as int)),
        decreases weights@.len() - i,
    {
        assert(weights@.take(i as int + 1).drop_last() =~= weights@.take(i as int));
        let w = weights[i];
        total = if total > u64::MAX - w {
            w - (u64::MAX - total) - 1
        } else {
            total + w
        };
        i += 1;
    }
    assert(weights@.take(weights@.len() as int) =~= weights@);
    total
}

/// The position that a draw of `target` selects: the first weight whose running total
/// exceeds the target, or `None` when the target reaches the total.
pub fn pick_weighted_index(weights: &[u64], target: u64) -> (r: Option<usize>)
    ensures
        match r {
            Some(i) => weighted_pick(weights@, target as int) == Some(i as int),
            None => weighted_pick(weights@, target as int) is None,
        },
{
    let mut remaining = target;
    let mut i: usize = 0;
    assert(weights@.skip(0) =~= weights@);
    while i < weights.len()
        invariant
            i <= weights@.len(),
            weighted_pick(weights@, target as int) == match weighted_pick(
                weights@.skip(i as int),
                remaining as int,
            ) {
                Some(k) => Some(k + i),
                None => None,
            },
        decreases weights@.len() - i,
    {
        assert(weights@.skip(i as int).drop_first() =~= weights@.skip(i as int + 1));
        assert(weights@.skip(i as int)[0] == weights@[i as int]);
        if remaining < weights[i] {
            return Some(i);
        }
        remaining = remaining - weights[i];
        i += 1;
    }
    assert(weights@.skip(i as int).len() == 0);
    None
}

/// Draws a position with probability proportional to its weight; `None` when the total
/// is zero.
fn sample_weighted_index(weights: &Vec<u64>, rng: &mut rand::rngs::StdRng) -> (r: Option<usize>)
    ensures
        match r {
            Some(i) => i < weights@.len() && weights@[i as int] > 0,
            None => wrapped_total(weights@) == 0,
        },
{
    let total = total_weight(weights.as_slice());
    if total == 0 {
        return None;
    }
    let target = crate::random::draw_in_range(rng, 0, total);
    proof {
        lemma_wrapped_total_bound(weights@);
        lemma_pick_found(weights@, target as int);
    }
    pick_weighted_index(weights.as_slice(), target)
}

struct JointChoice {
    weight: u64,
    private: Vec<(Player, PrivateChoice)>,
    completed: Vec<(HiddenPlayTarget, CardFace)>,
}

impl View for JointChoice {
    type V = JointView;

    closed spec fn view(&self) -> JointView {
        JointView {
            weight: self.weight,
            private: self.private@.map_values(|c: (Player, PrivateChoice)| (c.0, c.1@)),
            completed: self.completed@,
        }
    }
}

spec fn joint_views(v: Seq<JointChoice>) -> Seq<JointView> {
    v.map_values(|j: JointChoice| j@)
}

fn copy_private_list(v: &Vec<(Player, PrivateChoice)>) -> (r: Vec<(Player, PrivateChoice)>)
    ensures
        r@.map_values(|c: (Player, PrivateChoice)| (c.0, c.1@)) == v@.map_values(
            |c: (Player, PrivateChoice)| (c.0, c.1@),
        ),
{
    let mut out: Vec<(Player, PrivateChoice)> = Vec::new();
    let mut i: usize = 0;
    while i < v.len()
        invariant
            i <= v@.len(),
            out@.map_values(|c: (Player, PrivateChoice)| (c.0, c.1@)) == v@.take(
                i as int,
            ).map_values(|c: (Player, PrivateChoice)| (c.0, c.1@)),
        decreases v@.len() - i,
    {
        let ghost before = out@;
        let c = copy_choice(&v[i].1);
        out.push((v[i].0, c));
        assert(out@.map_values(|c: (Player, PrivateChoice)| (c.0, c.1@)) =~= before.map_values(
            |c: (Player, PrivateChoice)| (c.0, c.1@),
        ).push((v@[i as int].0, v@[i as int].1@)));
        i += 1;
        assert(out@.map_values(|c: (Player, PrivateChoice)| (c.0, c.1@)) =~= v@.take(
            i as int,
        ).map_values(|c: (Player, PrivateChoice)| (c.0, c.1@)));
    }
    assert(v@.take(v@.len() as int) =~= v@);
    out
}

fn copy_completed_list(v: &Vec<(HiddenPlayTarget, CardFace)>) -> (r: Vec<(HiddenPlayTarget, CardFace)>)
    ensures
        r@ == v@,
{
    let mut out: Vec<(HiddenPlayTarget, CardFace)> = Vec::new();
    let mut i: usize = 0;
    while i < v.len()
        invariant
            i <= v@.len(),
            out@ == v@.take(i as int),
        decreases v@.len() - i,
    {
        out.push(v[i]);
        i += 1;
        assert(out@ =~= v@.take(i as int));
    }
    assert(v@.take(v@.len() as int) =~= v@);
    out
}

fn assignment_overlaps(a: &Assignment, c: &CompletedChoice) -> (r: bool)
    ensures
        r == joint_overlap(a@, c@),
{
    let mut i: usize = 0;
    while i < a.choices.len()
        invariant
            i <= a.choices@.len(),
            forall|ii: int, x: int, k: int|
                0 <= ii < i && 0 <= x < cards_taken(a@.choices[ii].1).len() && 0 <= k
                    < c@.choices.len() ==> #[trigger] cards_taken(a@.choices[ii].1)[x]
                    != #[trigger] c@.choices[k].1,
        decreases a.choices@.len() - i,
    {
        let choice = &a.choices[i].1;
        let mut taken = crate::ranges::copy_faces(choice.hand_cards.as_slice());
        if let Some(f) = choice.hidden_play {
            taken.push(f);
        }
        assert(a@.choices[i as int].1 == choice@);
        assert(taken@ =~= cards_taken(choice@));
        let mut x: usize = 0;
        while x < taken.len()
            invariant
                i < a.choices@.len(),
                x <= taken@.len(),
                a@.choices[i as int].1 == choice@,
                taken@ == cards_taken(choice@),
                forall|ii: int, xx: int, k: int|
                    0 <= ii < i && 0 <= xx < cards_taken(a@.choices[ii].1).len() && 0 <= k
                        < c@.choices.len() ==> #[trigger] cards_taken(a@.choices[ii].1)[xx]
                        != #[trigger] c@.choices[k].1,
                forall|xx: int, k: int|
                    0 <= xx < x && 0 <= k < c@.choices.len() ==> #[trigger] taken@[xx]
                        != #[trigger] c@.choices[k].1,
            decreases taken@.len() - x,
        {
            let mut k: usize = 0;
            while k < c.choices.len()
                invariant
                    i < a.choices@.len(),
                    x < taken@.len(),
                    k <= c@.choices.len(),
                    a@.choices[i as int].1 == choice@,
                    taken@ == cards_taken(choice@),
                    forall|kk: int| 0 <= kk < k ==> taken@[x as int] != #[trigger] c@.choices[kk].1,
                decreases c@.choices.len() - k,
            {
                if taken[x] == c.choices[k].1 {
                    assert(cards_taken(a@.choices[i as int].1)[x as int] == c@.choices[k as int].1);
                    return true;
                }
                k += 1;
            }
            x += 1;
        }
        i += 1;
    }
    false
}

/// Every compatible joint assignment.
fn build_joint(assignments: &Vec<Assignment>, completed: &Vec<CompletedChoice>) -> (r: Vec<JointChoice>)
    ensures
        joint_views(r@) == joint_all(assignment_views(assignments@), completed_views(completed@)),
{
    let ghost av = assignment_views(assignments@);
    let ghost cv = completed_views(completed@);
    let mut out: Vec<JointChoice> = Vec::new();
    let mut i: usize = 0;
    while i < assignments.len()
        invariant
            i <= assignments@.len(),
            av == assignment_views(assignments@),
            cv == completed_views(completed@),
            joint_views(out@) == joint_all(av.take(i as int), cv),
        decreases assignments@.len() - i,
    {
        assert(av.take(i as int + 1).drop_last() =~= av.take(i as int));
        assert(av[i as int] == assignments@[i as int]@);
        let a = &assignments[i];
        let ghost start = joint_views(out@);
        let mut k: usize = 0;
        while k < completed.len()
            invariant
                i < assignments@.len(),
                k <= completed@.len(),
                a@ == av[i as int],
                cv == completed_views(completed@),
                joint_views(out@) == start + joint_with(a@, cv.take(k as int)),
            decreases completed@.len() - k,
        {
            assert(cv.take(k as int + 1).drop_last() =~= cv.take(k as int));
            assert(cv[k as int] == completed@[k as int]@);
            let c = &completed[k];
            if !assignment_overlaps(a, c) {
                let ghost before = out@;
                let j = JointChoice {
                    weight: capped_product(a.weight, c.weight),
                    private: copy_private_list(&a.choices),
                    completed: copy_completed_list(&c.choices),
                };
                out.push(j);
                assert(joint_views(out@) =~= joint_views(before).push(j@));
            }
            k += 1;
            assert(joint_views(out@) =~= start + joint_with(a@, cv.take(k as int)));
        }
        assert(cv.take(completed@.len() as int) =~= cv);
        i += 1;
    }
    assert(av.take(assignments@.len() as int) =~= av);
    out
}

// ---------------------------------------------------------------------------
// Writing a chosen assignment into the hand
// ---------------------------------------------------------------------------
/// The position of `player`'s first play among `plays`.
pub open spec fn first_play_index(plays: Seq<PlayedCard>, player: Player) -> Option<int>
    decreases plays.len(),
{
    if plays.len() == 0 {
        None
    } else if plays[0].player == player {
        Some(0)
    } else {
        match first_play_index(plays.drop_first(), player) {
            Some(i) => Some(i + 1),
            None => None,
        }
    }
}

/// The position of `player`'s first face-down play among `plays`.
pub open spec fn first_hidden_index(plays: Seq<PlayedCard>, player: Player) -> Option<int>
    decreases plays.len(),
{
    if plays.len() == 0 {
        None
    } else if plays[0].player == player && plays[0].visibility == Visibility::Down {
        Some(0)
    } else {
        match first_hidden_index(plays.drop_first(), player) {
            Some(i) => Some(i + 1),
            None => None,
        }
    }
}

/// A play whose card shows `face` instead, keeping its id.
pub open spec fn with_face(play: PlayedCard, face: CardFace) -> PlayedCard {
    PlayedCard {
        player: play.player,
        visibility: play.visibility,
        card: Card { id: play.card.id, rank: face.rank, suit: face.suit },
    }
}

/// The cards of `hand` in order, each keeping its id and taking the face at its position
/// in `faces` (as far as both reach).
pub open spec fn rebuilt_hand(hand: Seq<Card>, faces: Seq<CardFace>) -> Seq<Card> {
    Seq::new(
        if hand.len() <= faces.len() {
            hand.len()
        } else {
            faces.len()
        },
        |i: int| Card { id: hand[i].id, rank: faces[i].rank, suit: faces[i].suit },
    )
}

/// The hand after one seat's candidate is written into it: its ranged face-down play
/// takes the chosen face, and its ranged hand takes the chosen faces in strength order.
pub open spec fn apply_seat(
    s: StateView,
    ranges: HiddenRanges,
    plays: HiddenPlayRanges,
    player: Player,
    c: PrivateView,
) -> Result<StateView, ExplorationError> {
    let played = if play_range_of(plays, player) is Some {
        match first_play_index(s.current_plays, player) {
            None => Err(ExplorationError::NoHiddenPlayToOverride),
            Some(k) => match c.hidden_play {
                None => Err(ExplorationError::NoHiddenPlayToOverride),
                Some(f) => Ok(
                    StateView {
                        current_plays: s.current_plays.update(k, with_face(s.current_plays[k], f)),
                        ..s
                    },
                ),
            },
        }
    } else {
        Ok(s)
    };
    match played {
        Err(e) => Err(e),
        Ok(s1) => if range_of(ranges, player) is Some {
            Ok(
                crate::engine::with_hand(
                    s1,
                    player,
                    rebuilt_hand(s1.hand(player), crate::ranges::sorted_by_strength(c.hand, s1.turnup)),
                ),
            )
        } else {
            Ok(s1)
        },
    }
}

/// The hand after each seat's candidate is written into it, in order.
pub open spec fn apply_private(
    s: StateView,
    ranges: HiddenRanges,
    plays: HiddenPlayRanges,
    choices: Seq<(Player, PrivateView)>,
) -> Result<StateView, ExplorationError>
    decreases choices.len(),
{
    if choices.len() == 0 {
        Ok(s)
    } else {
        match apply_private(s, ranges, plays, choices.drop_last()) {
            Err(e) => Err(e),
            Ok(s1) => apply_seat(s1, ranges, plays, choices.last().0, choices.last().1),
        }
    }
}

/// The hand after an overridden completed play takes its chosen face.
pub open spec fn apply_target(s: StateView, choice: (HiddenPlayTarget, CardFace)) -> Result<
    StateView,
    ExplorationError,
> {
    let t = choice.0;
    if t.round_index >= s.completed_rounds.len() {
        Err(ExplorationError::NoCompletedHiddenPlayToOverride)
    } else {
        let round = s.completed_rounds[t.round_index as int];
        match first_hidden_index(round.plays, t.player) {
            None => Err(ExplorationError::NoCompletedHiddenPlayToOverride),
            Some(k) => Ok(
                StateView {
                    completed_rounds: s.completed_rounds.update(
                        t.round_index as int,
                        RoundView {
                            leader: round.leader,
                            winner: round.winner,
                            plays: round.plays.update(k, with_face(round.plays[k], choice.1)),
                        },
                    ),
                    ..s
                },
            ),
        }
    }
}

/// The hand after every overridden completed play takes its chosen face, in order.
pub open spec fn apply_completed(s: StateView, choices: Seq<(HiddenPlayTarget, CardFace)>) -> Result<
    StateView,
    ExplorationError,
>
    decreases choices.len(),
{
    if choices.len() == 0 {
        Ok(s)
    } else {
        match apply_completed(s, choices.drop_last()) {
            Err(e) => Err(e),
            Ok(s1) => apply_target(s1, choices.last()),
        }
    }
}

/// The hand with a whole joint assignment written into it.
pub open spec fn apply_joint(
    s: StateView,
    ranges: HiddenRanges,
    plays: HiddenPlayRanges,
    j: JointView,
) -> Result<StateView, ExplorationError> {
    match apply_private(s, ranges, plays, j.private) {
        Err(e) => Err(e),
        Ok(s1) => apply_completed(s1, j.completed),
    }
}

fn play_index_of(plays: &[PlayedCard], player: Player) -> (r: Option<usize>)
    ensures
        match r {
            Some(i) => i < plays@.len() && first_play_index(plays@, player) == Some(i as int),
            None => first_play_index(plays@, player) is None,
        },
{
    let mut i: usize = 0;
    assert(plays@.skip(0) =~= plays@);
    while i < plays.len()
        invariant
            i <= plays@.len(),
            first_play_index(plays@, player) == match first_play_index(plays@.skip(i as int), player) {
                Some(k) => Some(k + i),
                None => None,
            },
        decreases plays@.len() - i,
    {
        assert(plays@.skip(i as int).drop_first() =~= plays@.skip(i as int + 1));
        if plays[i].player == player {
            return Some(i);
        }
        i += 1;
    }
    assert(plays@.skip(i as int).len() == 0);
    None
}

fn hidden_index_of(plays: &[PlayedCard], player: Player) -> (r: Option<usize>)
    ensures
        match r {
            Some(i) => i < plays@.len() && first_hidden_index(plays@, player) == Some(i as int),
            None => first_hidden_index(plays@, player) is None,
        },
{
    let mut i: usize = 0;
    assert(plays@.skip(0) =~= plays@);
    while i < plays.len()
        invariant
            i <= plays@.len(),
            first_hidden_index(plays@, player) == match first_hidden_index(
                plays@.skip(i as int),
                player,
            ) {
                Some(k) => Some(k + i),
                None => None,
            },
        decreases plays@.len() - i,
    {
        assert(plays@.skip(i as int).drop_first() =~= plays@.skip(i as int + 1));
        if plays[i].player == player && plays[i].visibility == Visibility::Down {
            return Some(i);
        }
        i += 1;
    }
    assert(plays@.skip(i as int).len() == 0);
    None
}

fn play_with_face(play: &PlayedCard, face: CardFace) -> (r: PlayedCard)
    ensures
        r == with_face(*play, face),
{
    PlayedCard {
        player: play.player,
        visibility: play.visibility,
        card: Card { id: play.card.id.clone(), rank: face.rank, suit: face.suit },
    }
}

fn rebuild_hand(hand: &[Card], faces: &Vec<CardFace>) -> (r: Vec<Card>)
    ensures
        r@ == rebuilt_hand(hand@, faces@),
{
    let mut out: Vec<Card> = Vec::new();
    let mut i: usize = 0;
    while i < hand.len() && i < faces.len()
        invariant
            i <= hand@.len(),
            i <= faces@.len(),
            out@ == rebuilt_hand(hand@, faces@).take(i as int),
        decreases hand@.len() - i,
    {
        out.push(Card { id: hand[i].id.clone(), rank: faces[i].rank, suit: faces[i].suit });
        i += 1;
        assert(out@ =~= rebuilt_hand(hand@, faces@).take(i as int));
    }
    assert(rebuilt_hand(hand@, faces@).take(i as int) =~= rebuilt_hand(hand@, faces@));
    out
}

fn apply_seat_choice(
    state: &mut crate::state::GameState,
    hidden_ranges: &HiddenRanges,
    hidden_plays: &HiddenPlayRanges,
    player: Player,
    chosen: &PrivateChoice,
) -> (r: Result<(), ExplorationError>)
    ensures
        match apply_seat(old(state)@, *hidden_ranges, *hidden_plays, player, chosen@) {
            Ok(s) => r is Ok && final(state)@ == s,
            Err(e) => r == Err::<(), ExplorationError>(e),
        },
{
    if hidden_plays.player(player).is_some() {
        let k = match play_index_of(state.current_round.plays.as_slice(), player) {
            Some(k) => k,
            None => {
                return Err(ExplorationError::NoHiddenPlayToOverride);
            },
        };
        let face = match chosen.hidden_play {
            Some(f) => f,
            None => {
                return Err(ExplorationError::NoHiddenPlayToOverride);
            },
        };
        let updated = play_with_face(&state.current_round.plays.as_slice()[k], face);
        state.current_round.plays.set(k, updated);
    }
    if hidden_ranges.player(player).is_some() {
        let sorted = crate::ranges::sort_by_strength(chosen.hand_cards.as_slice(), &state.turnup);
        let cards = rebuild_hand(state.hands.player(player), &sorted);
        if player == 0 {
            state.hands.zero = crate::lists::CardList::from_vec(cards);
        } else {
            state.hands.one = crate::lists::CardList::from_vec(cards);
        }
    }
    Ok(())
}

fn apply_target_choice(
    state: &mut crate::state::GameState,
    choice: (HiddenPlayTarget, CardFace),
) -> (r: Result<(), ExplorationError>)
    ensures
        match apply_target(old(state)@, choice) {
            Ok(s) => r is Ok && final(state)@ == s,
            Err(e) => r == Err::<(), ExplorationError>(e),
        },
{
    let (t, face) = choice;
    let rounds = state.completed_rounds.as_slice();
    if t.round_index >= rounds.len() {
        return Err(ExplorationError::NoCompletedHiddenPlayToOverride);
    }
    let round = &rounds[t.round_index];
    assert(rounds@.map_values(|round: crate::state::CompletedRound| round@)[t.round_index as int] == round@);
    let k = match hidden_index_of(round.plays.as_slice(), t.player) {
        Some(k) => k,
        None => {
            return Err(ExplorationError::NoCompletedHiddenPlayToOverride);
        },
    };
    let updated = play_with_face(&round.plays.as_slice()[k], face);
    let mut plays = round.plays.clone();
    plays.set(k, updated);
    let new_round = crate::state::CompletedRound { leader: round.leader, winner: round.winner, plays };
    state.completed_rounds.set(t.round_index, new_round);
    Ok(())
}

// ---------------------------------------------------------------------------
// Resolving an active hand
// ---------------------------------------------------------------------------
/// The seats an active hand re-deals: those with a hand range or a hidden-play range,
/// in seat order.
pub open spec fn ranged_seats(ranges: HiddenRanges, plays: HiddenPlayRanges) -> Seq<Player> {
    let zero = range_of(ranges, 0) is Some || play_range_of(plays, 0) is Some;
    let one = range_of(ranges, 1) is Some || play_range_of(plays, 1) is Some;
    if zero && one {
        seq![0u8, 1u8]
    } else if zero {
        seq![0u8]
    } else if one {
        seq![1u8]
    } else {
        Seq::empty()
    }
}

/// Every weighted joint assignment for an active hand, or the error that comes first.
pub open spec fn active_joint(
    rec: crate::game_match::MatchRecord,
    ranges: HiddenRanges,
    plays: HiddenPlayRanges,
    overrides: Seq<CompletedHiddenPlayOverride>,
) -> Result<Seq<JointView>, ExplorationError> {
    match rec.3 {
        None => Err(ExplorationError::NoActiveHand),
        Some(h) => {
            let s = h.0;
            let seats = ranged_seats(ranges, plays);
            let available = open_faces(s, ranges, plays, overrides);
            match seat_choices(s, seats, available, ranges, plays) {
                Err(e) => Err(e),
                Ok(cands) => {
                    let assignments = private_assignments(seats, cands);
                    if assignments.len() == 0 {
                        Err(ExplorationError::NoRangeCandidates)
                    } else {
                        match overrides_check(s.completed_rounds, overrides, available, s.turnup) {
                            Some(e) => Err(e),
                            None => {
                                let completed = completed_assignments(overrides, available, s.turnup);
                                if completed.len() == 0 {
                                    Err(ExplorationError::NoRangeCandidates)
                                } else {
                                    let joint = joint_all(assignments, completed);
                                    if joint.len() == 0 {
                                        Err(ExplorationError::NoRangeCandidates)
                                    } else {
                                        Ok(joint)
                                    }
                                }
                            },
                        }
                    }
                },
            }
        },
    }
}

/// The match that a joint assignment resolves an active hand into, or why it is rejected.
pub open spec fn active_outcome(
    rec: crate::game_match::MatchRecord,
    ranges: HiddenRanges,
    plays: HiddenPlayRanges,
    j: JointView,
) -> Result<crate::game_match::MatchView, ExplorationError> {
    match rec.3 {
        None => Err(ExplorationError::NoActiveHand),
        Some(h) => match apply_joint(h.0, ranges, plays, j) {
            Err(e) => Err(e),
            Ok(s2) => match crate::game_match::record_restored(
                rec.0,
                rec.1,
                rec.2,
                Some((s2, h.1, h.2)),
            ) {
                Err(e) => Err(ExplorationError::Engine(e)),
                Ok(m) => Ok(m),
            },
        },
    }
}

/// What resolving an active hand gives: the first error if there is one; otherwise the
/// outcome of some joint assignment of positive weight, or the error that the weights
/// total zero.
pub open spec fn active_resolution(
    rec: crate::game_match::MatchRecord,
    ranges: HiddenRanges,
    plays: HiddenPlayRanges,
    overrides: Seq<CompletedHiddenPlayOverride>,
    r: Result<MatchState, ExplorationError>,
) -> bool {
    match active_joint(rec, ranges, plays, overrides) {
        Err(e) => r == Err::<MatchState, ExplorationError>(e),
        Ok(js) => match r {
            Ok(out) => exists|i: int|
                0 <= i < js.len() && js[i].weight > 0 && (#[trigger] active_outcome(
                    rec,
                    ranges,
                    plays,
                    js[i],
                ) matches Ok(m) && crate::game_match::exports(out, m)),
            Err(e) => (e == ExplorationError::NoRangeCandidates && wrapped_total(joint_weights(js))
                == 0) || exists|i: int|
                0 <= i < js.len() && js[i].weight > 0 && #[trigger] active_outcome(
                    rec,
                    ranges,
                    plays,
                    js[i],
                ) == Err::<crate::game_match::MatchView, ExplorationError>(e),
        },
    }
}

fn participating_seats(ranges: &HiddenRanges, plays: &HiddenPlayRanges) -> (r: Vec<Player>)
    ensures
        r@ == ranged_seats(*ranges, *plays),
{
    let mut seats: Vec<Player> = Vec::new();
    if ranges.player(0).is_some() || plays.player(0).is_some() {
        seats.push(0);
    }
    if ranges.player(1).is_some() || plays.player(1).is_some() {
        seats.push(1);
    }
    assert(seats@ =~= ranged_seats(*ranges, *plays));
    seats
}

fn completed_play_exists(state: &crate::state::GameState, t: HiddenPlayTarget) -> (r: bool)
    ensures
        r == (completed_hidden_face(state@.completed_rounds, t) is Some),
{
    let rounds = state.completed_rounds.as_slice();
    if t.round_index >= rounds.len() {
        return false;
    }
    let ghost views = rounds@.map_values(|round: crate::state::CompletedRound| round@);
    assert(views[t.round_index as int] == rounds@[t.round_index as int]@);
    hidden_play_of(rounds[t.round_index].plays.as_slice(), t.player).is_some()
}

fn gather_seat_choices(
    state: &crate::state::GameState,
    seats: &Vec<Player>,
    available: &Vec<CardFace>,
    hidden_ranges: &HiddenRanges,
    hidden_plays: &HiddenPlayRanges,
) -> (r: Result<Vec<Vec<PrivateChoice>>, ExplorationError>)
    ensures
        match r {
            Ok(v) => v@.len() == seats@.len() && seat_choices(
                state@,
                seats@,
                available@,
                *hidden_ranges,
                *hidden_plays,
            ) == Ok::<Seq<Seq<PrivateView>>, ExplorationError>(
                v@.map_values(|c: Vec<PrivateChoice>| private_views(c@)),
            ),
            Err(e) => seat_choices(state@, seats@, available@, *hidden_ranges, *hidden_plays)
                == Err::<Seq<Seq<PrivateView>>, ExplorationError>(e),
        },
{
    let ghost s = state@;
    let mut candidates: Vec<Vec<PrivateChoice>> = Vec::new();
    let mut k: usize = 0;
    assert(seats@.take(0) =~= Seq::<Player>::empty());
    assert(candidates@.map_values(|v: Vec<PrivateChoice>| private_views(v@)) =~= Seq::<
        Seq<PrivateView>,
    >::empty());
    while k < seats.len()
        invariant
            k <= seats@.len(),
            candidates@.len() == k,
            state@ == s,
            seat_choices(s, seats@.take(k as int), available@, *hidden_ranges, *hidden_plays) == Ok::<
                Seq<Seq<PrivateView>>,
                ExplorationError,
            >(candidates@.map_values(|v: Vec<PrivateChoice>| private_views(v@))),
        decreases seats@.len() - k,
    {
        assert(seats@.take(k as int + 1).drop_last() =~= seats@.take(k as int));
        match build_player_choices(state, seats[k], available, hidden_ranges, hidden_plays) {
            Ok(c) => {
                let ghost before = candidates@;
                candidates.push(c);
                assert(candidates@.map_values(|v: Vec<PrivateChoice>| private_views(v@))
                    =~= before.map_values(|v: Vec<PrivateChoice>| private_views(v@)).push(
                    private_views(candidates@.last()@),
                ));
            },
            Err(e) => {
                proof {
                    lemma_seat_choices_err(s, seats@, available@, *hidden_ranges, *hidden_plays, k as int + 1);
                }
                return Err(e);
            },
        }
        k += 1;
    }
    assert(seats@.take(seats@.len() as int) =~= seats@);
    Ok(candidates)
}

fn gather_override_table(
    state: &crate::state::GameState,
    overrides: &Vec<CompletedHiddenPlayOverride>,
    available: &Vec<CardFace>,
) -> (r: Result<(Vec<(HiddenPlayTarget, Vec<(u64, CardFace)>)>, Vec<HiddenPlayTarget>), ExplorationError>)
    ensures
        match r {
            Ok((table, targets)) => overrides_check(
                state@.completed_rounds,
                overrides@,
                available@,
                state@.turnup,
            ) is None && table_ok(table@, overrides@, available@, state@.turnup) && targets@
                == overrides@.map_values(|x: CompletedHiddenPlayOverride| target_of(x)),
            Err(e) => overrides_check(state@.completed_rounds, overrides@, available@, state@.turnup)
                == Some(e),
        },
{
    let turnup = state.turnup;
    let mut table: Vec<(HiddenPlayTarget, Vec<(u64, CardFace)>)> = Vec::new();
    let mut targets: Vec<HiddenPlayTarget> = Vec::new();
    let mut o: usize = 0;
    assert(overrides@.take(0) =~= Seq::<CompletedHiddenPlayOverride>::empty());
    assert(targets@ =~= overrides@.take(0).map_values(|x: CompletedHiddenPlayOverride| target_of(x)));
    while o < overrides.len()
        invariant
            o <= overrides@.len(),
            turnup == state@.turnup,
            overrides_check(state@.completed_rounds, overrides@.take(o as int), available@, turnup)
                is None,
            table_ok(table@, overrides@.take(o as int), available@, turnup),
            targets@ == overrides@.take(o as int).map_values(
                |x: CompletedHiddenPlayOverride| target_of(x),
            ),
        decreases overrides@.len() - o,
    {
        assert(overrides@.take(o as int + 1).drop_last() =~= overrides@.take(o as int));
        let item = &overrides[o];
        let t = HiddenPlayTarget { round_index: item.round_index, player: item.player };
        if !completed_play_exists(state, t) {
            proof {
                lemma_overrides_check_some(state@.completed_rounds, overrides@, available@, turnup, o as int + 1);
            }
            return Err(ExplorationError::NoCompletedHiddenPlayToOverride);
        }
        let cands = build_card_candidates(item.weighted_cards.as_slice(), available.as_slice(), &turnup);
        if cands.len() == 0 {
            proof {
                lemma_overrides_check_some(state@.completed_rounds, overrides@, available@, turnup, o as int + 1);
            }
            return Err(ExplorationError::NoRangeCandidates);
        }
        table.push((t, cands));
        targets.push(t);
        o += 1;
        assert(targets@ =~= overrides@.take(o as int).map_values(
            |x: CompletedHiddenPlayOverride| target_of(x),
        ));
        assert forall|m: int| 0 <= m < table@.len() implies (#[trigger] table@[m]).0 == target_of(
            overrides@.take(o as int)[m],
        ) && table@[m].1@ == card_candidates(
            overrides@.take(o as int)[m].weighted_cards@,
            available@,
            turnup,
        ) by {
            if m < o - 1 {
                assert(overrides@.take(o as int)[m] == overrides@.take(o as int - 1)[m]);
            }
        }
    }
    assert(overrides@.take(overrides@.len() as int) =~= overrides@);
    Ok((table, targets))
}

/// The weighted joint assignments for an active hand.
fn active_candidates(
    state: &crate::state::GameState,
    hidden_ranges: &HiddenRanges,
    hidden_plays: &HiddenPlayRanges,
    overrides: &Vec<CompletedHiddenPlayOverride>,
) -> (r: Result<Vec<JointChoice>, ExplorationError>)
    ensures
        ({
            let s = state@;
            let seats = ranged_seats(*hidden_ranges, *hidden_plays);
            let available = open_faces(s, *hidden_ranges, *hidden_plays, overrides@);
            let expected = match seat_choices(s, seats, available, *hidden_ranges, *hidden_plays) {
                Err(e) => Err(e),
                Ok(cands) => {
                    let assignments = private_assignments(seats, cands);
                    if assignments.len() == 0 {
                        Err(ExplorationError::NoRangeCandidates)
                    } else {
                        match overrides_check(s.completed_rounds, overrides@, available, s.turnup) {
                            Some(e) => Err(e),
                            None => {
                                let completed = completed_assignments(overrides@, available, s.turnup);
                                if completed.len() == 0 {
                                    Err(ExplorationError::NoRangeCandidates)
                                } else {
                                    let joint = joint_all(assignments, completed);
                                    if joint.len() == 0 {
                                        Err(ExplorationError::NoRangeCandidates)
                                    } else {
                                        Ok(joint)
                                    }
                                }
                            },
                        }
                    }
                },
            };
            match r {
                Ok(v) => expected == Ok::<Seq<JointView>, ExplorationError>(joint_views(v@)),
                Err(e) => expected == Err::<Seq<JointView>, ExplorationError>(e),
            }
        }),
{
    let seats = participating_seats(hidden_ranges, hidden_plays);
    let available = available_cards(state, hidden_ranges, hidden_plays, overrides.as_slice());
    let candidates = match gather_seat_choices(state, &seats, &available, hidden_ranges, hidden_plays) {
        Ok(c) => c,
        Err(e) => {
            return Err(e);
        },
    };
    let assignments = build_assignments(&seats, &candidates);
    if assignments.len() == 0 {
        return Err(ExplorationError::NoRangeCandidates);
    }
    let (table, targets) = match gather_override_table(state, overrides, &available) {
        Ok(t) => t,
        Err(e) => {
            return Err(e);
        },
    };
    let mut current: Vec<(HiddenPlayTarget, CardFace)> = Vec::new();
    let mut completed: Vec<CompletedChoice> = Vec::new();
    search_completed(
        &targets,
        0,
        &table,
        &mut current,
        &mut completed,
        Ghost(overrides@),
        Ghost(available@),
        Ghost(state@.turnup),
    );
    assert(completed_views(completed@) =~= completed_assignments(
        overrides@,
        available@,
        state@.turnup,
    ));
    if completed.len() == 0 {
        return Err(ExplorationError::NoRangeCandidates);
    }
    let joint = build_joint(&assignments, &completed);
    if joint.len() == 0 {
        return Err(ExplorationError::NoRangeCandidates);
    }
    Ok(joint)
}

fn apply_joint_choice(
    state: &mut crate::state::GameState,
    hidden_ranges: &HiddenRanges,
    hidden_plays: &HiddenPlayRanges,
    selected: &JointChoice,
) -> (r: Result<(), ExplorationError>)
    ensures
        match apply_joint(old(state)@, *hidden_ranges, *hidden_plays, selected@) {
            Ok(s) => r is Ok && final(state)@ == s,
            Err(e) => r == Err::<(), ExplorationError>(e),
        },
{
    let ghost s = state@;
    let ghost chosen = selected@;
    let mut p: usize = 0;
    assert(chosen.private.take(0) =~= Seq::<(Player, PrivateView)>::empty());
    while p < selected.private.len()
        invariant
            p <= selected.private@.len(),
            chosen == selected@,
            s == old(state)@,
            apply_private(s, *hidden_ranges, *hidden_plays, chosen.private.take(p as int)) == Ok::<
                StateView,
                ExplorationError,
            >(state@),
        decreases selected.private@.len() - p,
    {
        assert(chosen.private.take(p as int + 1).drop_last() =~= chosen.private.take(p as int));
        assert(chosen.private[p as int] == (selected.private@[p as int].0, selected.private@[p as int].1@));
        match apply_seat_choice(state, hidden_ranges, hidden_plays, selected.private[p].0, &selected.private[p].1) {
            Ok(()) => {},
            Err(e) => {
                proof {
                    lemma_apply_private_err(s, *hidden_ranges, *hidden_plays, chosen.private, p as int + 1);
                }
                return Err(e);
            },
        }
        p += 1;
    }
    assert(chosen.private.take(selected.private@.len() as int) =~= chosen.private);
    let ghost s1 = state@;
    let mut c: usize = 0;
    assert(chosen.completed.take(0) =~= Seq::<(HiddenPlayTarget, CardFace)>::empty());
    while c < selected.completed.len()
        invariant
            c <= selected.completed@.len(),
            chosen == selected@,
            s == old(state)@,
            apply_private(s, *hidden_ranges, *hidden_plays, chosen.private) == Ok::<
                StateView,
                ExplorationError,
            >(s1),
            apply_completed(s1, chosen.completed.take(c as int)) == Ok::<StateView, ExplorationError>(
                state@,
            ),
        decreases selected.completed@.len() - c,
    {
        assert(chosen.completed.take(c as int + 1).drop_last() =~= chosen.completed.take(c as int));
        match apply_target_choice(state, selected.completed[c]) {
            Ok(()) => {},
            Err(e) => {
                proof {
                    lemma_apply_completed_err(s1, chosen.completed, c as int + 1);
                }
                return Err(e);
            },
        }
        c += 1;
    }
    assert(chosen.completed.take(selected.completed@.len() as int) =~= chosen.completed);
    Ok(())
}

fn joint_weight_list(joint: &Vec<JointChoice>) -> (r: Vec<u64>)
    ensures
        r@ == joint_weights(joint_views(joint@)),
{
    let ghost js = joint_views(joint@);
    let mut weights: Vec<u64> = Vec::new();
    let mut w: usize = 0;
    while w < joint.len()
        invariant
            w <= joint@.len(),
            js == joint_views(joint@),
            weights@ == joint_weights(js).take(w as int),
        decreases joint@.len() - w,
    {
        assert(js[w as int] == joint@[w as int]@);
        weights.push(joint[w].weight);
        w += 1;
        assert(weights@ =~= joint_weights(js).take(w as int));
    }
    assert(joint_weights(js).take(joint@.len() as int) =~= joint_weights(js));
    weights
}

/// Resolves the ranges of an active hand by a weighted draw among every compatible joint
/// assignment.
fn resolve_active_hand_ranges(
    match_state: MatchState,
    hidden_ranges: &HiddenRanges,
    hidden_plays: &HiddenPlayRanges,
    completed_hidden_plays: &Vec<CompletedHiddenPlayOverride>,
    seed: Option<u64>,
) -> (r: Result<MatchState, ExplorationError>)
    ensures
        active_resolution(
            crate::game_match::match_record(match_state),
            *hidden_ranges,
            *hidden_plays,
            completed_hidden_plays@,
            r,
        ),
{
    let ghost recorded = crate::game_match::match_record(match_state);
    let MatchState { next_dealer, score, winner, current_hand } = match_state;
    let mut hand = match current_hand {
        Some(h) => h,
        None => {
            return Err(ExplorationError::NoActiveHand);
        },
    };
    let joint = match active_candidates(&hand.state, hidden_ranges, hidden_plays, completed_hidden_plays) {
        Ok(j) => j,
        Err(e) => {
            return Err(e);
        },
    };
    let ghost js = joint_views(joint@);
    let mut rng = match seed {
        Some(value) => crate::random::seeded_rng(value),
        None => crate::random::entropy_rng(),
    };
    let weights = joint_weight_list(&joint);
    let index = match sample_weighted_index(&weights, &mut rng) {
        Some(i) => i,
        None => {
            return Err(ExplorationError::NoRangeCandidates);
        },
    };
    assert(js[index as int] == joint@[index as int]@);
    assert(joint_weights(js)[index as int] == js[index as int].weight);
    match apply_joint_choice(&mut hand.state, hidden_ranges, hidden_plays, &joint[index]) {
        Ok(()) => {},
        Err(e) => {
            assert(active_outcome(recorded, *hidden_ranges, *hidden_plays, js[index as int])
                == Err::<crate::game_match::MatchView, ExplorationError>(e));
            return Err(e);
        },
    }
    let resolved = MatchState { next_dealer, score, winner, current_hand: Some(hand) };
    match crate::api::ApiMatch::from_state(resolved) {
        Ok(m) => {
            let out = m.export_state();
            assert(active_outcome(recorded, *hidden_ranges, *hidden_plays, js[index as int]) matches Ok(
                mv,
            ) && crate::game_match::exports(out, mv));
            Ok(out)
        },
        Err(e) => {
            assert(active_outcome(recorded, *hidden_ranges, *hidden_plays, js[index as int])
                == Err::<crate::game_match::MatchView, ExplorationError>(ExplorationError::Engine(e)));
            Err(ExplorationError::Engine(e))
        },
    }
}

proof fn lemma_seat_choices_err(
    s: StateView,
    seats: Seq<Player>,
    available: Seq<CardFace>,
    ranges: HiddenRanges,
    plays: HiddenPlayRanges,
    n: int,
)
    requires
        0 <= n <= seats.len(),
        seat_choices(s, seats.take(n), available, ranges, plays) is Err,
    ensures
        seat_choices(s, seats, available, ranges, plays) == seat_choices(
            s,
            seats.take(n),
            available,
            ranges,
            plays,
        ),
    decreases seats.len() - n,
{
    if n < seats.len() {
        assert(seats.take(n + 1).drop_last() =~= seats.take(n));
        lemma_seat_choices_err(s, seats, available, ranges, plays, n + 1);
    } else {
        assert(seats.take(n) =~= seats);
    }
}

proof fn lemma_overrides_check_some(
    rounds: Seq<RoundView>,
    overrides: Seq<CompletedHiddenPlayOverride>,
    available: Seq<CardFace>,
    turnup: Turnup,
    n: int,
)
    requires
        0 <= n <= overrides.len(),
        overrides_check(rounds, overrides.take(n), available, turnup) is Some,
    ensures
        overrides_check(rounds, overrides, available, turnup) == overrides_check(
            rounds,
            overrides.take(n),
            available,
            turnup,
        ),
    decreases overrides.len() - n,
{
    if n < overrides.len() {
        assert(overrides.take(n + 1).drop_last() =~= overrides.take(n));
        lemma_overrides_check_some(rounds, overrides, available, turnup, n + 1);
    } else {
        assert(overrides.take(n) =~= overrides);
    }
}

proof fn lemma_apply_private_err(
    s: StateView,
    ranges: HiddenRanges,
    plays: HiddenPlayRanges,
    choices: Seq<(Player, PrivateView)>,
    n: int,
)
    requires
        0 <= n <= choices.len(),
        apply_private(s, ranges, plays, choices.take(n)) is Err,
    ensures
        apply_private(s, ranges, plays, choices) == apply_private(s, ranges, plays, choices.take(n)),
    decreases choices.len() - n,
{
    if n < choices.len() {
        assert(choices.take(n + 1).drop_last() =~= choices.take(n));
        lemma_apply_private_err(s, ranges, plays, choices, n + 1);
    } else {
        assert(choices.take(n) =~= choices);
    }
}

proof fn lemma_apply_completed_err(s: StateView, choices: Seq<(HiddenPlayTarget, CardFace)>, n: int)
    requires
        0 <= n <= choices.len(),
        apply_completed(s, choices.take(n)) is Err,
    ensures
        apply_completed(s, choices) == apply_completed(s, choices.take(n)),
    decreases choices.len() - n,
{
    if n < choices.len() {
        assert(choices.take(n + 1).drop_last() =~= choices.take(n));
        lemma_apply_completed_err(s, choices, n + 1);
    } else {
        assert(choices.take(n) =~= choices);
    }
}

// ---------------------------------------------------------------------------
// Dealing a pending hand
// ---------------------------------------------------------------------------
proof fn lemma_hands_of_len(items: Seq<CardFace>, size: nat)
    ensures
        forall|i: int| 0 <= i < hands_of(items, size).len() ==> #[trigger] hands_of(items, size)[i].len() == size,
    decreases items.len(),
{
    if size != 0 && items.len() != 0 {
        lemma_hands_of_len(items.drop_first(), (size - 1) as nat);
        lemma_hands_of_len(items.drop_first(), size);
        let with_first = hands_of(items.drop_first(), (size - 1) as nat).map_values(
            |h: Seq<CardFace>| seq![items[0]] + h,
        );
        let rest = hands_of(items.drop_first(), size);
        assert forall|i: int| 0 <= i < hands_of(items, size).len() implies #[trigger] hands_of(items, size)[i].len() == size by {
            if i < with_first.len() {
                assert(hands_of(items, size)[i] == with_first[i]);
            } else {
                assert(hands_of(items, size)[i] == rest[i - with_first.len()]);
            }
        }
    }
}

proof fn lemma_matching_len(hands: Seq<Seq<CardFace>>, pattern: HandPattern, turnup: Turnup, n: nat)
    requires
        forall|i: int| 0 <= i < hands.len() ==> #[trigger] hands[i].len() == n,
    ensures
        forall|i: int| 0 <= i < matching_hands(hands, pattern, turnup).len() ==> #[trigger] matching_hands(hands, pattern, turnup)[i].len() == n,
    decreases hands.len(),
{
    if hands.len() > 0 {
        assert forall|i: int| 0 <= i < hands.drop_last().len() implies #[trigger] hands.drop_last()[i].len() == n by {
            assert(hands.drop_last()[i] == hands[i]);
        }
        lemma_matching_len(hands.drop_last(), pattern, turnup, n);
        assert(hands.last() == hands[hands.len() - 1]);
        let rest = matching_hands(hands.drop_last(), pattern, turnup);
        assert forall|i: int| 0 <= i < matching_hands(hands, pattern, turnup).len() implies #[trigger] matching_hands(hands, pattern, turnup)[i].len() == n by {
            if i < rest.len() {
                assert(matching_hands(hands, pattern, turnup)[i] == rest[i]);
            }
        }
    }
}

proof fn lemma_hand_candidates_len(
    options: Seq<WeightedHandOption>,
    available: Seq<CardFace>,
    size: nat,
    turnup: Turnup,
)
    ensures
        forall|i: int| 0 <= i < hand_candidates(options, available, size, turnup).len() ==> (#[trigger] hand_candidates(options, available, size, turnup)[i]).1.len() == size,
    decreases options.len(),
{
    if options.len() > 0 {
        lemma_hand_candidates_len(options.drop_last(), available, size, turnup);
        let option = options.last();
        if option.weight != 0 {
            lemma_hands_of_len(available, size);
            lemma_matching_len(hands_of(available, size), option.hand, turnup, size);
            let rest = hand_candidates(options.drop_last(), available, size, turnup);
            let mapped = matching_hands(hands_of(available, size), option.hand, turnup).map_values(
                |h: Seq<CardFace>| (option.weight, h),
            );
            assert forall|i: int| 0 <= i < hand_candidates(options, available, size, turnup).len() implies (#[trigger] hand_candidates(options, available, size, turnup)[i]).1.len() == size by {
                if i < rest.len() {
                    assert(hand_candidates(options, available, size, turnup)[i] == rest[i]);
                } else {
                    assert(hand_candidates(options, available, size, turnup)[i] == mapped[i - rest.len()]);
                }
            }
        }
    }
}

/// The seats with a hand range, in seat order.
pub open spec fn hand_range_seats(ranges: HiddenRanges) -> Seq<Player> {
    if range_of(ranges, 0) is Some && range_of(ranges, 1) is Some {
        seq![0u8, 1u8]
    } else if range_of(ranges, 0) is Some {
        seq![0u8]
    } else if range_of(ranges, 1) is Some {
        seq![1u8]
    } else {
        Seq::empty()
    }
}

/// The faces a pending hand is dealt from: the deck without the turnup.
pub open spec fn deal_faces(turnup: Turnup) -> Seq<CardFace> {
    without_every(standard_deck(), turnup_face(turnup))
}

/// The candidates of a ranged seat of a pending hand: each admitted three-card hand.
pub open spec fn pending_seat_options(ranges: HiddenRanges, player: Player, turnup: Turnup) -> Seq<
    PrivateView,
> {
    match range_of(ranges, player) {
        Some(r) => hand_candidates(r.weighted_hands@, deal_faces(turnup), 3, turnup).map_values(
            |h: (u32, Seq<CardFace>)| PrivateView { weight: h.0 as u64, hidden_play: None, hand: h.1 },
        ),
        None => Seq::empty(),
    }
}

/// The candidates of each ranged seat in turn; the first seat without any decides the error.
pub open spec fn pending_choices(seats: Seq<Player>, ranges: HiddenRanges, turnup: Turnup) -> Result<
    Seq<Seq<PrivateView>>,
    ExplorationError,
>
    decreases seats.len(),
{
    if seats.len() == 0 {
        Ok(Seq::empty())
    } else {
        match pending_choices(seats.drop_last(), ranges, turnup) {
            Err(e) => Err(e),
            Ok(prev) => {
                let c = pending_seat_options(ranges, seats.last(), turnup);
                if c.len() == 0 {
                    Err(ExplorationError::NoRangeCandidates)
                } else {
                    Ok(prev.push(c))
                }
            },
        }
    }
}

/// The joint assignments for a pending hand; with none compatible, the empty assignment.
pub open spec fn pending_assignments(seats: Seq<Player>, cands: Seq<Seq<PrivateView>>) -> Seq<
    AssignmentView,
> {
    let a = private_assignments(seats, cands);
    if a.len() == 0 {
        seq![AssignmentView { weight: 1, choices: Seq::empty() }]
    } else {
        a
    }
}

/// The weights of a list of assignments.
pub open spec fn assignment_weights(a: Seq<AssignmentView>) -> Seq<u64> {
    a.map_values(|x: AssignmentView| x.weight)
}

/// The hand that an assignment gives a seat, if any.
pub open spec fn chosen_hand(choices: Seq<(Player, PrivateView)>, player: Player) -> Option<Seq<CardFace>>
    decreases choices.len(),
{
    if choices.len() == 0 {
        None
    } else if choices[0].0 == player {
        Some(choices[0].1.hand)
    } else {
        chosen_hand(choices.drop_first(), player)
    }
}

/// `available` without the faces of every assigned hand, in order.
pub open spec fn without_assigned(available: Seq<CardFace>, choices: Seq<(Player, PrivateView)>) -> Seq<
    CardFace,
>
    decreases choices.len(),
{
    if choices.len() == 0 {
        available
    } else {
        crate::ranges::without_faces(without_assigned(available, choices.drop_last()), choices.last().1.hand)
    }
}

/// A seat's hand: the assigned one, or else the `k`-th three-card hand left in
/// `available` (the first when `k` is out of range); an error when none is left.
pub open spec fn seat_draw(
    choices: Seq<(Player, PrivateView)>,
    player: Player,
    available: Seq<CardFace>,
    k: int,
) -> Result<Seq<CardFace>, ExplorationError> {
    match chosen_hand(choices, player) {
        Some(h) => Ok(h),
        None => {
            let hs = hands_of(available, 3);
            if hs.len() == 0 {
                Err(ExplorationError::NoRangeCandidates)
            } else if 0 <= k < hs.len() {
                Ok(hs[k])
            } else {
                Ok(hs[0])
            }
        },
    }
}

/// The faces dealt to both seats under an assignment and the draws `k0` and `k1` for the
/// seats it leaves open.
pub open spec fn pending_deal(a: AssignmentView, turnup: Turnup, k0: int, k1: int) -> Result<
    (Seq<CardFace>, Seq<CardFace>),
    ExplorationError,
> {
    let available = without_assigned(deal_faces(turnup), a.choices);
    match seat_draw(a.choices, 0, available, k0) {
        Err(e) => Err(e),
        Ok(f0) => match seat_draw(
            a.choices,
            1,
            crate::ranges::without_faces(available, f0),
            k1,
        ) {
            Err(e) => Err(e),
            Ok(f1) => Ok((f0, f1)),
        },
    }
}

/// The id given to the card at `index` of a dealt hand: `p`, the seat, `c`, the index.
pub open spec fn id_text(player: Player, index: int) -> Seq<char> {
    seq![
        'p',
        if player == 0 {
            '0'
        } else {
            '1'
        },
        'c',
        if index == 0 {
            '0'
        } else if index == 1 {
            '1'
        } else {
            '2'
        },
    ]
}

/// `cards` are the faces in strength order, with generated ids.
pub open spec fn dealt_as(cards: Seq<Card>, player: Player, faces: Seq<CardFace>, turnup: Turnup) -> bool {
    let sorted = crate::ranges::sorted_by_strength(faces, turnup);
    &&& cards.len() == sorted.len()
    &&& forall|i: int|
        0 <= i < cards.len() ==> (#[trigger] cards[i]).id@ == id_text(player, i) && cards[i].rank
            == sorted[i].rank && cards[i].suit == sorted[i].suit
}

/// The match after `zero` and `one` are dealt into `m` under `turnup`, or why not.
pub open spec fn dealt_match(
    m: crate::game_match::MatchView,
    turnup: Turnup,
    zero: Seq<Card>,
    one: Seq<Card>,
) -> Result<crate::game_match::MatchView, ExplorationError> {
    if m.winner is Some {
        Err(ExplorationError::Engine(EngineError::MatchAlreadyDecided))
    } else if m.current_hand matches Some(h) && h.hand_winner is None {
        Err(ExplorationError::Engine(EngineError::HandStillInProgress))
    } else {
        match crate::engine::loaded(
            crate::engine::fresh_state(m.next_dealer, m.score, turnup, zero, one),
        ) {
            Err(e) => Err(ExplorationError::Engine(e)),
            Ok(h) => Ok(crate::game_match::MatchView { current_hand: Some(h), ..m }),
        }
    }
}

/// What dealing a pending hand gives: the first error if there is one; otherwise the
/// match dealt from some assignment of positive weight and some draws for the open
/// seats, or an error that such a deal meets, or the error that the weights total zero.
pub open spec fn pending_resolution(
    rec: crate::game_match::MatchRecord,
    turnup: Turnup,
    ranges: HiddenRanges,
    r: Result<MatchState, ExplorationError>,
) -> bool {
    match rec.3 {
        Some(_) => r == Err::<MatchState, ExplorationError>(
            ExplorationError::PendingHandRequiresNoActiveHand,
        ),
        None => match crate::game_match::record_restored(rec.0, rec.1, rec.2, rec.3) {
            Err(e) => r == Err::<MatchState, ExplorationError>(ExplorationError::Engine(e)),
            Ok(m) => {
                let seats = hand_range_seats(ranges);
                match pending_choices(seats, ranges, turnup) {
                    Err(e) => r == Err::<MatchState, ExplorationError>(e),
                    Ok(cands) => {
                        let assignments = pending_assignments(seats, cands);
                        match r {
                            Ok(out) => exists|i: int, k0: int, k1: int, zero: Seq<Card>, one: Seq<Card>|
                                #![trigger pending_deal(assignments[i], turnup, k0, k1), dealt_match(m, turnup, zero, one)]
                                0 <= i < assignments.len() && assignments[i].weight > 0
                                    && match pending_deal(assignments[i], turnup, k0, k1) {
                                    Ok(faces) => dealt_as(zero, 0, faces.0, turnup) && dealt_as(
                                        one,
                                        1,
                                        faces.1,
                                        turnup,
                                    ) && match dealt_match(m, turnup, zero, one) {
                                        Ok(mv) => crate::game_match::exports(out, mv),
                                        Err(_) => false,
                                    },
                                    Err(_) => false,
                                },
                            Err(e) => (e == ExplorationError::NoRangeCandidates && wrapped_total(
                                assignment_weights(assignments),
                            ) == 0) || (exists|i: int, k0: int, k1: int|
                                #![trigger pending_deal(assignments[i], turnup, k0, k1)]
                                0 <= i < assignments.len() && assignments[i].weight > 0
                                    && pending_deal(assignments[i], turnup, k0, k1) == Err::<
                                    (Seq<CardFace>, Seq<CardFace>),
                                    ExplorationError,
                                >(e)) || (exists|i: int, k0: int, k1: int, zero: Seq<Card>, one: Seq<Card>|
                                #![trigger pending_deal(assignments[i], turnup, k0, k1), dealt_match(m, turnup, zero, one)]
                                0 <= i < assignments.len() && assignments[i].weight > 0
                                    && match pending_deal(assignments[i], turnup, k0, k1) {
                                    Ok(faces) => dealt_as(zero, 0, faces.0, turnup) && dealt_as(
                                        one,
                                        1,
                                        faces.1,
                                        turnup,
                                    ) && dealt_match(m, turnup, zero, one) == Err::<
                                        crate::game_match::MatchView,
                                        ExplorationError,
                                    >(e),
                                    Err(_) => false,
                                }),
                        }
                    },
                }
            },
        },
    }
}

spec fn views_sized(cs: Seq<PrivateView>, n: nat) -> bool {
    forall|j: int| 0 <= j < cs.len() ==> (#[trigger] cs[j]).hand.len() == n
}

spec fn choices_sized(choices: Seq<(Player, PrivateView)>, n: nat) -> bool {
    forall|k: int| 0 <= k < choices.len() ==> (#[trigger] choices[k]).1.hand.len() == n
}

spec fn assignments_sized(a: Seq<AssignmentView>, n: nat) -> bool {
    forall|i: int| 0 <= i < a.len() ==> choices_sized((#[trigger] a[i]).choices, n)
}

proof fn lemma_paired_with_sized(p0: Player, x: PrivateView, p1: Player, ys: Seq<PrivateView>, n: nat)
    requires
        x.hand.len() == n,
        views_sized(ys, n),
    ensures
        assignments_sized(paired_with(p0, x, p1, ys), n),
    decreases ys.len(),
{
    if ys.len() > 0 {
        assert(views_sized(ys.drop_last(), n)) by {
            assert forall|j: int| 0 <= j < ys.drop_last().len() implies (#[trigger] ys.drop_last()[j]).hand.len() == n by {
                assert(ys.drop_last()[j] == ys[j]);
            }
        }
        lemma_paired_with_sized(p0, x, p1, ys.drop_last(), n);
        assert(ys.last() == ys[ys.len() - 1]);
        let rest = paired_with(p0, x, p1, ys.drop_last());
        let all = paired_with(p0, x, p1, ys);
        assert forall|i: int| 0 <= i < all.len() implies choices_sized((#[trigger] all[i]).choices, n) by {
            if i < rest.len() {
                assert(all[i] == rest[i]);
            } else {
                assert(all[i].choices == seq![(p0, x), (p1, ys.last())]);
            }
        }
    }
}

proof fn lemma_paired_sized(p0: Player, xs: Seq<PrivateView>, p1: Player, ys: Seq<PrivateView>, n: nat)
    requires
        views_sized(xs, n),
        views_sized(ys, n),
    ensures
        assignments_sized(paired(p0, xs, p1, ys), n),
    decreases xs.len(),
{
    if xs.len() > 0 {
        assert(views_sized(xs.drop_last(), n)) by {
            assert forall|j: int| 0 <= j < xs.drop_last().len() implies (#[trigger] xs.drop_last()[j]).hand.len() == n by {
                assert(xs.drop_last()[j] == xs[j]);
            }
        }
        lemma_paired_sized(p0, xs.drop_last(), p1, ys, n);
        assert(xs.last() == xs[xs.len() - 1]);
        lemma_paired_with_sized(p0, xs.last(), p1, ys, n);
        let first = paired(p0, xs.drop_last(), p1, ys);
        let second = paired_with(p0, xs.last(), p1, ys);
        let all = paired(p0, xs, p1, ys);
        assert forall|i: int| 0 <= i < all.len() implies choices_sized((#[trigger] all[i]).choices, n) by {
            if i < first.len() {
                assert(all[i] == first[i]);
            } else {
                assert(all[i] == second[i - first.len()]);
            }
        }
    }
}

proof fn lemma_pending_assignments_sized(seats: Seq<Player>, cands: Seq<Seq<PrivateView>>, n: nat)
    requires
        seats.len() <= 2,
        cands.len() == seats.len(),
        forall|k: int| 0 <= k < cands.len() ==> views_sized(#[trigger] cands[k], n),
    ensures
        assignments_sized(pending_assignments(seats, cands), n),
{
    let a = private_assignments(seats, cands);
    if seats.len() == 1 {
        assert(views_sized(cands[0], n));
        assert forall|i: int| 0 <= i < a.len() implies choices_sized((#[trigger] a[i]).choices, n) by {
            assert(a[i].choices == seq![(seats[0], cands[0][i])]);
        }
    } else if seats.len() == 2 {
        assert(views_sized(cands[0], n));
        assert(views_sized(cands[1], n));
        lemma_paired_sized(seats[0], cands[0], seats[1], cands[1], n);
    }
    let d = pending_assignments(seats, cands);
    assert forall|i: int| 0 <= i < d.len() implies choices_sized((#[trigger] d[i]).choices, n) by {
        if a.len() == 0 {
            assert(d[i].choices =~= Seq::<(Player, PrivateView)>::empty());
        } else {
            assert(d[i] == a[i]);
        }
    }
}

proof fn lemma_chosen_hand_sized(choices: Seq<(Player, PrivateView)>, player: Player, n: nat)
    requires
        choices_sized(choices, n),
    ensures
        chosen_hand(choices, player) matches Some(h) ==> h.len() == n,
    decreases choices.len(),
{
    if choices.len() > 0 && choices[0].0 != player {
        assert(choices_sized(choices.drop_first(), n)) by {
            assert forall|k: int| 0 <= k < choices.drop_first().len() implies (#[trigger] choices.drop_first()[k]).1.hand.len() == n by {
                assert(choices.drop_first()[k] == choices[k + 1]);
            }
        }
        lemma_chosen_hand_sized(choices.drop_first(), player, n);
    }
}

fn hand_seats(ranges: &HiddenRanges) -> (r: Vec<Player>)
    ensures
        r@ == hand_range_seats(*ranges),
{
    let mut seats: Vec<Player> = Vec::new();
    if ranges.player(0).is_some() {
        seats.push(0);
    }
    if ranges.player(1).is_some() {
        seats.push(1);
    }
    assert(seats@ =~= hand_range_seats(*ranges));
    seats
}

fn pending_seat_candidates(
    ranges: &HiddenRanges,
    player: Player,
    available: &Vec<CardFace>,
    turnup: &Turnup,
) -> (r: Vec<PrivateChoice>)
    requires
        available@ == deal_faces(*turnup),
    ensures
        private_views(r@) == pending_seat_options(*ranges, player, *turnup),
        views_sized(private_views(r@), 3),
{
    let mut out: Vec<PrivateChoice> = Vec::new();
    match ranges.player(player) {
        Some(range) => {
            let hands = build_weighted_hands(range.weighted_hands.as_slice(), available.as_slice(), 3, turnup);
            let ghost hv = weighted_hand_views(hands@);
            proof {
                lemma_hand_candidates_len(range.weighted_hands@, available@, 3, *turnup);
            }
            let ghost mapped = hv.map_values(
                |h: (u32, Seq<CardFace>)| PrivateView { weight: h.0 as u64, hidden_play: None, hand: h.1 },
            );
            let mut k: usize = 0;
            while k < hands.len()
                invariant
                    k <= hands@.len(),
                    hv == weighted_hand_views(hands@),
                    mapped == hv.map_values(
                        |h: (u32, Seq<CardFace>)|
                            PrivateView { weight: h.0 as u64, hidden_play: None, hand: h.1 },
                    ),
                    private_views(out@) == mapped.take(k as int),
                decreases hands@.len() - k,
            {
                let ghost before = out@;
                out.push(
                    PrivateChoice {
                        weight: hands[k].0 as u64,
                        hidden_play: None,
                        hand_cards: crate::ranges::copy_faces(hands[k].1.as_slice()),
                    },
                );
                assert(private_views(out@) =~= private_views(before).push(mapped[k as int]));
                k += 1;
                assert(private_views(out@) =~= mapped.take(k as int));
            }
            assert(mapped.take(hands@.len() as int) =~= mapped);
            assert(views_sized(private_views(out@), 3)) by {
                assert forall|j: int| 0 <= j < private_views(out@).len() implies (#[trigger] private_views(out@)[j]).hand.len() == 3 by {
                    assert(private_views(out@)[j] == mapped[j]);
                    assert(hv[j] == hand_candidates(range.weighted_hands@, available@, 3, *turnup)[j]);
                }
            }
        },
        None => {
            assert(private_views(out@) =~= Seq::<PrivateView>::empty());
        },
    }
    out
}

fn gather_pending_choices(
    seats: &Vec<Player>,
    ranges: &HiddenRanges,
    available: &Vec<CardFace>,
    turnup: &Turnup,
) -> (r: Result<Vec<Vec<PrivateChoice>>, ExplorationError>)
    requires
        available@ == deal_faces(*turnup),
    ensures
        match r {
            Ok(v) => v@.len() == seats@.len() && pending_choices(seats@, *ranges, *turnup) == Ok::<
                Seq<Seq<PrivateView>>,
                ExplorationError,
            >(v@.map_values(|c: Vec<PrivateChoice>| private_views(c@))) && forall|k: int|
                0 <= k < v@.len() ==> views_sized(private_views((#[trigger] v@[k])@), 3),
            Err(e) => pending_choices(seats@, *ranges, *turnup) == Err::<
                Seq<Seq<PrivateView>>,
                ExplorationError,
            >(e),
        },
{
    let mut candidates: Vec<Vec<PrivateChoice>> = Vec::new();
    let mut k: usize = 0;
    assert(seats@.take(0) =~= Seq::<Player>::empty());
    assert(candidates@.map_values(|v: Vec<PrivateChoice>| private_views(v@)) =~= Seq::<
        Seq<PrivateView>,
    >::empty());
    while k < seats.len()
        invariant
            k <= seats@.len(),
            candidates@.len() == k,
            available@ == deal_faces(*turnup),
            pending_choices(seats@.take(k as int), *ranges, *turnup) == Ok::<
                Seq<Seq<PrivateView>>,
                ExplorationError,
            >(candidates@.map_values(|v: Vec<PrivateChoice>| private_views(v@))),
            forall|m: int| 0 <= m < candidates@.len() ==> views_sized(private_views((#[trigger] candidates@[m])@), 3),
        decreases seats@.len() - k,
    {
        assert(seats@.take(k as int + 1).drop_last() =~= seats@.take(k as int));
        let c = pending_seat_candidates(ranges, seats[k], available, turnup);
        if c.len() == 0 {
            assert(pending_choices(seats@.take(k as int + 1), *ranges, *turnup) == Err::<
                Seq<Seq<PrivateView>>,
                ExplorationError,
            >(ExplorationError::NoRangeCandidates));
            proof {
                lemma_pending_choices_err(seats@, *ranges, *turnup, k as int + 1);
            }
            return Err(ExplorationError::NoRangeCandidates);
        }
        let ghost before = candidates@;
        candidates.push(c);
        assert(candidates@.map_values(|v: Vec<PrivateChoice>| private_views(v@)) =~= before.map_values(
            |v: Vec<PrivateChoice>| private_views(v@),
        ).push(private_views(candidates@.last()@)));
        k += 1;
    }
    assert(seats@.take(seats@.len() as int) =~= seats@);
    Ok(candidates)
}

proof fn lemma_pending_choices_err(seats: Seq<Player>, ranges: HiddenRanges, turnup: Turnup, n: int)
    requires
        0 <= n <= seats.len(),
        pending_choices(seats.take(n), ranges, turnup) is Err,
    ensures
        pending_choices(seats, ranges, turnup) == pending_choices(seats.take(n), ranges, turnup),
    decreases seats.len() - n,
{
    if n < seats.len() {
        assert(seats.take(n + 1).drop_last() =~= seats.take(n));
        lemma_pending_choices_err(seats, ranges, turnup, n + 1);
    } else {
        assert(seats.take(n) =~= seats);
    }
}

/// The id of the card at `index` of a dealt hand.
fn generated_id(player: Player, index: usize) -> (r: String)
    requires
        player < 2,
        index < 3,
    ensures
        r@ == id_text(player, index as int),
{
    proof {
        reveal_strlit("p0c0");
        reveal_strlit("p0c1");
        reveal_strlit("p0c2");
        reveal_strlit("p1c0");
        reveal_strlit("p1c1");
        reveal_strlit("p1c2");
    }
    let r = if player == 0 {
        if index == 0 {
            "p0c0".to_owned()
        } else if index == 1 {
            "p0c1".to_owned()
        } else {
            "p0c2".to_owned()
        }
    } else {
        if index == 0 {
            "p1c0".to_owned()
        } else if index == 1 {
            "p1c1".to_owned()
        } else {
            "p1c2".to_owned()
        }
    };
    assert(r@ =~= id_text(player, index as int));
    r
}

/// The faces in strength order as cards with generated ids.
fn cards_with_generated_ids(player: Player, faces: &[CardFace], turnup: &Turnup) -> (r: Vec<Card>)
    requires
        player < 2,
        faces@.len() <= 3,
    ensures
        dealt_as(r@, player, faces@, *turnup),
{
    let sorted = crate::ranges::sort_by_strength(faces, turnup);
    proof {
        crate::ranges::lemma_sorted_len(faces@, *turnup);
    }
    let mut out: Vec<Card> = Vec::new();
    let mut i: usize = 0;
    while i < sorted.len()
        invariant
            i <= sorted@.len(),
            sorted@.len() <= 3,
            player < 2,
            out@.len() == i,
            forall|k: int|
                0 <= k < i ==> (#[trigger] out@[k]).id@ == id_text(player, k) && out@[k].rank
                    == sorted@[k].rank && out@[k].suit == sorted@[k].suit,
        decreases sorted@.len() - i,
    {
        let id = generated_id(player, i);
        out.push(sorted[i].to_card_with_id(id));
        i += 1;
    }
    out
}

fn find_chosen_hand(choices: &Vec<(Player, PrivateChoice)>, player: Player) -> (r: Option<Vec<CardFace>>)
    ensures
        match r {
            Some(h) => chosen_hand(
                choices@.map_values(|c: (Player, PrivateChoice)| (c.0, c.1@)),
                player,
            ) == Some(h@),
            None => chosen_hand(
                choices@.map_values(|c: (Player, PrivateChoice)| (c.0, c.1@)),
                player,
            ) is None,
        },
{
    let ghost views = choices@.map_values(|c: (Player, PrivateChoice)| (c.0, c.1@));
    let mut i: usize = 0;
    assert(views.skip(0) =~= views);
    while i < choices.len()
        invariant
            i <= choices@.len(),
            views == choices@.map_values(|c: (Player, PrivateChoice)| (c.0, c.1@)),
            chosen_hand(views.skip(i as int), player) == chosen_hand(views, player),
        decreases choices@.len() - i,
    {
        assert(views.skip(i as int).drop_first() =~= views.skip(i as int + 1));
        assert(views.skip(i as int)[0] == (choices@[i as int].0, choices@[i as int].1@));
        if choices[i].0 == player {
            return Some(crate::ranges::copy_faces(choices[i].1.hand_cards.as_slice()));
        }
        i += 1;
    }
    assert(views.skip(i as int).len() == 0);
    None
}

fn assignment_weight_list(assignments: &Vec<Assignment>) -> (r: Vec<u64>)
    ensures
        r@ == assignment_weights(assignment_views(assignments@)),
{
    let ghost av = assignment_views(assignments@);
    let mut weights: Vec<u64> = Vec::new();
    let mut w: usize = 0;
    while w < assignments.len()
        invariant
            w <= assignments@.len(),
            av == assignment_views(assignments@),
            weights@ == assignment_weights(av).take(w as int),
        decreases assignments@.len() - w,
    {
        assert(av[w as int] == assignments@[w as int]@);
        weights.push(assignments[w].weight);
        w += 1;
        assert(weights@ =~= assignment_weights(av).take(w as int));
    }
    assert(assignment_weights(av).take(assignments@.len() as int) =~= assignment_weights(av));
    weights
}

/// A seat's faces: the assigned hand, or a uniform draw among the three-card hands left.
fn draw_seat_faces(
    choices: &Vec<(Player, PrivateChoice)>,
    player: Player,
    available: &Vec<CardFace>,
    rng: &mut rand::rngs::StdRng,
) -> (r: (Result<Vec<CardFace>, ExplorationError>, Ghost<int>))
    requires
        choices_sized(choices@.map_values(|c: (Player, PrivateChoice)| (c.0, c.1@)), 3),
    ensures
        match r.0 {
            Ok(h) => seat_draw(
                choices@.map_values(|c: (Player, PrivateChoice)| (c.0, c.1@)),
                player,
                available@,
                r.1@,
            ) == Ok::<Seq<CardFace>, ExplorationError>(h@) && h@.len() == 3,
            Err(e) => seat_draw(
                choices@.map_values(|c: (Player, PrivateChoice)| (c.0, c.1@)),
                player,
                available@,
                r.1@,
            ) == Err::<Seq<CardFace>, ExplorationError>(e),
        },
{
    let ghost views = choices@.map_values(|c: (Player, PrivateChoice)| (c.0, c.1@));
    proof {
        lemma_chosen_hand_sized(views, player, 3);
    }
    match find_chosen_hand(choices, player) {
        Some(h) => (Ok(h), Ghost(0)),
        None => {
            let combos = crate::ranges::enumerate_all_hands(available.as_slice(), 3);
            proof {
                lemma_hands_of_len(available@, 3);
            }
            if combos.len() == 0 {
                return (Err(ExplorationError::NoRangeCandidates), Ghost(0));
            }
            let k = crate::random::draw_in_range(rng, 0, combos.len() as u64) as usize;
            assert(crate::ranges::face_lists(combos@)[k as int] == combos@[k as int]@);
            (Ok(crate::ranges::copy_faces(combos[k].as_slice())), Ghost(k as int))
        },
    }
}

/// Deals a pending hand: ranged seats get a weighted draw among their compatible
/// hands, the others a uniform draw among the hands left.
fn resolve_pending_hand_spec(
    match_state: MatchState,
    pending_hand: &PendingHandSpec,
    hidden_ranges: &HiddenRanges,
    seed: Option<u64>,
) -> (r: Result<MatchState, ExplorationError>)
    ensures
        pending_resolution(
            crate::game_match::match_record(match_state),
            pending_hand.turnup,
            *hidden_ranges,
            r,
        ),
{
    if match_state.current_hand.is_some() {
        return Err(ExplorationError::PendingHandRequiresNoActiveHand);
    }
    let mut api_match = match crate::api::ApiMatch::from_state(match_state) {
        Ok(m) => m,
        Err(e) => {
            return Err(ExplorationError::Engine(e));
        },
    };
    let ghost m = api_match@;
    let seats = hand_seats(hidden_ranges);
    let turnup = pending_hand.turnup;
    let deck = crate::ranges::full_deck();
    let mut available = crate::ranges::faces_without(
        deck.as_slice(),
        CardFace { rank: turnup.rank, suit: turnup.suit },
    );
    let candidates = match gather_pending_choices(&seats, hidden_ranges, &available, &turnup) {
        Ok(c) => c,
        Err(e) => {
            return Err(e);
        },
    };
    let ghost cands = candidates@.map_values(|v: Vec<PrivateChoice>| private_views(v@));
    let mut assignments = build_assignments(&seats, &candidates);
    if assignments.len() == 0 {
        assignments.push(Assignment { weight: 1, choices: Vec::new() });
        assert(assignment_views(assignments@) =~= seq![
            AssignmentView { weight: 1, choices: Seq::empty() },
        ]) by {
            assert(assignments@[0]@.choices =~= Seq::<(Player, PrivateView)>::empty());
        }
    }
    let ghost av = assignment_views(assignments@);
    assert(av == pending_assignments(seats@, cands));
    proof {
        assert forall|k: int| 0 <= k < cands.len() implies views_sized(#[trigger] cands[k], 3) by {
            assert(cands[k] == private_views(candidates@[k]@));
        }
        lemma_pending_assignments_sized(seats@, cands, 3);
    }
    let mut rng = match seed {
        Some(value) => crate::random::seeded_rng(value),
        None => crate::random::entropy_rng(),
    };
    let weights = assignment_weight_list(&assignments);
    let index = match sample_weighted_index(&weights, &mut rng) {
        Some(i) => i,
        None => {
            return Err(ExplorationError::NoRangeCandidates);
        },
    };
    let selected = &assignments[index];
    let ghost chosen = av[index as int];
    assert(chosen == selected@);
    assert(assignment_weights(av)[index as int] == chosen.weight);
    assert(choices_sized(chosen.choices, 3));
    let ghost start = available@;
    let mut i: usize = 0;
    assert(chosen.choices.take(0) =~= Seq::<(Player, PrivateView)>::empty());
    while i < selected.choices.len()
        invariant
            i <= selected.choices@.len(),
            chosen == selected@,
            available@ == without_assigned(start, chosen.choices.take(i as int)),
        decreases selected.choices@.len() - i,
    {
        assert(chosen.choices.take(i as int + 1).drop_last() =~= chosen.choices.take(i as int));
        assert(chosen.choices[i as int] == (selected.choices@[i as int].0, selected.choices@[i as int].1@));
        crate::ranges::remove_card_faces(&mut available, selected.choices[i].1.hand_cards.as_slice());
        i += 1;
    }
    assert(chosen.choices.take(selected.choices@.len() as int) =~= chosen.choices);
    let ghost after_assigned = available@;
    let (drawn0, k0) = draw_seat_faces(&selected.choices, 0, &available, &mut rng);
    let faces0 = match drawn0 {
        Ok(f) => f,
        Err(e) => {
            assert(pending_deal(av[index as int], turnup, k0@, 0) == Err::<
                (Seq<CardFace>, Seq<CardFace>),
                ExplorationError,
            >(e));
            return Err(e);
        },
    };
    crate::ranges::remove_card_faces(&mut available, faces0.as_slice());
    let (drawn1, k1) = draw_seat_faces(&selected.choices, 1, &available, &mut rng);
    let faces1 = match drawn1 {
        Ok(f) => f,
        Err(e) => {
            assert(pending_deal(av[index as int], turnup, k0@, k1@) == Err::<
                (Seq<CardFace>, Seq<CardFace>),
                ExplorationError,
            >(e));
            return Err(e);
        },
    };
    let zero = cards_with_generated_ids(0, faces0.as_slice(), &turnup);
    let one = cards_with_generated_ids(1, faces1.as_slice(), &turnup);
    let ghost zero_view = zero@;
    let ghost one_view = one@;
    assert(pending_deal(av[index as int], turnup, k0@, k1@) == Ok::<
        (Seq<CardFace>, Seq<CardFace>),
        ExplorationError,
    >((faces0@, faces1@)));
    let hands = crate::state::Hands {
        zero: crate::lists::CardList::from_vec(zero),
        one: crate::lists::CardList::from_vec(one),
    };
    match api_match.start_hand(crate::api::HandStart { turnup, hands }) {
        Ok(_) => {
            let out = api_match.export_state();
            assert(dealt_match(m, turnup, zero_view, one_view) == Ok::<
                crate::game_match::MatchView,
                ExplorationError,
            >(api_match@));
            Ok(out)
        },
        Err(e) => {
            assert(dealt_match(m, turnup, zero_view, one_view) == Err::<
                crate::game_match::MatchView,
                ExplorationError,
            >(ExplorationError::Engine(e)));
            Err(ExplorationError::Engine(e))
        },
    }
}

// ---------------------------------------------------------------------------
// Resolving a spec
// ---------------------------------------------------------------------------
/// What resolving a spec gives. The base state must restore; a spec with nothing to
/// resolve gives the base state back; an active hand takes hand and hidden-play ranges
/// (no pending hand); a match between hands takes a pending hand with hand ranges (no
/// hidden-play overrides).
pub open spec fn exploration_resolution(
    spec: ExplorationMatchSpec,
    r: Result<MatchState, ExplorationError>,
) -> bool {
    match crate::game_match::match_restored(spec.base_state) {
        Err(e) => r == Err::<MatchState, ExplorationError>(ExplorationError::Engine(e)),
        Ok(m) => {
            let rec = crate::game_match::view_record(m);
            let has_ranges = spec.hidden_ranges.zero is Some || spec.hidden_ranges.one is Some;
            let has_plays = spec.hidden_plays.zero is Some || spec.hidden_plays.one is Some;
            let has_completed = spec.completed_hidden_plays@.len() > 0;
            if spec.pending_hand is None && !has_ranges && !has_plays && !has_completed {
                match r {
                    Ok(out) => crate::game_match::exports(out, m),
                    Err(_) => false,
                }
            } else if m.current_hand is Some {
                if spec.pending_hand is Some {
                    r == Err::<MatchState, ExplorationError>(
                        ExplorationError::PendingHandRequiresNoActiveHand,
                    )
                } else {
                    active_resolution(
                        rec,
                        spec.hidden_ranges,
                        spec.hidden_plays,
                        spec.completed_hidden_plays@,
                        r,
                    )
                }
            } else if has_plays || has_completed {
                r == Err::<MatchState, ExplorationError>(
                    ExplorationError::HiddenPlayRequiresActiveHand,
                )
            } else {
                match spec.pending_hand {
                    None => r == Err::<MatchState, ExplorationError>(
                        ExplorationError::MissingPendingHandSpec,
                    ),
                    Some(p) => pending_resolution(rec, p.turnup, spec.hidden_ranges, r),
                }
            }
        },
    }
}

fn copy_match_state(state: &MatchState) -> (r: MatchState)
    ensures
        crate::game_match::match_record(r) == crate::game_match::match_record(*state),
{
    let current_hand = match &state.current_hand {
        Some(h) => Some(
            crate::match_types::EngineState {
                state: h.state.duplicate(),
                hand_winner: h.hand_winner,
                match_winner: h.match_winner,
            },
        ),
        None => None,
    };
    MatchState {
        next_dealer: state.next_dealer,
        score: state.score,
        winner: state.winner,
        current_hand,
    }
}

/// Resolves a spec into one concrete match state.
pub fn resolve_match_spec(spec: &ExplorationMatchSpec) -> (r: Result<MatchState, ExplorationError>)
    ensures
        exploration_resolution(*spec, r),
{
    let api_match = match crate::api::ApiMatch::from_state(copy_match_state(&spec.base_state)) {
        Ok(m) => m,
        Err(e) => {
            return Err(ExplorationError::Engine(e));
        },
    };
    let match_state = api_match.export_state();
    assert(crate::game_match::match_record(match_state) == crate::game_match::view_record(api_match@));
    let has_ranges = spec.hidden_ranges.zero.is_some() || spec.hidden_ranges.one.is_some();
    let has_hidden_plays = spec.hidden_plays.zero.is_some() || spec.hidden_plays.one.is_some();
    let has_completed_hidden_plays = spec.completed_hidden_plays.len() > 0;
    if spec.pending_hand.is_none() && !has_ranges && !has_hidden_plays && !has_completed_hidden_plays {
        return Ok(match_state);
    }
    if match_state.current_hand.is_some() {
        if spec.pending_hand.is_some() {
            return Err(ExplorationError::PendingHandRequiresNoActiveHand);
        }
        return resolve_active_hand_ranges(
            match_state,
            &spec.hidden_ranges,
            &spec.hidden_plays,
            &spec.completed_hidden_plays,
            spec.seed,
        );
    }
    if has_hidden_plays || has_completed_hidden_plays {
        return Err(ExplorationError::HiddenPlayRequiresActiveHand);
    }
    match &spec.pending_hand {
        None => Err(ExplorationError::MissingPendingHandSpec),
        Some(pending_hand) => resolve_pending_hand_spec(
            match_state,
            pending_hand,
            &spec.hidden_ranges,
            spec.seed,
        ),
    }
}

} // verus!
