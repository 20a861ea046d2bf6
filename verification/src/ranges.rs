//! Card faces and the patterns that describe ranges of them: the deck, strength
//! order, per-card constraints, hand patterns and the hands a deck admits.
use vstd::prelude::*;

use crate::cards::{rank_after, rank_order, suit_order, Card, Rank, Suit, Turnup};

verus! {

/// A card's face: its rank and suit, without an id.
#[derive(Debug, Clone, Copy, PartialEq, Eq, Structural, Hash)]
pub struct CardFace {
    pub rank: Rank,
    pub suit: Suit,
}

/// A condition on one card; every field that is set must hold.
#[derive(Debug, Clone, PartialEq, Eq)]
pub struct CardConstraint {
    pub exact: Option<CardFace>,
    pub allowed_ranks: Option<Vec<Rank>>,
    pub allowed_suits: Option<Vec<Suit>>,
    pub is_manilha: Option<bool>,
    pub strength_at_least: Option<Rank>,
    pub strength_at_most: Option<Rank>,
}

/// A set of hands: exactly these cards, or one constraint per card in strength order.
#[derive(Debug, Clone, PartialEq, Eq)]
pub enum HandPattern {
    Exact { cards: Vec<CardFace> },
    Ordered { slots: Vec<CardConstraint> },
}

/// The face of a card.
pub open spec fn face_of(card: Card) -> CardFace {
    CardFace { rank: card.rank, suit: card.suit }
}

/// The rank at a position of the plain strength order.
pub open spec fn rank_with_order(n: int) -> Rank {
    if n == 0 {
        Rank::Four
    } else if n == 1 {
        Rank::Five
    } else if n == 2 {
        Rank::Six
    } else if n == 3 {
        Rank::Seven
    } else if n == 4 {
        Rank::Queen
    } else if n == 5 {
        Rank::Jack
    } else if n == 6 {
        Rank::King
    } else if n == 7 {
        Rank::Ace
    } else if n == 8 {
        Rank::Two
    } else {
        Rank::Three
    }
}

/// The suit at a position of the manilha suit order.
pub open spec fn suit_with_order(n: int) -> Suit {
    if n == 0 {
        Suit::Diamonds
    } else if n == 1 {
        Suit::Spades
    } else if n == 2 {
        Suit::Hearts
    } else {
        Suit::Clubs
    }
}

/// The forty faces of the deck, rank by rank from the weakest, each rank in suit order.
pub open spec fn standard_deck() -> Seq<CardFace> {
    Seq::new(40, |i: int| CardFace { rank: rank_with_order(i / 4), suit: suit_with_order(i % 4) })
}

/// A face's strength under a turnup: manilhas rank above every plain card, by suit.
pub open spec fn strength_rank(face: CardFace, turnup: Turnup) -> nat {
    if face.rank == rank_after(turnup.rank) {
        10 + suit_order(face.suit)
    } else {
        rank_order(face.rank)
    }
}

/// `sorted` with `face` inserted after every face of no greater strength.
pub open spec fn insert_by_strength(sorted: Seq<CardFace>, face: CardFace, turnup: Turnup) -> Seq<
    CardFace,
>
    decreases sorted.len(),
{
    if sorted.len() == 0 {
        seq![face]
    } else if strength_rank(sorted.last(), turnup) <= strength_rank(face, turnup) {
        sorted.push(face)
    } else {
        insert_by_strength(sorted.drop_last(), face, turnup).push(sorted.last())
    }
}

/// The faces in ascending strength; faces of equal strength keep their order (a stable sort).
pub open spec fn sorted_by_strength(faces: Seq<CardFace>, turnup: Turnup) -> Seq<CardFace>
    decreases faces.len(),
{
    if faces.len() == 0 {
        faces
    } else {
        insert_by_strength(sorted_by_strength(faces.drop_last(), turnup), faces.last(), turnup)
    }
}

/// Whether a face meets every condition that a constraint sets.
pub open spec fn constraint_admits(c: CardConstraint, face: CardFace, turnup: Turnup) -> bool {
    &&& (c.exact matches Some(e) ==> e == face)
    &&& (c.allowed_ranks matches Some(ranks) ==> ranks@.contains(face.rank))
    &&& (c.allowed_suits matches Some(suits) ==> suits@.contains(face.suit))
    &&& (c.is_manilha matches Some(m) ==> m == (face.rank == rank_after(turnup.rank)))
    &&& (c.strength_at_least matches Some(min) ==> strength_rank(face, turnup) >= rank_order(min))
    &&& (c.strength_at_most matches Some(max) ==> strength_rank(face, turnup) <= rank_order(max))
}

/// Whether a hand belongs to a pattern.
pub open spec fn pattern_admits(pattern: HandPattern, cards: Seq<CardFace>, turnup: Turnup) -> bool {
    match pattern {
        HandPattern::Exact { cards: expected } => expected@.len() == cards.len()
            && sorted_by_strength(expected@, turnup) == sorted_by_strength(cards, turnup),
        HandPattern::Ordered { slots } => slots@.len() == cards.len() && forall|i: int|
            0 <= i < cards.len() ==> constraint_admits(
                #[trigger] slots@[i],
                sorted_by_strength(cards, turnup)[i],
                turnup,
            ),
    }
}

/// Every choice of `size` items, each keeping the items' order, listed with the choices
/// that take the first item before those that skip it.
pub open spec fn hands_of(items: Seq<CardFace>, size: nat) -> Seq<Seq<CardFace>>
    decreases items.len(),
{
    if size == 0 {
        seq![Seq::<CardFace>::empty()]
    } else if items.len() == 0 {
        Seq::empty()
    } else {
        hands_of(items.drop_first(), (size - 1) as nat).map_values(
            |h: Seq<CardFace>| seq![items[0]] + h,
        ) + hands_of(items.drop_first(), size)
    }
}

/// The hands of `hands` that belong to `pattern`, in order.
pub open spec fn matching_hands(hands: Seq<Seq<CardFace>>, pattern: HandPattern, turnup: Turnup) -> Seq<
    Seq<CardFace>,
>
    decreases hands.len(),
{
    if hands.len() == 0 {
        hands
    } else {
        let rest = matching_hands(hands.drop_last(), pattern, turnup);
        if pattern_admits(pattern, hands.last(), turnup) {
            rest.push(hands.last())
        } else {
            rest
        }
    }
}

/// `faces` without the first occurrence of `face`, if there is one.
pub open spec fn without_first(faces: Seq<CardFace>, face: CardFace) -> Seq<CardFace>
    decreases faces.len(),
{
    if faces.len() == 0 {
        faces
    } else if faces[0] == face {
        faces.drop_first()
    } else {
        seq![faces[0]] + without_first(faces.drop_first(), face)
    }
}

/// `faces` without the first occurrence of each of `removed`, taken in order.
pub open spec fn without_faces(faces: Seq<CardFace>, removed: Seq<CardFace>) -> Seq<CardFace>
    decreases removed.len(),
{
    if removed.len() == 0 {
        faces
    } else {
        without_first(without_faces(faces, removed.drop_last()), removed.last())
    }
}

/// `faces` without any occurrence of `face`.
pub open spec fn without_every(faces: Seq<CardFace>, face: CardFace) -> Seq<CardFace>
    decreases faces.len(),
{
    if faces.len() == 0 {
        faces
    } else {
        let rest = without_every(faces.drop_last(), face);
        if faces.last() == face {
            rest
        } else {
            rest.push(faces.last())
        }
    }
}

/// The plain sequences that a vector of hands holds.
pub open spec fn face_lists(hands: Seq<Vec<CardFace>>) -> Seq<Seq<CardFace>> {
    hands.map_values(|h: Vec<CardFace>| h@)
}

impl CardFace {
    pub fn of_card(card: &Card) -> (r: CardFace)
        ensures
            r == face_of(*card),
    {
        CardFace { rank: card.rank, suit: card.suit }
    }

    /// A card with this face and the given id.
    pub fn to_card_with_id(&self, id: String) -> (r: Card)
        ensures
            r == (Card { id, rank: self.rank, suit: self.suit }),
    {
        Card { id, rank: self.rank, suit: self.suit }
    }
}

fn rank_at(n: usize) -> (r: Rank)
    requires
        n < 10,
    ensures
        r == rank_with_order(n as int),
{
    match n {
        0 => Rank::Four,
        1 => Rank::Five,
        2 => Rank::Six,
        3 => Rank::Seven,
        4 => Rank::Queen,
        5 => Rank::Jack,
        6 => Rank::King,
        7 => Rank::Ace,
        8 => Rank::Two,
        _ => Rank::Three,
    }
}

fn suit_at(n: usize) -> (r: Suit)
    requires
        n < 4,
    ensures
        r == suit_with_order(n as int),
{
    match n {
        0 => Suit::Diamonds,
        1 => Suit::Spades,
        2 => Suit::Hearts,
        _ => Suit::Clubs,
    }
}

/// The forty faces of the deck in deck order.
pub fn full_deck() -> (r: Vec<CardFace>)
    ensures
        r@ == standard_deck(),
{
    let mut cards: Vec<CardFace> = Vec::new();
    let mut i: usize = 0;
    while i < 40
        invariant
            i <= 40,
            cards@ == standard_deck().take(i as int),
        decreases 40 - i,
    {
        cards.push(CardFace { rank: rank_at(i / 4), suit: suit_at(i % 4) });
        i += 1;
        assert(cards@ =~= standard_deck().take(i as int));
    }
    assert(cards@ =~= standard_deck());
    cards
}

/// A face's strength under a turnup.
pub fn strength_key(face: &CardFace, turnup: &Turnup) -> (r: u8)
    ensures
        r == strength_rank(*face, *turnup),
        r < 14,
{
    if face.rank == turnup.rank.next_for_manilha() {
        10 + face.suit.manilha_strength() as u8
    } else {
        face.rank.index() as u8
    }
}

/// The plain strength of a rank, on the same scale as `strength_key`.
pub fn rank_strength_key(rank: Rank) -> (r: u8)
    ensures
        r == rank_order(rank),
{
    rank.index() as u8
}

pub proof fn lemma_insert_len(sorted: Seq<CardFace>, face: CardFace, turnup: Turnup)
    ensures
        insert_by_strength(sorted, face, turnup).len() == sorted.len() + 1,
    decreases sorted.len(),
{
    if sorted.len() > 0 && strength_rank(sorted.last(), turnup) > strength_rank(face, turnup) {
        lemma_insert_len(sorted.drop_last(), face, turnup);
    }
}

pub proof fn lemma_sorted_len(faces: Seq<CardFace>, turnup: Turnup)
    ensures
        sorted_by_strength(faces, turnup).len() == faces.len(),
    decreases faces.len(),
{
    if faces.len() > 0 {
        lemma_sorted_len(faces.drop_last(), turnup);
        lemma_insert_len(sorted_by_strength(faces.drop_last(), turnup), faces.last(), turnup);
    }
}

fn insert_sorted(sorted: Vec<CardFace>, face: CardFace, turnup: &Turnup) -> (r: Vec<CardFace>)
    ensures
        r@ == insert_by_strength(sorted@, face, *turnup),
    decreases sorted@.len(),
{
    let mut sorted = sorted;
    let n = sorted.len();
    if n == 0 {
        sorted.push(face);
        assert(sorted@ =~= seq![face]);
        return sorted;
    }
    let last = sorted[n - 1];
    if strength_key(&last, turnup) <= strength_key(&face, turnup) {
        sorted.push(face);
        sorted
    } else {
        let ghost before = sorted@;
        sorted.pop();
        assert(sorted@ =~= before.drop_last());
        let mut r = insert_sorted(sorted, face, turnup);
        r.push(last);
        r
    }
}

/// The faces sorted by ascending strength, keeping the order of equally strong faces.
pub fn sort_by_strength(faces: &[CardFace], turnup: &Turnup) -> (r: Vec<CardFace>)
    ensures
        r@ == sorted_by_strength(faces@, *turnup),
{
    let mut out: Vec<CardFace> = Vec::new();
    let mut i: usize = 0;
    while i < faces.len()
        invariant
            i <= faces@.len(),
            out@ == sorted_by_strength(faces@.take(i as int), *turnup),
        decreases faces@.len() - i,
    {
        assert(faces@.take(i as int + 1).drop_last() =~= faces@.take(i as int));
        out = insert_sorted(out, faces[i], turnup);
        i += 1;
    }
    assert(faces@.take(faces@.len() as int) =~= faces@);
    out
}

fn ranks_contain(ranks: &Vec<Rank>, rank: Rank) -> (r: bool)
    ensures
        r == ranks@.contains(rank),
{
    let mut i: usize = 0;
    while i < ranks.len()
        invariant
            i <= ranks@.len(),
            forall|j: int| 0 <= j < i ==> ranks@[j] != rank,
        decreases ranks@.len() - i,
    {
        if ranks[i] == rank {
            return true;
        }
        i += 1;
    }
    false
}

fn suits_contain(suits: &Vec<Suit>, suit: Suit) -> (r: bool)
    ensures
        r == suits@.contains(suit),
{
    let mut i: usize = 0;
    while i < suits.len()
        invariant
            i <= suits@.len(),
            forall|j: int| 0 <= j < i ==> suits@[j] != suit,
        decreases suits@.len() - i,
    {
        if suits[i] == suit {
            return true;
        }
        i += 1;
    }
    false
}

/// Whether `face` meets every condition that `constraint` sets.
pub fn constraint_matches(constraint: &CardConstraint, face: &CardFace, turnup: &Turnup) -> (r:
    bool)
    ensures
        r == constraint_admits(*constraint, *face, *turnup),
{
    if let Some(exact) = &constraint.exact {
        if *exact != *face {
            return false;
        }
    }
    if let Some(ranks) = &constraint.allowed_ranks {
        if !ranks_contain(ranks, face.rank) {
            return false;
        }
    }
    if let Some(suits) = &constraint.allowed_suits {
        if !suits_contain(suits, face.suit) {
            return false;
        }
    }
    if let Some(is_manilha) = constraint.is_manilha {
        let card_is_manilha = face.rank == turnup.rank.next_for_manilha();
        if is_manilha != card_is_manilha {
            return false;
        }
    }
    if let Some(min_rank) = constraint.strength_at_least {
        if strength_key(face, turnup) < rank_strength_key(min_rank) {
            return false;
        }
    }
    if let Some(max_rank) = constraint.strength_at_most {
        if strength_key(face, turnup) > rank_strength_key(max_rank) {
            return false;
        }
    }
    true
}

fn same_faces(left: &Vec<CardFace>, right: &Vec<CardFace>) -> (r: bool)
    ensures
        r == (left@ == right@),
{
    if left.len() != right.len() {
        return false;
    }
    let mut i: usize = 0;
    while i < left.len()
        invariant
            i <= left@.len(),
            left@.len() == right@.len(),
            forall|j: int| 0 <= j < i ==> left@[j] == right@[j],
        decreases left@.len() - i,
    {
        if left[i] != right[i] {
            return false;
        }
        i += 1;
    }
    assert(left@ =~= right@);
    true
}

/// Whether a hand belongs to a pattern.
pub fn hand_pattern_matches(pattern: &HandPattern, cards: &[CardFace], turnup: &Turnup) -> (r:
    bool)
    ensures
        r == pattern_admits(*pattern, cards@, *turnup),
{
    match pattern {
        HandPattern::Exact { cards: expected } => {
            if expected.len() != cards.len() {
                return false;
            }
            let expected_sorted = sort_by_strength(expected.as_slice(), turnup);
            let actual_sorted = sort_by_strength(cards, turnup);
            same_faces(&expected_sorted, &actual_sorted)
        },
        HandPattern::Ordered { slots } => {
            if slots.len() != cards.len() {
                return false;
            }
            let ordered = sort_by_strength(cards, turnup);
            proof {
                lemma_sorted_len(cards@, *turnup);
            }
            let mut i: usize = 0;
            while i < ordered.len()
                invariant
                    i <= ordered@.len(),
                    ordered@ == sorted_by_strength(cards@, *turnup),
                    *pattern == (HandPattern::Ordered { slots: *slots }),
                    ordered@.len() == cards@.len(),
                    slots@.len() == cards@.len(),
                    forall|j: int|
                        0 <= j < i ==> constraint_admits(
                            #[trigger] slots@[j],
                            ordered@[j],
                            *turnup,
                        ),
                decreases ordered@.len() - i,
            {
                if !constraint_matches(&slots[i], &ordered[i], turnup) {
                    assert(!constraint_admits(slots@[i as int], ordered@[i as int], *turnup));
                    assert(!(forall|j: int|
                        0 <= j < cards@.len() ==> constraint_admits(
                            #[trigger] slots@[j],
                            sorted_by_strength(cards@, *turnup)[j],
                            *turnup,
                        )));
                    return false;
                }
                i += 1;
            }
            true
        },
    }
}

fn prefixed(first: CardFace, rest: &Vec<CardFace>) -> (r: Vec<CardFace>)
    ensures
        r@ == seq![first] + rest@,
{
    let mut out: Vec<CardFace> = Vec::new();
    out.push(first);
    let mut i: usize = 0;
    while i < rest.len()
        invariant
            i <= rest@.len(),
            out@ == seq![first] + rest@.take(i as int),
        decreases rest@.len() - i,
    {
        out.push(rest[i]);
        i += 1;
        assert(out@ =~= seq![first] + rest@.take(i as int));
    }
    assert(rest@.take(rest@.len() as int) =~= rest@);
    out
}

fn hands_from(items: &[CardFace], start: usize, size: usize) -> (r: Vec<Vec<CardFace>>)
    requires
        start <= items@.len(),
    ensures
        face_lists(r@) == hands_of(items@.subrange(start as int, items@.len() as int), size as nat),
    decreases items@.len() - start,
{
    let ghost tail = items@.subrange(start as int, items@.len() as int);
    if size == 0 {
        let mut r: Vec<Vec<CardFace>> = Vec::new();
        r.push(Vec::new());
        assert(face_lists(r@) =~= seq![Seq::<CardFace>::empty()]);
        return r;
    }
    if start == items.len() {
        let r: Vec<Vec<CardFace>> = Vec::new();
        assert(tail.len() == 0);
        assert(face_lists(r@) =~= Seq::<Seq<CardFace>>::empty());
        return r;
    }
    let first = items[start];
    assert(tail.drop_first() =~= items@.subrange(start as int + 1, items@.len() as int));
    let with_first = hands_from(items, start + 1, size - 1);
    let mut rest = hands_from(items, start + 1, size);
    let ghost prefixed_all = hands_of(tail.drop_first(), (size - 1) as nat).map_values(
        |h: Seq<CardFace>| seq![first] + h,
    );
    let mut out: Vec<Vec<CardFace>> = Vec::new();
    let mut k: usize = 0;
    while k < with_first.len()
        invariant
            k <= with_first@.len(),
            tail.len() > 0,
            prefixed_all.len() == with_first@.len(),
            face_lists(with_first@) == hands_of(tail.drop_first(), (size - 1) as nat),
            prefixed_all == hands_of(tail.drop_first(), (size - 1) as nat).map_values(
                |h: Seq<CardFace>| seq![first] + h,
            ),
            face_lists(out@) == prefixed_all.take(k as int),
        decreases with_first@.len() - k,
    {
        let h = prefixed(first, &with_first[k]);
        assert(face_lists(with_first@)[k as int] == with_first@[k as int]@);
        assert(prefixed_all[k as int] == h@);
        let ghost old_out = out@;
        assert(face_lists(old_out).len() == old_out.len());
        assert(old_out.len() == k);
        out.push(h);
        assert(out@ == old_out.push(h));
        assert(face_lists(out@).len() == k + 1);
        assert forall|j: int| 0 <= j < k + 1 implies #[trigger] face_lists(out@)[j]
            == prefixed_all.take(k + 1)[j] by {
            if j < k {
                assert(face_lists(old_out)[j] == prefixed_all.take(k as int)[j]);
            }
        }
        k += 1;
        assert(face_lists(out@) =~= prefixed_all.take(k as int));
    }
    assert(prefixed_all.take(k as int) =~= prefixed_all);
    let ghost before = out@;
    let ghost rest_view = rest@;
    out.append(&mut rest);
    assert(face_lists(out@) =~= face_lists(before) + face_lists(rest_view));
    assert(tail[0] == first);
    out
}

/// A copy of a list of faces.
pub fn copy_faces(faces: &[CardFace]) -> (r: Vec<CardFace>)
    ensures
        r@ == faces@,
{
    let mut out: Vec<CardFace> = Vec::new();
    let mut i: usize = 0;
    while i < faces.len()
        invariant
            i <= faces@.len(),
            out@ == faces@.take(i as int),
        decreases faces@.len() - i,
    {
        out.push(faces[i]);
        i += 1;
        assert(out@ =~= faces@.take(i as int));
    }
    assert(faces@.take(faces@.len() as int) =~= faces@);
    out
}

/// Every hand of `hand_size` faces that `available` holds.
pub fn enumerate_all_hands(available: &[CardFace], hand_size: usize) -> (r: Vec<Vec<CardFace>>)
    ensures
        face_lists(r@) == hands_of(available@, hand_size as nat),
{
    assert(available@.subrange(0, available@.len() as int) =~= available@);
    hands_from(available, 0, hand_size)
}

/// Every hand of `hand_size` faces that `available` holds and `pattern` admits.
pub fn enumerate_matching_hands(
    available: &[CardFace],
    hand_size: usize,
    pattern: &HandPattern,
    turnup: &Turnup,
) -> (r: Vec<Vec<CardFace>>)
    ensures
        face_lists(r@) == matching_hands(hands_of(available@, hand_size as nat), *pattern, *turnup),
{
    let combos = enumerate_all_hands(available, hand_size);
    let ghost all = face_lists(combos@);
    let mut out: Vec<Vec<CardFace>> = Vec::new();
    let mut i: usize = 0;
    while i < combos.len()
        invariant
            i <= combos@.len(),
            all == face_lists(combos@),
            face_lists(out@) == matching_hands(all.take(i as int), *pattern, *turnup),
        decreases combos@.len() - i,
    {
        assert(all.take(i as int + 1).drop_last() =~= all.take(i as int));
        assert(all.take(i as int + 1).last() == combos@[i as int]@);
        if hand_pattern_matches(pattern, combos[i].as_slice(), turnup) {
            let ghost before = out@;
            out.push(copy_faces(combos[i].as_slice()));
            assert(face_lists(out@) =~= face_lists(before).push(combos@[i as int]@));
        }
        i += 1;
    }
    assert(all.take(combos@.len() as int) =~= all);
    out
}

proof fn lemma_without_first_at(faces: Seq<CardFace>, face: CardFace, j: int)
    requires
        0 <= j < faces.len(),
        faces[j] == face,
        forall|k: int| 0 <= k < j ==> faces[k] != face,
    ensures
        without_first(faces, face) == faces.remove(j),
    decreases j,
{
    if j > 0 {
        lemma_without_first_at(faces.drop_first(), face, j - 1);
        assert(faces.remove(j) =~= seq![faces[0]] + faces.drop_first().remove(j - 1));
    } else {
        assert(faces.remove(0) =~= faces.drop_first());
    }
}

proof fn lemma_without_first_absent(faces: Seq<CardFace>, face: CardFace)
    requires
        forall|k: int| 0 <= k < faces.len() ==> faces[k] != face,
    ensures
        without_first(faces, face) == faces,
    decreases faces.len(),
{
    if faces.len() > 0 {
        lemma_without_first_absent(faces.drop_first(), face);
        assert(seq![faces[0]] + faces.drop_first() =~= faces);
    }
}

/// Removes the first occurrence of `face`, if any.
pub fn remove_first_face(available: &mut Vec<CardFace>, face: CardFace)
    ensures
        final(available)@ == without_first(old(available)@, face),
{
    let mut j: usize = 0;
    while j < available.len()
        invariant
            j <= available@.len(),
            available@ == old(available)@,
            forall|k: int| 0 <= k < j ==> available@[k] != face,
        decreases available@.len() - j,
    {
        if available[j] == face {
            proof {
                lemma_without_first_at(available@, face, j as int);
            }
            available.remove(j);
            return;
        }
        j += 1;
    }
    proof {
        lemma_without_first_absent(available@, face);
    }
}

/// Removes, for each of `cards` in order, the first occurrence of its face.
pub fn remove_card_faces(available: &mut Vec<CardFace>, cards: &[CardFace])
    ensures
        final(available)@ == without_faces(old(available)@, cards@),
{
    let ghost start = available@;
    let mut i: usize = 0;
    while i < cards.len()
        invariant
            i <= cards@.len(),
            available@ == without_faces(start, cards@.take(i as int)),
        decreases cards@.len() - i,
    {
        assert(cards@.take(i as int + 1).drop_last() =~= cards@.take(i as int));
        remove_first_face(available, cards[i]);
        i += 1;
    }
    assert(cards@.take(cards@.len() as int) =~= cards@);
}

/// The faces other than `face`, in order.
pub fn faces_without(faces: &[CardFace], face: CardFace) -> (r: Vec<CardFace>)
    ensures
        r@ == without_every(faces@, face),
{
    let mut out: Vec<CardFace> = Vec::new();
    let mut i: usize = 0;
    while i < faces.len()
        invariant
            i <= faces@.len(),
            out@ == without_every(faces@.take(i as int), face),
        decreases faces@.len() - i,
    {
        assert(faces@.take(i as int + 1).drop_last() =~= faces@.take(i as int));
        if faces[i] != face {
            out.push(faces[i]);
        }
        i += 1;
    }
    assert(faces@.take(faces@.len() as int) =~= faces@);
    out
}

/// A constraint that only sets a lowest strength.
pub open spec fn strength_floor(min: Rank) -> CardConstraint {
    CardConstraint {
        exact: None,
        allowed_ranks: None,
        allowed_suits: None,
        is_manilha: None,
        strength_at_least: Some(min),
        strength_at_most: None,
    }
}

/// A constraint that only sets a highest strength.
pub open spec fn strength_ceiling(max: Rank) -> CardConstraint {
    CardConstraint {
        exact: None,
        allowed_ranks: None,
        allowed_suits: None,
        is_manilha: None,
        strength_at_least: None,
        strength_at_most: Some(max),
    }
}

/// Strength bounds, stated by rank: every manilha passes any lowest strength and fails
/// any highest strength; a plain card passes a lowest strength exactly when its rank is
/// no weaker than the bound's rank, and a highest strength exactly when it is no
/// stronger.
pub proof fn lemma_strength_bounds(bound: Rank, face: CardFace, turnup: Turnup)
    ensures
        face.rank == rank_after(turnup.rank) ==> constraint_admits(strength_floor(bound), face, turnup)
            && !constraint_admits(strength_ceiling(bound), face, turnup),
        face.rank != rank_after(turnup.rank) ==> (constraint_admits(strength_floor(bound), face, turnup)
            <==> rank_order(face.rank) >= rank_order(bound)),
        face.rank != rank_after(turnup.rank) ==> (constraint_admits(strength_ceiling(bound), face, turnup)
            <==> rank_order(face.rank) <= rank_order(bound)),
{
    assert(rank_order(bound) <= 9);
}

/// A lowest strength admits every card at least as strong as one it admits, and a
/// highest strength every card at most as strong as one it admits.
pub proof fn lemma_strength_bounds_monotone(bound: Rank, weaker: CardFace, stronger: CardFace, turnup: Turnup)
    requires
        strength_rank(weaker, turnup) <= strength_rank(stronger, turnup),
    ensures
        constraint_admits(strength_floor(bound), weaker, turnup) ==> constraint_admits(
            strength_floor(bound),
            stronger,
            turnup,
        ),
        constraint_admits(strength_ceiling(bound), stronger, turnup) ==> constraint_admits(
            strength_ceiling(bound),
            weaker,
            turnup,
        ),
{
}

} // verus!
