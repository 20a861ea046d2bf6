use vstd::prelude::*;

verus! {

/// Card ranks, listed from the weakest plain rank to the strongest.
#[derive(Debug, Clone, Copy, PartialEq, Eq, Structural, Hash)]
pub enum Rank {
    Four,
    Five,
    Six,
    Seven,
    Queen,
    Jack,
    King,
    Ace,
    Two,
    Three,
}

/// Suits, listed from the weakest manilha suit to the strongest.
#[derive(Debug, Clone, Copy, PartialEq, Eq, Structural, Hash)]
pub enum Suit {
    Diamonds,
    Spades,
    Hearts,
    Clubs,
}

/// Position of a rank in the plain (non-manilha) strength order.
pub open spec fn rank_order(rank: Rank) -> nat {
    match rank {
        Rank::Four => 0,
        Rank::Five => 1,
        Rank::Six => 2,
        Rank::Seven => 3,
        Rank::Queen => 4,
        Rank::Jack => 5,
        Rank::King => 6,
        Rank::Ace => 7,
        Rank::Two => 8,
        Rank::Three => 9,
    }
}

/// The rank that follows `rank` cyclically; the rank after the turnup is the manilha.
pub open spec fn rank_after(rank: Rank) -> Rank {
    match rank {
        Rank::Four => Rank::Five,
        Rank::Five => Rank::Six,
        Rank::Six => Rank::Seven,
        Rank::Seven => Rank::Queen,
        Rank::Queen => Rank::Jack,
        Rank::Jack => Rank::King,
        Rank::King => Rank::Ace,
        Rank::Ace => Rank::Two,
        Rank::Two => Rank::Three,
        Rank::Three => Rank::Four,
    }
}

/// Strength of a suit among manilhas: diamonds < spades < hearts < clubs.
pub open spec fn suit_order(suit: Suit) -> nat {
    match suit {
        Suit::Diamonds => 0,
        Suit::Spades => 1,
        Suit::Hearts => 2,
        Suit::Clubs => 3,
    }
}

impl Rank {
    pub fn index(self) -> (r: usize)
        ensures
            r == rank_order(self),
            r < 10,
    {
        match self {
            Rank::Four => 0,
            Rank::Five => 1,
            Rank::Six => 2,
            Rank::Seven => 3,
            Rank::Queen => 4,
            Rank::Jack => 5,
            Rank::King => 6,
            Rank::Ace => 7,
            Rank::Two => 8,
            Rank::Three => 9,
        }
    }

    pub fn next_for_manilha(self) -> (r: Rank)
        ensures
            r == rank_after(self),
            rank_order(r) == (rank_order(self) + 1) % 10,
    {
        match self {
            Rank::Four => Rank::Five,
            Rank::Five => Rank::Six,
            Rank::Six => Rank::Seven,
            Rank::Seven => Rank::Queen,
            Rank::Queen => Rank::Jack,
            Rank::Jack => Rank::King,
            Rank::King => Rank::Ace,
            Rank::Ace => Rank::Two,
            Rank::Two => Rank::Three,
            Rank::Three => Rank::Four,
        }
    }
}

impl Suit {
    pub fn manilha_strength(self) -> (r: usize)
        ensures
            r == suit_order(self),
            r < 4,
    {
        match self {
            Suit::Diamonds => 0,
            Suit::Spades => 1,
            Suit::Hearts => 2,
            Suit::Clubs => 3,
        }
    }
}

/// The card turned face up after the deal; it fixes the manilha rank.
#[derive(Debug, Clone, Copy, PartialEq, Eq, Structural, Hash)]
pub struct Turnup {
    pub rank: Rank,
    pub suit: Suit,
}

/// A physical card, addressed by actions through its stable `id`.
#[derive(Debug, Clone, PartialEq, Eq, Hash)]
pub struct Card {
    pub id: String,
    pub rank: Rank,
    pub suit: Suit,
}

/// Whether a card of `rank` is a manilha under `turnup`.
pub open spec fn is_manilha_rank(rank: Rank, turnup: Turnup) -> bool {
    rank == rank_after(turnup.rank)
}

impl Card {
    pub fn is_manilha(&self, turnup: &Turnup) -> (r: bool)
        ensures
            r == is_manilha_rank(self.rank, *turnup),
    {
        self.rank == turnup.rank.next_for_manilha()
    }

    /// A copy of the card that is equal to it as a value.
    pub fn duplicate(&self) -> (r: Card)
        ensures
            r == *self,
    {
        Card { id: self.id.clone(), rank: self.rank, suit: self.suit }
    }
}

} // verus!
