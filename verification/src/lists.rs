//! Small inline-stored sequences of cards, plays and rounds.
//!
//! Each list keeps its items in a `smallvec::SmallVec`; the items it holds are
//! named by a spec function, and every access goes through the two trusted
//! conversions below.
use vstd::prelude::*;

use crate::cards::Card;
use crate::state::{CompletedRound, PlayedCard, RoundView};

verus! {

/// The cards of one hand, stored inline for up to three cards.
#[verifier::external_body]
#[derive(Debug, PartialEq, Eq)]
pub struct CardList {
    inner: smallvec::SmallVec<[Card; 3]>,
}

/// The plays of one round, stored inline for up to two plays.
#[verifier::external_body]
#[derive(Debug, PartialEq, Eq)]
pub struct PlayList {
    inner: smallvec::SmallVec<[PlayedCard; 2]>,
}

/// The completed rounds of a hand, stored inline for up to three rounds.
#[verifier::external_body]
#[derive(Debug, PartialEq, Eq)]
pub struct RoundList {
    inner: smallvec::SmallVec<[CompletedRound; 3]>,
}

/// The cards a `CardList` holds, in order.
pub uninterp spec fn card_list_items(list: CardList) -> Seq<Card>;

/// The plays a `PlayList` holds, in order.
pub uninterp spec fn play_list_items(list: PlayList) -> Seq<PlayedCard>;

/// The rounds a `RoundList` holds, in order.
pub uninterp spec fn round_list_items(list: RoundList) -> Seq<CompletedRound>;

/// Trusted: `SmallVec::as_slice` borrows the items in order.
#[verifier::external_body]
fn card_items(list: &CardList) -> (r: &[Card])
    ensures
        r@ == card_list_items(*list),
{
    list.inner.as_slice()
}

/// Trusted: `SmallVec::from_vec` keeps the vector's items in order.
#[verifier::external_body]
fn card_list_of(items: Vec<Card>) -> (r: CardList)
    ensures
        card_list_items(r) == items@,
{
    CardList { inner: smallvec::SmallVec::from_vec(items) }
}

/// Trusted: `SmallVec::as_slice` borrows the items in order.
#[verifier::external_body]
fn play_items(list: &PlayList) -> (r: &[PlayedCard])
    ensures
        r@ == play_list_items(*list),
{
    list.inner.as_slice()
}

/// Trusted: `SmallVec::from_vec` keeps the vector's items in order.
#[verifier::external_body]
fn play_list_of(items: Vec<PlayedCard>) -> (r: PlayList)
    ensures
        play_list_items(r) == items@,
{
    PlayList { inner: smallvec::SmallVec::from_vec(items) }
}

/// Trusted: `SmallVec::as_slice` borrows the items in order.
#[verifier::external_body]
fn round_items(list: &RoundList) -> (r: &[CompletedRound])
    ensures
        r@ == round_list_items(*list),
{
    list.inner.as_slice()
}

/// Trusted: `SmallVec::from_vec` keeps the vector's items in order.
#[verifier::external_body]
fn round_list_of(items: Vec<CompletedRound>) -> (r: RoundList)
    ensures
        round_list_items(r) == items@,
{
    RoundList { inner: smallvec::SmallVec::from_vec(items) }
}

/// Trusted: `SmallVec::remove` takes out the item at `index` and shifts the rest left;
/// it panics when `index` is out of range, which `requires` rules out.
#[verifier::external_body]
fn card_list_remove(list: &mut CardList, index: usize) -> (r: Card)
    requires
        index < card_list_items(*old(list)).len(),
    ensures
        r == card_list_items(*old(list))[index as int],
        card_list_items(*final(list)) == card_list_items(*old(list)).remove(index as int),
{
    list.inner.remove(index)
}

/// Trusted: `SmallVec::push` appends the item; it panics only when the length would
/// overflow `usize`, which `requires` rules out.
#[verifier::external_body]
fn play_list_push(list: &mut PlayList, play: PlayedCard)
    requires
        play_list_items(*old(list)).len() < usize::MAX,
    ensures
        play_list_items(*final(list)) == play_list_items(*old(list)).push(play),
{
    list.inner.push(play)
}

/// Trusted: `SmallVec::clear` removes every item.
#[verifier::external_body]
fn play_list_clear(list: &mut PlayList)
    ensures
        play_list_items(*final(list)) == Seq::<PlayedCard>::empty(),
{
    list.inner.clear()
}

/// Trusted: `SmallVec::push` appends the item; it panics only when the length would
/// overflow `usize`, which `requires` rules out.
#[verifier::external_body]
fn round_list_push(list: &mut RoundList, round: CompletedRound)
    requires
        round_list_items(*old(list)).len() < usize::MAX,
    ensures
        round_list_items(*final(list)) == round_list_items(*old(list)).push(round),
{
    list.inner.push(round)
}

/// Trusted: `SmallVec`'s `IndexMut` replaces the item at `index`; it panics when
/// `index` is out of range, which `requires` rules out.
#[verifier::external_body]
fn play_list_set(list: &mut PlayList, index: usize, play: PlayedCard)
    requires
        index < play_list_items(*old(list)).len(),
    ensures
        play_list_items(*final(list)) == play_list_items(*old(list)).update(index as int, play),
{
    list.inner[index] = play;
}

/// Trusted: `SmallVec`'s `IndexMut` replaces the item at `index`; it panics when
/// `index` is out of range, which `requires` rules out.
#[verifier::external_body]
fn round_list_set(list: &mut RoundList, index: usize, round: CompletedRound)
    requires
        index < round_list_items(*old(list)).len(),
    ensures
        round_list_items(*final(list)) == round_list_items(*old(list)).update(index as int, round),
{
    list.inner[index] = round;
}

impl View for CardList {
    type V = Seq<Card>;

    open spec fn view(&self) -> Seq<Card> {
        card_list_items(*self)
    }
}

impl View for PlayList {
    type V = Seq<PlayedCard>;

    open spec fn view(&self) -> Seq<PlayedCard> {
        play_list_items(*self)
    }
}

impl View for RoundList {
    type V = Seq<RoundView>;

    open spec fn view(&self) -> Seq<RoundView> {
        round_list_items(*self).map_values(|round: CompletedRound| round@)
    }
}

/// Copies a slice of cards into a vector of equal cards.
pub fn copy_cards(items: &[Card]) -> (r: Vec<Card>)
    ensures
        r@ == items@,
{
    let mut out: Vec<Card> = Vec::new();
    let mut i: usize = 0;
    while i < items.len()
        invariant
            i <= items@.len(),
            out@ == items@.subrange(0, i as int),
        decreases items@.len() - i,
    {
        out.push(items[i].duplicate());
        i += 1;
    }
    out
}

/// Copies a slice of plays into a vector of equal plays.
pub fn copy_plays(items: &[PlayedCard]) -> (r: Vec<PlayedCard>)
    ensures
        r@ == items@,
{
    let mut out: Vec<PlayedCard> = Vec::new();
    let mut i: usize = 0;
    while i < items.len()
        invariant
            i <= items@.len(),
            out@ == items@.subrange(0, i as int),
        decreases items@.len() - i,
    {
        out.push(items[i].duplicate());
        i += 1;
    }
    out
}

impl CardList {
    pub fn new() -> (r: Self)
        ensures
            r@ == Seq::<Card>::empty(),
    {
        card_list_of(Vec::new())
    }

    pub fn from_vec(items: Vec<Card>) -> (r: Self)
        ensures
            r@ == items@,
    {
        card_list_of(items)
    }

    pub fn as_slice(&self) -> (r: &[Card])
        ensures
            r@ == self@,
    {
        card_items(self)
    }

    pub fn len(&self) -> (r: usize)
        ensures
            r == self@.len(),
    {
        card_items(self).len()
    }

    pub fn to_vec(&self) -> (r: Vec<Card>)
        ensures
            r@ == self@,
    {
        copy_cards(card_items(self))
    }

    /// Takes out the card at `index`, keeping the others in order.
    pub fn remove(&mut self, index: usize) -> (r: Card)
        requires
            index < old(self)@.len(),
        ensures
            r == old(self)@[index as int],
            final(self)@ == old(self)@.remove(index as int),
    {
        card_list_remove(self, index)
    }
}

impl Clone for CardList {
    fn clone(&self) -> (r: Self)
        ensures
            r@ == self@,
    {
        card_list_of(copy_cards(card_items(self)))
    }
}

impl PlayList {
    pub fn new() -> (r: Self)
        ensures
            r@ == Seq::<PlayedCard>::empty(),
    {
        play_list_of(Vec::new())
    }

    pub fn from_vec(items: Vec<PlayedCard>) -> (r: Self)
        ensures
            r@ == items@,
    {
        play_list_of(items)
    }

    pub fn as_slice(&self) -> (r: &[PlayedCard])
        ensures
            r@ == self@,
    {
        play_items(self)
    }

    pub fn len(&self) -> (r: usize)
        ensures
            r == self@.len(),
    {
        play_items(self).len()
    }

    pub fn to_vec(&self) -> (r: Vec<PlayedCard>)
        ensures
            r@ == self@,
    {
        copy_plays(play_items(self))
    }

    /// Appends a play.
    pub fn push(&mut self, play: PlayedCard)
        requires
            old(self)@.len() < usize::MAX,
        ensures
            final(self)@ == old(self)@.push(play),
    {
        play_list_push(self, play)
    }

    /// Replaces the play at `index`.
    pub fn set(&mut self, index: usize, play: PlayedCard)
        requires
            index < old(self)@.len(),
        ensures
            final(self)@ == old(self)@.update(index as int, play),
    {
        play_list_set(self, index, play)
    }

    /// Removes every play.
    pub fn clear(&mut self)
        ensures
            final(self)@ == Seq::<PlayedCard>::empty(),
    {
        play_list_clear(self)
    }
}

impl Clone for PlayList {
    fn clone(&self) -> (r: Self)
        ensures
            r@ == self@,
    {
        play_list_of(copy_plays(play_items(self)))
    }
}

impl RoundList {
    pub fn new() -> (r: Self)
        ensures
            r@ == Seq::<RoundView>::empty(),
    {
        let r = round_list_of(Vec::new());
        assert(r@ =~= Seq::<RoundView>::empty());
        r
    }

    pub fn from_vec(items: Vec<CompletedRound>) -> (r: Self)
        ensures
            r@ == items@.map_values(|round: CompletedRound| round@),
    {
        round_list_of(items)
    }

    pub fn as_slice(&self) -> (r: &[CompletedRound])
        ensures
            r@.map_values(|round: CompletedRound| round@) == self@,
    {
        round_items(self)
    }

    pub fn len(&self) -> (r: usize)
        ensures
            r == self@.len(),
    {
        round_items(self).len()
    }

    /// Copies the rounds into a vector of rounds with the same views.
    pub fn to_vec(&self) -> (r: Vec<CompletedRound>)
        ensures
            r@.map_values(|round: CompletedRound| round@) == self@,
    {
        let items = round_items(self);
        let mut out: Vec<CompletedRound> = Vec::new();
        let mut i: usize = 0;
        while i < items.len()
            invariant
                i <= items@.len(),
                items@ == round_list_items(*self),
                out@.len() == i,
                forall|j: int| 0 <= j < i ==> #[trigger] out@[j]@ == items@[j]@,
            decreases items@.len() - i,
        {
            out.push(items[i].duplicate());
            i += 1;
        }
        assert(out@.map_values(|round: CompletedRound| round@) =~= self@);
        out
    }

    /// Replaces the round at `index`.
    pub fn set(&mut self, index: usize, round: CompletedRound)
        requires
            index < old(self)@.len(),
        ensures
            final(self)@ == old(self)@.update(index as int, round@),
    {
        round_list_set(self, index, round);
        assert(self@ =~= old(self)@.update(index as int, round@));
    }

    /// Appends a round.
    pub fn push(&mut self, round: CompletedRound)
        requires
            old(self)@.len() < usize::MAX,
        ensures
            final(self)@ == old(self)@.push(round@),
    {
        round_list_push(self, round);
        assert(self@ =~= old(self)@.push(round@));
    }
}

impl Clone for RoundList {
    fn clone(&self) -> (r: Self)
        ensures
            r@ == self@,
    {
        round_list_of(self.to_vec())
    }
}

} // verus!
