//! The pool of cards that are not yet dealt.
use vstd::prelude::*;
use rand::seq::SliceRandom;
use crate::card::{Card, Suit};

verus! {

broadcast use vstd::seq_lib::group_seq_properties;

/// Why a card could not be taken from a deck.
#[derive(Debug, Clone, Copy, PartialEq, Eq, Structural)]
pub enum DeckError {
    /// The card asked for is not in the deck.
    CardNotFound,
    /// The deck has no cards left.
    Empty,
}

/// The thirteen cards of one suit, from the Two up to the Ace.
pub open spec fn suit_run(suit: Suit) -> Seq<Card> {
    Seq::new(13, |i: int| Card { rank: (i + 2) as u8, suit })
}

/// The standard deck in its fresh order: clubs, hearts, diamonds, spades,
/// each from the Two up to the Ace.
pub open spec fn full_deck() -> Seq<Card> {
    suit_run(Suit::Clubs) + suit_run(Suit::Hearts) + suit_run(Suit::Diamonds) + suit_run(
        Suit::Spades,
    )
}

/// The fresh deck holds each of the 52 valid cards exactly once, and nothing else.
pub proof fn lemma_full_deck()
    ensures
        full_deck().len() == 52,
        full_deck().no_duplicates(),
        forall|c: Card| #[trigger] full_deck().contains(c) <==> c.is_valid(),
{
    let d = full_deck();
    assert forall|i: int, j: int| 0 <= i < d.len() && 0 <= j < d.len() && i != j implies d[i]
        != d[j] by {
        assert(d[i].suit == d[j].suit ==> (i / 13 == j / 13));
    }
    assert forall|c: Card| #[trigger] d.contains(c) <==> c.is_valid() by {
        if c.is_valid() {
            let base: int = match c.suit {
                Suit::Clubs => 0,
                Suit::Hearts => 13,
                Suit::Diamonds => 26,
                Suit::Spades => 39,
            };
            assert(d[base + c.rank - 2] == c);
        }
        if d.contains(c) {
            let k = choose|k: int| 0 <= k < d.len() && d[k] == c;
            assert(d[k].is_valid());
        }
    }
}

/// Relies on rand's `SliceRandom::shuffle`, driven by `rand::thread_rng`: it
/// only swaps elements, so the result is a reordering of the input.
#[verifier::external_body]
fn shuffle_cards(cards: &mut Vec<Card>)
    ensures
        final(cards)@.to_multiset() == old(cards)@.to_multiset(),
{
    cards.shuffle(&mut rand::thread_rng());
}

/// A pool of cards to deal from.
pub struct Deck {
    cards: Vec<Card>,
}

impl View for Deck {
    type V = Seq<Card>;

    closed spec fn view(&self) -> Seq<Card> {
        self.cards@
    }
}

fn push_suit(cards: &mut Vec<Card>, suit: Suit)
    ensures
        final(cards)@ == old(cards)@ + suit_run(suit),
{
    let ghost start = cards@;
    let mut rank: u8 = 2;
    while rank <= 14
        invariant
            2 <= rank <= 15,
            cards@ =~= start + suit_run(suit).take(rank - 2),
        decreases 15 - rank,
    {
        cards.push(Card { rank, suit });
        rank = rank + 1;
    }
    assert(suit_run(suit).take(13) =~= suit_run(suit));
}

impl Deck {
    /// A fresh deck in its fresh order.
    pub fn new() -> (d: Deck)
        ensures
            d@ == full_deck(),
    {
        let mut cards: Vec<Card> = Vec::new();
        push_suit(&mut cards, Suit::Clubs);
        push_suit(&mut cards, Suit::Hearts);
        push_suit(&mut cards, Suit::Diamonds);
        push_suit(&mut cards, Suit::Spades);
        assert(cards@ =~= full_deck());
        Deck { cards }
    }

    /// A deck holding `cards`, in that order.
    pub fn from_cards(cards: Vec<Card>) -> (d: Deck)
        ensures
            d@ == cards@,
    {
        Deck { cards }
    }

    /// The cards of the deck, in order.
    pub fn into_cards(self) -> (r: Vec<Card>)
        ensures
            r@ == self@,
    {
        self.cards
    }

    /// How many cards are left.
    pub fn len(&self) -> (n: usize)
        ensures
            n == self@.len(),
    {
        self.cards.len()
    }

    /// Puts the cards in a random order.
    pub fn shuffle(&mut self)
        ensures
            final(self)@.to_multiset() == old(self)@.to_multiset(),
    {
        shuffle_cards(&mut self.cards);
    }

    /// The card at position `n`.
    pub fn draw_nth(&self, n: usize) -> (c: &Card)
        requires
            n < self@.len(),
        ensures
            *c == self@[n as int],
    {
        &self.cards[n]
    }

    /// Takes the first copy of `card` out of the deck.
    pub fn remove(&mut self, card: Card) -> (r: Result<Card, DeckError>)
        ensures
            r is Err <==> !old(self)@.contains(card),
            r is Err ==> r == Err::<Card, DeckError>(DeckError::CardNotFound) && final(self)@
                == old(self)@,
            r is Ok ==> r == Ok::<Card, DeckError>(card) && exists|i: int|
                0 <= i < old(self)@.len() && old(self)@[i] == card && (forall|k: int|
                    0 <= k < i ==> old(self)@[k] != card) && final(self)@ == old(self)@.remove(i),
    {
        let mut i: usize = 0;
        while i < self.cards.len()
            invariant
                0 <= i <= self.cards@.len(),
                self.cards@ == old(self).cards@,
                forall|k: int| 0 <= k < i ==> self.cards@[k] != card,
            decreases self.cards@.len() - i,
        {
            if self.cards[i] == card {
                let c = self.cards.remove(i);
                assert(old(self)@[i as int] == card);
                return Ok(c);
            }
            i = i + 1;
        }
        assert(!old(self)@.contains(card));
        Err(DeckError::CardNotFound)
    }

    /// Takes the first card off the deck.
    pub fn draw(&mut self) -> (r: Result<Card, DeckError>)
        ensures
            r is Err <==> old(self)@.len() == 0,
            r is Err ==> r == Err::<Card, DeckError>(DeckError::Empty) && final(self)@ == old(
                self,
            )@,
            r is Ok ==> r == Ok::<Card, DeckError>(old(self)@[0]) && final(self)@ == old(
                self,
            )@.drop_first(),
    {
        if self.cards.len() == 0 {
            return Err(DeckError::Empty);
        }
        let c = self.cards.remove(0);
        assert(self.cards@ =~= old(self)@.drop_first());
        Ok(c)
    }
}

} // verus!
