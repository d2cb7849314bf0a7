use poker::card::{Card, Suit};
use poker::deck::{Deck, DeckError};

#[test]
fn fresh_deck_holds_fifty_two_in_order() {
    let d = Deck::new();
    assert_eq!(d.len(), 52);
    assert_eq!(*d.draw_nth(0), Card { rank: 2, suit: Suit::Clubs });
    assert_eq!(*d.draw_nth(12), Card { rank: 14, suit: Suit::Clubs });
    assert_eq!(*d.draw_nth(13), Card { rank: 2, suit: Suit::Hearts });
    assert_eq!(*d.draw_nth(51), Card { rank: 14, suit: Suit::Spades });
    for i in 0..52 {
        for j in (i + 1)..52 {
            assert_ne!(d.draw_nth(i), d.draw_nth(j));
        }
    }
}

#[test]
fn remove_takes_a_card_once() {
    let mut d = Deck::new();
    let qs = Card { rank: 12, suit: Suit::Spades };
    assert_eq!(d.remove(qs), Ok(qs));
    assert_eq!(d.len(), 51);
    assert_eq!(d.remove(qs), Err(DeckError::CardNotFound));
    assert_eq!(d.len(), 51);
    assert_eq!(d.remove(Card { rank: 1, suit: Suit::Spades }), Err(DeckError::CardNotFound));
}

#[test]
fn draw_takes_from_the_front_until_empty() {
    let mut d = Deck::new();
    assert_eq!(d.draw(), Ok(Card { rank: 2, suit: Suit::Clubs }));
    assert_eq!(d.draw(), Ok(Card { rank: 3, suit: Suit::Clubs }));
    for _ in 0..50 {
        assert!(d.draw().is_ok());
    }
    assert_eq!(d.len(), 0);
    assert_eq!(d.draw(), Err(DeckError::Empty));
}

#[test]
fn shuffle_reorders_the_same_cards() {
    let mut d = Deck::new();
    d.shuffle();
    assert_eq!(d.len(), 52);
    let fresh = Deck::new();
    let mut moved = 0;
    for i in 0..52 {
        if d.draw_nth(i) != fresh.draw_nth(i) {
            moved += 1;
        }
        let mut found = 0;
        for j in 0..52 {
            if d.draw_nth(j) == fresh.draw_nth(i) {
                found += 1;
            }
        }
        assert_eq!(found, 1);
    }
    assert!(moved > 0);
}
