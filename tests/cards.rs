use poker::card::{Card, CardError, Suit};

#[test]
fn parse_reads_rank_and_suit() {
    assert_eq!(Card::from_str("Kd"), Ok(Card { rank: 13, suit: Suit::Diamonds }));
    assert_eq!(Card::from_str("Th"), Ok(Card { rank: 10, suit: Suit::Hearts }));
    assert_eq!(Card::from_str("2c"), Ok(Card { rank: 2, suit: Suit::Clubs }));
    assert_eq!(Card::from_str("As"), Ok(Card { rank: 14, suit: Suit::Spades }));
}

#[test]
fn parse_rejects_unknown_rank() {
    assert_eq!(Card::from_str("1h"), Err(CardError::InvalidRank));
    assert_eq!(Card::from_str("xh"), Err(CardError::InvalidRank));
    assert_eq!(Card::from_str("kh"), Err(CardError::InvalidRank));
}

#[test]
fn parse_rejects_unknown_suit() {
    assert_eq!(Card::from_str("Kx"), Err(CardError::InvalidSuit));
    assert_eq!(Card::from_str("KD"), Err(CardError::InvalidSuit));
}

#[test]
fn parse_reports_the_first_problem() {
    assert_eq!(Card::from_str(""), Err(CardError::InvalidRank));
    assert_eq!(Card::from_str("K"), Err(CardError::InvalidSuit));
    assert_eq!(Card::from_str("10h"), Err(CardError::InvalidRank));
    assert_eq!(Card::from_str("KxY"), Err(CardError::InvalidSuit));
    assert_eq!(Card::from_str("Xcd"), Err(CardError::InvalidRank));
    assert_eq!(Card::from_str("Kdd"), Err(CardError::InvalidLength));
}

#[test]
fn format_writes_two_characters() {
    let c = Card { rank: 10, suit: Suit::Hearts };
    assert_eq!(c.to_string(), "Th");
    assert_eq!(c.rank_as_string(), "T");
    assert_eq!(c.suit_as_char(), "h");
    assert_eq!(c.suit_as_string(), "hearts");
    assert_eq!(Card { rank: 7, suit: Suit::Spades }.to_string(), "7s");
    assert_eq!(Card { rank: 2, suit: Suit::Spades }.suit_as_string(), "spaces");
    assert_eq!(Card { rank: 2, suit: Suit::Clubs }.suit_as_string(), "clubs");
    assert_eq!(Card { rank: 2, suit: Suit::Diamonds }.suit_as_string(), "diamonds");
}

#[test]
fn round_trip_every_card_and_token() {
    let suits = [Suit::Clubs, Suit::Hearts, Suit::Diamonds, Suit::Spades];
    for suit in suits {
        for rank in 2u8..=14 {
            let c = Card { rank, suit };
            let text = c.to_string();
            assert_eq!(text.chars().count(), 2);
            assert_eq!(Card::from_str(&text), Ok(c));
        }
    }
    for r in "23456789TJQKA".chars() {
        for s in "chds".chars() {
            let token: String = [r, s].iter().collect();
            let c = Card::from_str(&token).unwrap();
            assert_eq!(c.to_string(), token);
        }
    }
}
