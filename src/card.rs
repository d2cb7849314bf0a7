//! Playing cards: ranks, suits and their two-character text form.
use vstd::prelude::*;
use vstd::string::*;

verus! {

/// The four suits of a standard deck.
#[derive(Debug, Clone, Copy, PartialEq, Eq, Structural, Hash)]
pub enum Suit {
    Clubs,
    Hearts,
    Diamonds,
    Spades,
}

/// A playing card. Ranks run from 2 to 14, where 14 is the Ace.
#[derive(Debug, Clone, Copy, PartialEq, Eq, Structural, Hash)]
pub struct Card {
    pub rank: u8,
    pub suit: Suit,
}

/// Why a card token could not be read.
#[derive(Debug, Clone, Copy, PartialEq, Eq, Structural)]
pub enum CardError {
    /// A good rank and suit are followed by more characters.
    InvalidLength,
    /// The first character names no rank, or there is none.
    InvalidRank,
    /// The second character names no suit, or there is none.
    InvalidSuit,
}

impl Card {
    /// A card whose rank lies in 2..=14.
    pub open spec fn is_valid(self) -> bool {
        2 <= self.rank <= 14
    }
}

/// The character that stands for a rank in the text form.
pub open spec fn rank_char(rank: int) -> char {
    if rank == 2 {
        '2'
    } else if rank == 3 {
        '3'
    } else if rank == 4 {
        '4'
    } else if rank == 5 {
        '5'
    } else if rank == 6 {
        '6'
    } else if rank == 7 {
        '7'
    } else if rank == 8 {
        '8'
    } else if rank == 9 {
        '9'
    } else if rank == 10 {
        'T'
    } else if rank == 11 {
        'J'
    } else if rank == 12 {
        'Q'
    } else if rank == 13 {
        'K'
    } else {
        'A'
    }
}

/// The rank that a character stands for, if any.
pub open spec fn rank_of_char(c: char) -> Option<u8> {
    if c == '2' {
        Some(2u8)
    } else if c == '3' {
        Some(3u8)
    } else if c == '4' {
        Some(4u8)
    } else if c == '5' {
        Some(5u8)
    } else if c == '6' {
        Some(6u8)
    } else if c == '7' {
        Some(7u8)
    } else if c == '8' {
        Some(8u8)
    } else if c == '9' {
        Some(9u8)
    } else if c == 'T' {
        Some(10u8)
    } else if c == 'J' {
        Some(11u8)
    } else if c == 'Q' {
        Some(12u8)
    } else if c == 'K' {
        Some(13u8)
    } else if c == 'A' {
        Some(14u8)
    } else {
        None
    }
}

/// The character that stands for a suit in the text form.
pub open spec fn suit_char(suit: Suit) -> char {
    match suit {
        Suit::Clubs => 'c',
        Suit::Hearts => 'h',
        Suit::Diamonds => 'd',
        Suit::Spades => 's',
    }
}

/// The suit that a character stands for, if any.
pub open spec fn suit_of_char(c: char) -> Option<Suit> {
    if c == 'c' {
        Some(Suit::Clubs)
    } else if c == 'h' {
        Some(Suit::Hearts)
    } else if c == 'd' {
        Some(Suit::Diamonds)
    } else if c == 's' {
        Some(Suit::Spades)
    } else {
        None
    }
}

/// The name that a suit is printed with; Spades print as "spaces".
pub open spec fn suit_name(suit: Suit) -> Seq<char> {
    match suit {
        Suit::Clubs => seq!['c', 'l', 'u', 'b', 's'],
        Suit::Hearts => seq!['h', 'e', 'a', 'r', 't', 's'],
        Suit::Diamonds => seq!['d', 'i', 'a', 'm', 'o', 'n', 'd', 's'],
        Suit::Spades => seq!['s', 'p', 'a', 'c', 'e', 's'],
    }
}

/// The two-character text of a card: its rank character, then its suit character.
pub open spec fn card_text(c: Card) -> Seq<char> {
    seq![rank_char(c.rank as int), suit_char(c.suit)]
}

/// What reading a token gives: a card, or the first thing wrong with the token.
pub open spec fn parse_card(s: Seq<char>) -> Result<Card, CardError> {
    if s.len() == 0 || rank_of_char(s[0]).is_none() {
        Err(CardError::InvalidRank)
    } else if s.len() == 1 || suit_of_char(s[1]).is_none() {
        Err(CardError::InvalidSuit)
    } else if s.len() > 2 {
        Err(CardError::InvalidLength)
    } else {
        Ok(Card { rank: rank_of_char(s[0]).unwrap(), suit: suit_of_char(s[1]).unwrap() })
    }
}

/// Writing a valid card and reading the text back gives the same card.
pub proof fn lemma_format_then_parse(c: Card)
    requires
        c.is_valid(),
    ensures
        parse_card(card_text(c)) == Ok::<Card, CardError>(c),
{
}

/// Reading a well-formed token and writing the card back gives the same text.
pub proof fn lemma_parse_then_format(s: Seq<char>)
    requires
        parse_card(s).is_ok(),
    ensures
        parse_card(s).unwrap().is_valid(),
        card_text(parse_card(s).unwrap()) =~= s,
{
}

fn rank_from_char(c: char) -> (r: Option<u8>)
    ensures
        r == rank_of_char(c),
{
    match c {
        '2' => Some(2),
        '3' => Some(3),
        '4' => Some(4),
        '5' => Some(5),
        '6' => Some(6),
        '7' => Some(7),
        '8' => Some(8),
        '9' => Some(9),
        'T' => Some(10),
        'J' => Some(11),
        'Q' => Some(12),
        'K' => Some(13),
        'A' => Some(14),
        _ => None,
    }
}

fn suit_from_char(c: char) -> (r: Option<Suit>)
    ensures
        r == suit_of_char(c),
{
    match c {
        'c' => Some(Suit::Clubs),
        'h' => Some(Suit::Hearts),
        'd' => Some(Suit::Diamonds),
        's' => Some(Suit::Spades),
        _ => None,
    }
}

impl Card {
    /// Reads a card from its two-character token, such as `"Kd"` or `"Th"`.
    pub fn from_str(s: &str) -> (r: Result<Card, CardError>)
        ensures
            r == parse_card(s@),
            r.is_ok() ==> r.unwrap().is_valid(),
    {
        let len = s.unicode_len();
        if len == 0 {
            return Err(CardError::InvalidRank);
        }
        let rank = match rank_from_char(s.get_char(0)) {
            Some(rank) => rank,
            None => {
                return Err(CardError::InvalidRank);
            },
        };
        if len == 1 {
            return Err(CardError::InvalidSuit);
        }
        let suit = match suit_from_char(s.get_char(1)) {
            Some(suit) => suit,
            None => {
                return Err(CardError::InvalidSuit);
            },
        };
        if len > 2 {
            return Err(CardError::InvalidLength);
        }
        Ok(Card { rank, suit })
    }

    /// The rank character of this card, as a one-character string.
    pub fn rank_as_string(&self) -> (r: String)
        requires
            self.is_valid(),
        ensures
            r@ == seq![rank_char(self.rank as int)],
    {
        let text: &str = match self.rank {
            2 => "2",
            3 => "3",
            4 => "4",
            5 => "5",
            6 => "6",
            7 => "7",
            8 => "8",
            9 => "9",
            10 => "T",
            11 => "J",
            12 => "Q",
            13 => "K",
            _ => "A",
        };
        proof {
            reveal_strlit("2");
            reveal_strlit("3");
            reveal_strlit("4");
            reveal_strlit("5");
            reveal_strlit("6");
            reveal_strlit("7");
            reveal_strlit("8");
            reveal_strlit("9");
            reveal_strlit("T");
            reveal_strlit("J");
            reveal_strlit("Q");
            reveal_strlit("K");
            reveal_strlit("A");
        }
        String::from_str(text)
    }

    /// The name that this card's suit is printed with; Spades print as "spaces".
    pub fn suit_as_string(&self) -> (r: &'static str)
        ensures
            r@ == suit_name(self.suit),
    {
        proof {
            reveal_strlit("clubs");
            reveal_strlit("hearts");
            reveal_strlit("diamonds");
            reveal_strlit("spaces");
        }
        match self.suit {
            Suit::Clubs => "clubs",
            Suit::Hearts => "hearts",
            Suit::Diamonds => "diamonds",
            Suit::Spades => "spaces",
        }
    }

    /// The suit character of this card, as a one-character string.
    pub fn suit_as_char(&self) -> (r: &'static str)
        ensures
            r@ == seq![suit_char(self.suit)],
    {
        proof {
            reveal_strlit("c");
            reveal_strlit("h");
            reveal_strlit("d");
            reveal_strlit("s");
        }
        match self.suit {
            Suit::Clubs => "c",
            Suit::Hearts => "h",
            Suit::Diamonds => "d",
            Suit::Spades => "s",
        }
    }

    /// The two-character token of this card, such as `"Kd"`.
    pub fn to_string(&self) -> (r: String)
        requires
            self.is_valid(),
        ensures
            r@ == card_text(*self),
    {
        let text = self.rank_as_string();
        let r = text.concat(self.suit_as_char());
        assert(r@ =~= card_text(*self));
        r
    }
}

} // verus!
