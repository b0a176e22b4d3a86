//! Suits, ranks and concrete playing cards: order, text form and baccarat points.

use std::str::FromStr;

use vstd::prelude::*;

use crate::text;

verus! {

/// A card suit. The order of the variants is the order used by `index`.
#[derive(Debug, Clone, Copy, PartialEq, Eq, Hash, Structural)]
pub enum Suit {
    Clubs,
    Diamonds,
    Hearts,
    Spades,
}

/// The suit that a one-character text names, in either case.
pub open spec fn suit_named(s: Seq<char>) -> Option<Suit> {
    if s.len() != 1 {
        None
    } else if text::ascii_upper(s[0]) == 'C' {
        Some(Suit::Clubs)
    } else if text::ascii_upper(s[0]) == 'D' {
        Some(Suit::Diamonds)
    } else if text::ascii_upper(s[0]) == 'H' {
        Some(Suit::Hearts)
    } else if text::ascii_upper(s[0]) == 'S' {
        Some(Suit::Spades)
    } else {
        None
    }
}

impl Suit {
    /// Every suit of a deck, in index order.
    pub const ALL: [Suit; 4] = [Suit::Clubs, Suit::Diamonds, Suit::Hearts, Suit::Spades];

    /// The position of the suit, from 0 to 3.
    pub open spec fn number(self) -> int {
        match self {
            Suit::Clubs => 0,
            Suit::Diamonds => 1,
            Suit::Hearts => 2,
            Suit::Spades => 3,
        }
    }

    /// The letter that stands for the suit.
    pub open spec fn letter(self) -> char {
        match self {
            Suit::Clubs => 'C',
            Suit::Diamonds => 'D',
            Suit::Hearts => 'H',
            Suit::Spades => 'S',
        }
    }

    /// Stable zero-based position of the suit in a flat counter array.
    pub fn index(self) -> (index: usize)
        ensures
            index == self.number(),
            index < 4,
    {
        match self {
            Suit::Clubs => 0,
            Suit::Diamonds => 1,
            Suit::Hearts => 2,
            Suit::Spades => 3,
        }
    }

    /// The ASCII suit letter of notations such as `AS` and `10H`.
    pub fn ascii_code(self) -> (code: char)
        ensures
            code == self.letter(),
    {
        match self {
            Suit::Clubs => 'C',
            Suit::Diamonds => 'D',
            Suit::Hearts => 'H',
            Suit::Spades => 'S',
        }
    }

    /// The one-letter text of the suit.
    pub fn to_string(&self) -> (result: String)
        ensures
            result@ == seq![self.letter()],
    {
        let mut result: String = String::new();
        result.push(self.ascii_code());
        assert(result@ == seq![self.letter()]);
        result
    }

    /// Reads a suit letter, ignoring case and surrounding white space.
    pub fn parse(input: &str) -> (result: Result<Suit, CardParseError>)
        ensures
            match suit_named(text::trim(input@)) {
                Some(suit) => result == Ok::<Suit, CardParseError>(suit),
                None => result matches Err(CardParseError::InvalidSuit(shown)) && shown@
                    == text::trim(input@),
            },
    {
        Suit::read(&text::chars_of(input))
    }

    fn read(input: &Vec<char>) -> (result: Result<Suit, CardParseError>)
        ensures
            match suit_named(text::trim(input@)) {
                Some(suit) => result == Ok::<Suit, CardParseError>(suit),
                None => result matches Err(CardParseError::InvalidSuit(shown)) && shown@
                    == text::trim(input@),
            },
    {
        let input: Vec<char> = text::trimmed(input);
        if input.len() == 1 {
            let c: char = text::to_ascii_upper(input[0]);
            if c == 'C' {
                return Ok(Suit::Clubs);
            }
            if c == 'D' {
                return Ok(Suit::Diamonds);
            }
            if c == 'H' {
                return Ok(Suit::Hearts);
            }
            if c == 'S' {
                return Ok(Suit::Spades);
            }
        }
        let shown: String = text::text_of(&input, 0, input.len());
        assert(shown@ == input@);
        Err(CardParseError::InvalidSuit(shown))
    }
}

impl FromStr for Suit {
    type Err = CardParseError;

    /// Reads a suit as `parse` does.
    fn from_str(input: &str) -> (result: Result<Suit, CardParseError>)
        ensures
            match suit_named(text::trim(input@)) {
                Some(suit) => result == Ok::<Suit, CardParseError>(suit),
                None => result matches Err(CardParseError::InvalidSuit(shown)) && shown@
                    == text::trim(input@),
            },
    {
        Suit::parse(input)
    }
}

/// A card rank. The order of the variants is the order used by `index`.
#[derive(Debug, Clone, Copy, PartialEq, Eq, Hash, Structural)]
pub enum Rank {
    Ace,
    Two,
    Three,
    Four,
    Five,
    Six,
    Seven,
    Eight,
    Nine,
    Ten,
    Jack,
    Queen,
    King,
}

/// The rank that a text names: `A`, `2` to `9`, `10` or `T`, `J`, `Q`, `K`, letters in
/// either case.
pub open spec fn rank_named(s: Seq<char>) -> Option<Rank> {
    if s.len() == 2 && s[0] == '1' && s[1] == '0' {
        Some(Rank::Ten)
    } else if s.len() != 1 {
        None
    } else if text::ascii_upper(s[0]) == 'A' {
        Some(Rank::Ace)
    } else if s[0] == '2' {
        Some(Rank::Two)
    } else if s[0] == '3' {
        Some(Rank::Three)
    } else if s[0] == '4' {
        Some(Rank::Four)
    } else if s[0] == '5' {
        Some(Rank::Five)
    } else if s[0] == '6' {
        Some(Rank::Six)
    } else if s[0] == '7' {
        Some(Rank::Seven)
    } else if s[0] == '8' {
        Some(Rank::Eight)
    } else if s[0] == '9' {
        Some(Rank::Nine)
    } else if text::ascii_upper(s[0]) == 'T' {
        Some(Rank::Ten)
    } else if text::ascii_upper(s[0]) == 'J' {
        Some(Rank::Jack)
    } else if text::ascii_upper(s[0]) == 'Q' {
        Some(Rank::Queen)
    } else if text::ascii_upper(s[0]) == 'K' {
        Some(Rank::King)
    } else {
        None
    }
}

impl Rank {
    /// The number of ranks.
    pub const DISTINCT_COUNT: usize = 13;

    /// Every rank of a suit, in index order.
    pub const ALL: [Rank; 13] = [
        Rank::Ace,
        Rank::Two,
        Rank::Three,
        Rank::Four,
        Rank::Five,
        Rank::Six,
        Rank::Seven,
        Rank::Eight,
        Rank::Nine,
        Rank::Ten,
        Rank::Jack,
        Rank::Queen,
        Rank::King,
    ];

    /// The position of the rank, from 0 to 12.
    pub open spec fn number(self) -> int {
        match self {
            Rank::Ace => 0,
            Rank::Two => 1,
            Rank::Three => 2,
            Rank::Four => 3,
            Rank::Five => 4,
            Rank::Six => 5,
            Rank::Seven => 6,
            Rank::Eight => 7,
            Rank::Nine => 8,
            Rank::Ten => 9,
            Rank::Jack => 10,
            Rank::Queen => 11,
            Rank::King => 12,
        }
    }

    /// The baccarat points of a rank position: its pip count, and nothing from ten on.
    pub open spec fn points_at(number: int) -> int {
        if number < 9 {
            number + 1
        } else {
            0
        }
    }

    /// The baccarat points of the rank.
    pub open spec fn points(self) -> int {
        Rank::points_at(self.number())
    }

    /// The short text of the rank.
    pub open spec fn name(self) -> Seq<char> {
        match self {
            Rank::Ace => seq!['A'],
            Rank::Two => seq!['2'],
            Rank::Three => seq!['3'],
            Rank::Four => seq!['4'],
            Rank::Five => seq!['5'],
            Rank::Six => seq!['6'],
            Rank::Seven => seq!['7'],
            Rank::Eight => seq!['8'],
            Rank::Nine => seq!['9'],
            Rank::Ten => seq!['1', '0'],
            Rank::Jack => seq!['J'],
            Rank::Queen => seq!['Q'],
            Rank::King => seq!['K'],
        }
    }

    /// Stable zero-based position of the rank in a flat counter array.
    pub fn index(self) -> (index: usize)
        ensures
            index == self.number(),
            index < 13,
    {
        match self {
            Rank::Ace => 0,
            Rank::Two => 1,
            Rank::Three => 2,
            Rank::Four => 3,
            Rank::Five => 4,
            Rank::Six => 5,
            Rank::Seven => 6,
            Rank::Eight => 7,
            Rank::Nine => 8,
            Rank::Ten => 9,
            Rank::Jack => 10,
            Rank::Queen => 11,
            Rank::King => 12,
        }
    }

    /// The short text of the rank: `A`, `2` to `10`, `J`, `Q`, `K`.
    pub fn short_name(self) -> (name: &'static str)
        ensures
            name@ == self.name(),
    {
        proof {
            reveal_strlit("A");
            reveal_strlit("2");
            reveal_strlit("3");
            reveal_strlit("4");
            reveal_strlit("5");
            reveal_strlit("6");
            reveal_strlit("7");
            reveal_strlit("8");
            reveal_strlit("9");
            reveal_strlit("10");
            reveal_strlit("J");
            reveal_strlit("Q");
            reveal_strlit("K");
        }
        match self {
            Rank::Ace => "A",
            Rank::Two => "2",
            Rank::Three => "3",
            Rank::Four => "4",
            Rank::Five => "5",
            Rank::Six => "6",
            Rank::Seven => "7",
            Rank::Eight => "8",
            Rank::Nine => "9",
            Rank::Ten => "10",
            Rank::Jack => "J",
            Rank::Queen => "Q",
            Rank::King => "K",
        }
    }

    /// The baccarat points of the rank.
    pub fn baccarat_value(self) -> (value: u8)
        ensures
            value == self.points(),
            value < 10,
    {
        let number: usize = self.index();
        if number < 9 {
            number as u8 + 1
        } else {
            0
        }
    }

    /// The short text of the rank.
    pub fn to_string(&self) -> (result: String)
        ensures
            result@ == self.name(),
    {
        self.short_name().to_owned()
    }

    /// Reads a rank, ignoring case and surrounding white space; ten is `10` or `T`.
    pub fn parse(input: &str) -> (result: Result<Rank, CardParseError>)
        ensures
            match rank_named(text::trim(input@)) {
                Some(rank) => result == Ok::<Rank, CardParseError>(rank),
                None => result matches Err(CardParseError::InvalidRank(shown)) && shown@
                    == text::trim(input@),
            },
    {
        Rank::read(&text::chars_of(input))
    }

    fn read(input: &Vec<char>) -> (result: Result<Rank, CardParseError>)
        ensures
            match rank_named(text::trim(input@)) {
                Some(rank) => result == Ok::<Rank, CardParseError>(rank),
                None => result matches Err(CardParseError::InvalidRank(shown)) && shown@
                    == text::trim(input@),
            },
    {
        let input: Vec<char> = text::trimmed(input);
        if input.len() == 2 && input[0] == '1' && input[1] == '0' {
            return Ok(Rank::Ten);
        }
        if input.len() == 1 {
            let c: char = input[0];
            let letter: char = text::to_ascii_upper(c);
            if letter == 'A' {
                return Ok(Rank::Ace);
            }
            if letter == 'J' {
                return Ok(Rank::Jack);
            }
            if letter == 'Q' {
                return Ok(Rank::Queen);
            }
            if letter == 'K' {
                return Ok(Rank::King);
            }
            if letter == 'T' {
                return Ok(Rank::Ten);
            }
            if '2' <= c && c <= '9' {
                return Ok(Rank::ALL[(c as u8 - 49) as usize]);
            }
        }
        let shown: String = text::text_of(&input, 0, input.len());
        assert(shown@ == input@);
        Err(CardParseError::InvalidRank(shown))
    }
}

impl FromStr for Rank {
    type Err = CardParseError;

    /// Reads a rank as `parse` does.
    fn from_str(input: &str) -> (result: Result<Rank, CardParseError>)
        ensures
            match rank_named(text::trim(input@)) {
                Some(rank) => result == Ok::<Rank, CardParseError>(rank),
                None => result matches Err(CardParseError::InvalidRank(shown)) && shown@
                    == text::trim(input@),
            },
    {
        Rank::parse(input)
    }
}

/// One concrete playing card.
#[derive(Debug, Clone, Copy, PartialEq, Eq, Hash, Structural)]
pub struct Card {
    pub rank: Rank,
    pub suit: Suit,
}

/// The card at a flat position from 0 to 51.
pub open spec fn card_at(position: int) -> Card {
    Card { rank: Rank::ALL@[position / 4], suit: Suit::ALL@[position % 4] }
}

/// What reading a card text gives.
pub enum CardReading {
    Card(Card),
    Empty,
    InvalidFormat(Seq<char>),
    InvalidRank(Seq<char>),
    InvalidSuit(Seq<char>),
}

/// The reading of a card text: trimmed, its last character names the suit and what stands
/// before it names the rank. The rank is judged before the suit.
pub open spec fn card_reading(input: Seq<char>) -> CardReading {
    let s = text::trim(input);
    if s.len() == 0 {
        CardReading::Empty
    } else if s.len() == 1 {
        CardReading::InvalidFormat(s)
    } else {
        let rank_text = text::trim(s.drop_last());
        let suit_text = text::trim(seq![s.last()]);
        match (rank_named(rank_text), suit_named(suit_text)) {
            (None, _) => CardReading::InvalidRank(rank_text),
            (Some(_), None) => CardReading::InvalidSuit(suit_text),
            (Some(rank), Some(suit)) => CardReading::Card(Card { rank, suit }),
        }
    }
}

impl Card {
    /// The number of different cards in a deck.
    pub const DISTINCT_COUNT: usize = 52;

    /// The flat position of the card, ranks first, from 0 to 51.
    pub open spec fn number(self) -> int {
        self.rank.number() * 4 + self.suit.number()
    }

    /// The baccarat points of the card.
    pub open spec fn points(self) -> int {
        self.rank.points()
    }

    /// The text of the card, such as `AS` or `10H`.
    pub open spec fn name(self) -> Seq<char> {
        self.rank.name().push(self.suit.letter())
    }

    /// A card from its rank and suit.
    pub fn new(rank: Rank, suit: Suit) -> (card: Card)
        ensures
            card == (Card { rank, suit }),
    {
        Card { rank, suit }
    }

    /// The rank of the card.
    pub fn rank(self) -> (rank: Rank)
        ensures
            rank == self.rank,
    {
        self.rank
    }

    /// The suit of the card.
    pub fn suit(self) -> (suit: Suit)
        ensures
            suit == self.suit,
    {
        self.suit
    }

    /// Flat position, `rank * 4 + suit`.
    pub fn index(self) -> (index: usize)
        ensures
            index == self.number(),
            index < 52,
    {
        self.rank.index() * 4 + self.suit.index()
    }

    /// The card at a flat position.
    pub fn from_index(index: usize) -> (card: Card)
        requires
            index < 52,
        ensures
            card == card_at(index as int),
            card.number() == index,
    {
        let card: Card = Card { rank: Rank::ALL[index / 4], suit: Suit::ALL[index % 4] };
        proof {
            lemma_card_numbers_are_positions(index as int);
        }
        card
    }

    /// The baccarat points of the card.
    pub fn baccarat_value(self) -> (value: u8)
        ensures
            value == self.points(),
            value < 10,
    {
        self.rank.baccarat_value()
    }

    /// The text of the card, such as `AS` or `10H`.
    pub fn to_string(&self) -> (result: String)
        ensures
            result@ == self.name(),
    {
        let mut result: String = self.rank.to_string();
        result.push(self.suit.ascii_code());
        result
    }

    /// Reads a card made of a rank and a one-letter suit.
    pub fn parse(input: &str) -> (result: Result<Card, CardParseError>)
        ensures
            match (card_reading(input@), result) {
                (CardReading::Card(card), Ok(read)) => card == read,
                (_, Err(error)) => error.reading() == card_reading(input@),
                _ => false,
            },
    {
        let chars: Vec<char> = text::trimmed(&text::chars_of(input));
        let length: usize = chars.len();
        if length == 0 {
            return Err(CardParseError::Empty);
        }
        if length == 1 {
            let shown: String = text::text_of(&chars, 0, 1);
            assert(shown@ == chars@);
            return Err(CardParseError::InvalidFormat(shown));
        }
        let rank_text: Vec<char> = text::part_of(&chars, 0, length - 1);
        let suit_text: Vec<char> = text::part_of(&chars, length - 1, length);
        assert(rank_text@ == chars@.drop_last());
        assert(suit_text@ == seq![chars@.last()]);
        let rank: Rank = match Rank::read(&rank_text) {
            Ok(rank) => rank,
            Err(error) => {
                return Err(error);
            },
        };
        let suit: Suit = match Suit::read(&suit_text) {
            Ok(suit) => suit,
            Err(error) => {
                return Err(error);
            },
        };
        Ok(Card { rank, suit })
    }
}

impl FromStr for Card {
    type Err = CardParseError;

    /// Reads a card as `parse` does.
    fn from_str(input: &str) -> (result: Result<Card, CardParseError>)
        ensures
            match (card_reading(input@), result) {
                (CardReading::Card(card), Ok(read)) => card == read,
                (_, Err(error)) => error.reading() == card_reading(input@),
                _ => false,
            },
    {
        Card::parse(input)
    }
}

/// Positions and cards name each other: every card has its own position from 0 to 51, and
/// every such position is that of one card.
pub proof fn lemma_card_numbers_are_positions(position: int)
    requires
        0 <= position < 52,
    ensures
        card_at(position).number() == position,
        card_at(position).rank.number() == position / 4,
        card_at(position).suit.number() == position % 4,
        forall|card: Card| #[trigger] card.number() == position ==> card == card_at(position),
        forall|card: Card| 0 <= #[trigger] card.number() < 52 && card_at(card.number()) == card,
{
    assert forall|card: Card| 0 <= #[trigger] card.number() < 52 && card_at(card.number())
        == card by {
        assert(card.number() / 4 == card.rank.number());
        assert(card.number() % 4 == card.suit.number());
        assert(Rank::ALL@[card.rank.number()] == card.rank);
        assert(Suit::ALL@[card.suit.number()] == card.suit);
    }
    let rank = position / 4;
    assert(0 <= rank < 13);
    assert(Rank::ALL@[rank].number() == rank);
    assert(Suit::ALL@[position % 4].number() == position % 4);
}

/// Reading the text of a card gives the card back.
pub proof fn lemma_card_text_round_trip(card: Card)
    ensures
        card_reading(card.name()) == CardReading::Card(card),
{
    let s = card.name();
    text::lemma_trim_unchanged(s);
    assert(s.drop_last() == card.rank.name());
    text::lemma_trim_unchanged(card.rank.name());
    text::lemma_trim_unchanged(seq![s.last()]);
    assert(rank_named(card.rank.name()) == Some(card.rank));
    assert(suit_named(seq![s.last()]) == Some(card.suit));
}

/// The text of a card reads back in either case and with white space around it.
pub proof fn lemma_card_text_in_any_form(
    card: Card,
    before: Seq<char>,
    written: Seq<char>,
    after: Seq<char>,
)
    requires
        text::is_blank(before),
        text::is_blank(after),
        written.len() == card.name().len(),
        forall|i: int|
            0 <= i < written.len() ==> text::ascii_upper(#[trigger] written[i]) == card.name()[i],
    ensures
        card_reading(before + written + after) == CardReading::Card(card),
{
    let name = card.name();
    let last = written.last();
    let rank_text = written.drop_last();
    assert(text::ascii_upper(written[0]) == name[0]);
    assert(text::ascii_upper(last) == card.suit.letter());
    assert(name.drop_last() =~= card.rank.name());
    assert(!text::is_white_space(written[0]) && !text::is_white_space(last));
    text::lemma_trim_blanks(before, written, after);
    assert(rank_text[0] == written[0]);
    assert(card.rank == Rank::Ten ==> text::ascii_upper(written[1]) == '0');
    text::lemma_trim_unchanged(rank_text);
    text::lemma_trim_unchanged(seq![last]);
    assert(rank_named(rank_text) == Some(card.rank));
    assert(suit_named(seq![last]) == Some(card.suit));
}

/// Why a text is no card.
#[derive(Debug, Clone, PartialEq, Eq)]
pub enum CardParseError {
    /// Nothing is left after trimming.
    Empty,
    /// The text cannot be split into a rank and a suit.
    InvalidFormat(String),
    /// The suit part is not C, D, H or S.
    InvalidSuit(String),
    /// The rank part is not A, 2 to 10, J, Q or K.
    InvalidRank(String),
}

impl CardParseError {
    /// The failed reading that the error reports.
    pub open spec fn reading(self) -> CardReading {
        match self {
            CardParseError::Empty => CardReading::Empty,
            CardParseError::InvalidFormat(input) => CardReading::InvalidFormat(input@),
            CardParseError::InvalidSuit(suit) => CardReading::InvalidSuit(suit@),
            CardParseError::InvalidRank(rank) => CardReading::InvalidRank(rank@),
        }
    }

    /// The message of the error.
    pub open spec fn message(self) -> Seq<char> {
        match self {
            CardParseError::Empty => "card input cannot be empty"@,
            CardParseError::InvalidFormat(input) => "invalid card format `"@ + input@
                + "`; expected `AS` or `10H`"@,
            CardParseError::InvalidSuit(suit) => "invalid suit `"@ + suit@ + "`"@,
            CardParseError::InvalidRank(rank) => "invalid rank `"@ + rank@ + "`"@,
        }
    }

    /// The message of the error.
    pub fn to_string(&self) -> (result: String)
        ensures
            result@ == self.message(),
    {
        match self {
            CardParseError::Empty => "card input cannot be empty".to_owned(),
            CardParseError::InvalidFormat(input) => {
                "invalid card format `".to_owned().concat(input.as_str()).concat(
                    "`; expected `AS` or `10H`",
                )
            },
            CardParseError::InvalidSuit(suit) => {
                "invalid suit `".to_owned().concat(suit.as_str()).concat("`")
            },
            CardParseError::InvalidRank(rank) => {
                "invalid rank `".to_owned().concat(rank.as_str()).concat("`")
            },
        }
    }
}

} // verus!
