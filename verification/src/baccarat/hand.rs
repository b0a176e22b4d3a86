//! One side's baccarat hand and its points.

use vstd::prelude::*;

use crate::card::Card;

verus! {

/// Two initial cards and an optional third card.
#[derive(Debug, Clone, Copy, PartialEq, Eq, Structural)]
pub struct BaccaratHand {
    pub first_card: Card,
    pub second_card: Card,
    pub third_card: Option<Card>,
}

impl BaccaratHand {
    /// The points of the two initial cards: the last digit of their sum.
    pub open spec fn initial_points(self) -> int {
        (self.first_card.points() + self.second_card.points()) % 10
    }

    /// The points of all cards: the last digit of their sum.
    pub open spec fn points(self) -> int {
        match self.third_card {
            Some(third) => (self.initial_points() + third.points()) % 10,
            None => self.initial_points(),
        }
    }

    /// The number of cards.
    pub open spec fn size(self) -> int {
        match self.third_card {
            Some(_) => 3,
            None => 2,
        }
    }

    /// Two cards worth eight or nine.
    pub open spec fn natural(self) -> bool {
        self.third_card is None && self.initial_points() >= 8
    }

    /// A hand of two cards.
    pub fn new(first_card: Card, second_card: Card) -> (hand: BaccaratHand)
        ensures
            hand == (BaccaratHand { first_card, second_card, third_card: None }),
    {
        BaccaratHand { first_card, second_card, third_card: None }
    }

    /// A hand of three cards.
    pub fn with_third(first_card: Card, second_card: Card, third_card: Card) -> (hand: BaccaratHand)
        ensures
            hand == (BaccaratHand { first_card, second_card, third_card: Some(third_card) }),
    {
        BaccaratHand { first_card, second_card, third_card: Some(third_card) }
    }

    /// The first initial card.
    pub fn first_card(self) -> (card: Card)
        ensures
            card == self.first_card,
    {
        self.first_card
    }

    /// The second initial card.
    pub fn second_card(self) -> (card: Card)
        ensures
            card == self.second_card,
    {
        self.second_card
    }

    /// The third card, if one was drawn.
    pub fn third_card(self) -> (card: Option<Card>)
        ensures
            card == self.third_card,
    {
        self.third_card
    }

    /// The points of the two initial cards.
    pub fn initial_total(self) -> (total: u8)
        ensures
            total == self.initial_points(),
            total < 10,
    {
        (self.first_card.baccarat_value() + self.second_card.baccarat_value()) % 10
    }

    /// The points of all cards.
    pub fn total(self) -> (total: u8)
        ensures
            total == self.points(),
            total < 10,
    {
        match self.third_card {
            Some(third) => (self.initial_total() + third.baccarat_value()) % 10,
            None => self.initial_total(),
        }
    }

    /// The number of cards.
    pub fn card_count(self) -> (count: u8)
        ensures
            count == self.size(),
    {
        match self.third_card {
            Some(_) => 3,
            None => 2,
        }
    }

    /// Whether the hand is a natural eight or nine.
    pub fn is_natural(self) -> (natural: bool)
        ensures
            natural == self.natural(),
    {
        self.third_card.is_none() && self.initial_total() >= 8
    }
}

} // verus!
