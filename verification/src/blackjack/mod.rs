//! Blackjack: hands, table rules and the choice between actions.
//!
//! The ten card values stand for the ranks: the ace, two to nine, and the four ranks that count
//! ten together. Expected values are numbers of a type `E` that the caller picks and computes.

pub mod analysis;
pub mod choice;
pub mod laws;
pub mod solver;

use core::ops::Add;
use vstd::prelude::*;
use vstd::std_specs::ops::AddSpec;

use crate::baccarat::deals;
use crate::card::{Card, Rank};
use crate::counting;
use crate::order;
use crate::scale::Scale;
use crate::shoe;
use crate::shoe::{Shoe, ShoeView};
use crate::text;

verus! {

/// The number of card values.
pub const VALUE_CLASS_COUNT: usize = 10;

/// The position of the ace among the card values.
pub const ACE_INDEX: usize = 0;

/// The position of the tens among the card values.
pub const TEN_INDEX: usize = 9;

/// The rules of a table, with `P` the type of a net payout.
#[derive(Debug, Clone, Copy, PartialEq, Eq)]
pub struct BlackjackRules<P> {
    /// Whether the dealer draws to a soft seventeen.
    pub dealer_hits_soft_17: bool,
    /// The net payout of a natural.
    pub blackjack_payout: P,
    /// Whether the first two cards may be given up.
    pub late_surrender: bool,
    /// Whether a split hand may be doubled.
    pub double_after_split: bool,
    /// The most hands after splits.
    pub max_split_hands: u8,
    /// Whether aces may be split again.
    pub resplit_aces: bool,
    /// Whether split aces may draw more than one card.
    pub hit_split_aces: bool,
}

/// The common rules, with payouts in hundredths.
pub open spec fn standard_rules() -> BlackjackRules<u32> {
    BlackjackRules {
        dealer_hits_soft_17: false,
        blackjack_payout: 150,
        late_surrender: true,
        double_after_split: true,
        max_split_hands: 4,
        resplit_aces: true,
        hit_split_aces: false,
    }
}

impl BlackjackRules<u32> {
    /// The common rules, with payouts in hundredths.
    pub fn standard() -> (rules: BlackjackRules<u32>)
        ensures
            rules == standard_rules(),
    {
        BlackjackRules {
            dealer_hits_soft_17: false,
            blackjack_payout: 150,
            late_surrender: true,
            double_after_split: true,
            max_split_hands: 4,
            resplit_aces: true,
            hit_split_aces: false,
        }
    }
}

impl Default for BlackjackRules<u32> {
    /// The common rules, with payouts in hundredths.
    fn default() -> (rules: BlackjackRules<u32>)
        ensures
            rules == standard_rules(),
    {
        BlackjackRules::standard()
    }
}

/// What is wrong with rules, if anything is.
pub open spec fn rules_error<P: Copy + PartialOrd>(
    scale: Scale<P>,
    rules: BlackjackRules<P>,
) -> Option<BlackjackError<P>> {
    if !scale.positive(rules.blackjack_payout) {
        Some(BlackjackError::InvalidBlackjackPayout(rules.blackjack_payout))
    } else if !(2 <= rules.max_split_hands <= 4) {
        Some(BlackjackError::InvalidMaxSplitHands(rules.max_split_hands))
    } else {
        None
    }
}

impl<P: Copy + PartialOrd> BlackjackRules<P> {
    /// Tells what is wrong with the rules, if anything is.
    pub fn validate(self, scale: Scale<P>) -> (result: Result<
        BlackjackRules<P>,
        BlackjackError<P>,
    >)
        ensures
            order::comparable::<P>() ==> match rules_error(scale, self) {
                Some(error) => result == Err::<BlackjackRules<P>, BlackjackError<P>>(error),
                None => result == Ok::<BlackjackRules<P>, BlackjackError<P>>(self),
            },
            result matches Ok(rules) ==> rules == self,
    {
        if !scale.is_positive(self.blackjack_payout) {
            return Err(BlackjackError::InvalidBlackjackPayout(self.blackjack_payout));
        }
        if self.max_split_hands < 2 || self.max_split_hands > 4 {
            return Err(BlackjackError::InvalidMaxSplitHands(self.max_split_hands));
        }
        Ok(self)
    }
}

/// What the player can do with the first two cards.
#[derive(Debug, Clone, Copy, PartialEq, Eq, Structural)]
pub enum BlackjackAction {
    /// The hand is a natural and is paid.
    Blackjack,
    Stand,
    Hit,
    Double,
    Split,
    Surrender,
}

impl BlackjackAction {
    /// The stable name of the action.
    pub open spec fn name(self) -> Seq<char> {
        match self {
            BlackjackAction::Blackjack => "blackjack"@,
            BlackjackAction::Stand => "stand"@,
            BlackjackAction::Hit => "hit"@,
            BlackjackAction::Double => "double"@,
            BlackjackAction::Split => "split"@,
            BlackjackAction::Surrender => "surrender"@,
        }
    }

    /// The stable name of the action.
    pub fn as_str(self) -> (name: &'static str)
        ensures
            name@ == self.name(),
    {
        match self {
            BlackjackAction::Blackjack => "blackjack",
            BlackjackAction::Stand => "stand",
            BlackjackAction::Hit => "hit",
            BlackjackAction::Double => "double",
            BlackjackAction::Split => "split",
            BlackjackAction::Surrender => "surrender",
        }
    }
}

/// Why a hand cannot be analysed.
#[derive(Debug, Clone, Copy, PartialEq, Eq)]
pub enum BlackjackError<P> {
    /// The player does not have two cards.
    ExpectedTwoPlayerCards(usize),
    /// Fewer than two cards are unseen.
    NotEnoughCards(u16),
    /// No unseen card can be the dealer's hidden one.
    NoPossibleDealerHoleCard,
    /// The payout of a natural is not positive or not finite.
    InvalidBlackjackPayout(P),
    /// The most hands after splits are not between two and four.
    InvalidMaxSplitHands(u8),
}

impl<P: Copy> BlackjackError<P> {
    /// The message of the error, given the text of a payout.
    pub open spec fn message(self, payout: Seq<char>) -> Seq<char> {
        match self {
            BlackjackError::ExpectedTwoPlayerCards(actual) =>
                "expected exactly two player cards; got "@ + text::decimal(actual as nat),
            BlackjackError::NotEnoughCards(actual) =>
                "at least two unseen cards are required; got "@ + text::decimal(actual as nat),
            BlackjackError::NoPossibleDealerHoleCard =>
                "no possible dealer hole card remains after peek"@,
            BlackjackError::InvalidBlackjackPayout(_) =>
                "blackjack payout must be finite and positive; got "@ + payout,
            BlackjackError::InvalidMaxSplitHands(value) =>
                "maximum split hands must be between 2 and 4; got "@ + text::decimal(value as nat),
        }
    }

    /// The message of the error, given the text of a payout.
    pub fn to_string(&self, payout: &str) -> (result: String)
        ensures
            result@ == self.message(payout@),
    {
        match self {
            BlackjackError::ExpectedTwoPlayerCards(actual) => {
                let mut result: String = "expected exactly two player cards; got ".to_owned();
                text::push_decimal(&mut result, *actual as u64);
                result
            },
            BlackjackError::NotEnoughCards(actual) => {
                let mut result: String = "at least two unseen cards are required; got ".to_owned();
                text::push_decimal(&mut result, *actual as u64);
                result
            },
            BlackjackError::NoPossibleDealerHoleCard => {
                "no possible dealer hole card remains after peek".to_owned()
            },
            BlackjackError::InvalidBlackjackPayout(_) => {
                "blackjack payout must be finite and positive; got ".to_owned().concat(payout)
            },
            BlackjackError::InvalidMaxSplitHands(value) => {
                let mut result: String =
                    "maximum split hands must be between 2 and 4; got ".to_owned();
                text::push_decimal(&mut result, *value as u64);
                result
            },
        }
    }
}

/// The value of a rank: ace, two to nine, ten.
pub open spec fn value_of(rank: Rank) -> int {
    if rank.number() < 9 {
        rank.number()
    } else {
        9
    }
}

/// The position of a rank among the card values.
pub fn value_index(rank: Rank) -> (value: usize)
    ensures
        value == value_of(rank),
        value < 10,
{
    match rank {
        Rank::Ace => ACE_INDEX,
        Rank::Two => 1,
        Rank::Three => 2,
        Rank::Four => 3,
        Rank::Five => 4,
        Rank::Six => 5,
        Rank::Seven => 6,
        Rank::Eight => 7,
        Rank::Nine => 8,
        Rank::Ten => TEN_INDEX,
        Rank::Jack => TEN_INDEX,
        Rank::Queen => TEN_INDEX,
        Rank::King => TEN_INDEX,
    }
}

/// The name of a card value.
pub open spec fn value_label(value: int) -> Seq<char> {
    if value == 0 {
        "A"@
    } else {
        text::decimal((value + 1) as nat)
    }
}

/// The name of a card value.
pub fn value_name(value: usize) -> (name: &'static str)
    requires
        value < 10,
    ensures
        name@ == value_label(value as int),
{
    proof {
        reveal_with_fuel(text::decimal, 3);
        reveal_strlit("2");
        reveal_strlit("3");
        reveal_strlit("4");
        reveal_strlit("5");
        reveal_strlit("6");
        reveal_strlit("7");
        reveal_strlit("8");
        reveal_strlit("9");
        reveal_strlit("10");
    }
    let name: &'static str = match value {
        0 => "A",
        1 => "2",
        2 => "3",
        3 => "4",
        4 => "5",
        5 => "6",
        6 => "7",
        7 => "8",
        8 => "9",
        _ => "10",
    };
    assert(name@ =~= value_label(value as int));
    name
}

/// The unseen cards of a shoe by value.
pub open spec fn value_stock(shoe: ShoeView) -> Seq<nat> {
    let ranks = deals::rank_stock(shoe);
    Seq::new(
        10,
        |i: int|
            if i < 9 {
                ranks[i]
            } else {
                ranks[9] + ranks[10] + ranks[11] + ranks[12]
            },
    )
}

/// Counts the cards of a shoe by value.
pub fn blackjack_value_counts(shoe: &Shoe) -> (counts: [u16; 10])
    ensures
        shoe@.wf(),
        counts@.map_values(|n: u16| n as nat) == value_stock(shoe@),
        shoe@.total() == counting::total(value_stock(shoe@)),
        counting::total(value_stock(shoe@)) <= 416,
{
    let ranks: [u16; 13] = shoe.rank_counts();
    let total: u16 = shoe.total_remaining();
    proof {
        let stock = deals::rank_stock(shoe@);
        lemma_value_stock(shoe@);
        shoe::lemma_total_within_decks(shoe@);
        assert(ranks@.map_values(|n: u16| n as nat) == stock);
        assert forall|i: int| 0 <= i < 13 implies #[trigger] ranks@[i] == stock[i] by {
            assert(ranks@.map_values(|n: u16| n as nat)[i] == stock[i]);
        }
        counting::lemma_count_at_most_total(value_stock(shoe@), 9);
        assert(value_stock(shoe@)[9] <= 416);
    }
    let counts: [u16; 10] = [
        ranks[0],
        ranks[1],
        ranks[2],
        ranks[3],
        ranks[4],
        ranks[5],
        ranks[6],
        ranks[7],
        ranks[8],
        ranks[9] + ranks[10] + ranks[11] + ranks[12],
    ];
    assert(counts@.map_values(|n: u16| n as nat) =~= value_stock(shoe@));
    counts
}

/// Every card of a shoe has one value.
pub proof fn lemma_value_stock(shoe: ShoeView)
    requires
        shoe.wf(),
    ensures
        counting::total(value_stock(shoe)) == shoe.total(),
{
    let ranks = deals::rank_stock(shoe);
    let values = value_stock(shoe);
    counting::lemma_gathered_total(shoe.counts, shoe::rank_class(), 13);
    reveal_with_fuel(counting::sum_to, 14);
    assert(counting::total(ranks) == shoe.total());
}

/// The cards of a hand as the rules see them.
#[derive(Debug, Clone, Copy, PartialEq, Eq, Structural, Hash)]
pub struct HandState {
    /// The points with every ace counted one.
    pub hard_total: u8,
    pub aces: u8,
    pub cards: u8,
}

/// The points of cards with every ace counted one.
pub open spec fn hard_points(cards: Seq<Card>) -> int
    decreases cards.len(),
{
    if cards.len() == 0 {
        0
    } else {
        hard_points(cards.drop_last()) + value_of(cards.last().rank) + 1
    }
}

/// The number of aces.
pub open spec fn ace_count(cards: Seq<Card>) -> int
    decreases cards.len(),
{
    if cards.len() == 0 {
        0
    } else {
        ace_count(cards.drop_last()) + if cards.last().rank == Rank::Ace {
            1int
        } else {
            0int
        }
    }
}

impl HandState {
    /// Whether this is what the rules see of cards.
    pub open spec fn shows(self, cards: Seq<Card>) -> bool {
        &&& self.hard_total == hard_points(cards)
        &&& self.aces == ace_count(cards)
        &&& self.cards == cards.len()
    }

    /// Whether one ace can count eleven without busting.
    pub open spec fn soft(self) -> bool {
        self.aces > 0 && self.hard_total + 10 <= 21
    }

    /// The points of the hand.
    pub open spec fn points(self) -> int {
        if self.soft() {
            self.hard_total + 10
        } else {
            self.hard_total as int
        }
    }

    /// The hand with one more card of a value.
    pub open spec fn drawn(self, value: int) -> HandState {
        HandState {
            hard_total: (self.hard_total + value + 1) as u8,
            aces: if value == 0 {
                (self.aces + 1) as u8
            } else {
                self.aces
            },
            cards: (self.cards + 1) as u8,
        }
    }

    /// The hand of cards.
    pub fn from_cards(cards: &[Card]) -> (hand: HandState)
        requires
            cards.len() <= 25,
        ensures
            hand.shows(cards@),
    {
        let mut hand: HandState = HandState { hard_total: 0, aces: 0, cards: 0 };
        let mut i: usize = 0;
        assert(cards@.take(0) =~= Seq::empty());
        while i < cards.len()
            invariant
                i <= cards.len() <= 25,
                hand.shows(cards@.take(i as int)),
                hand.hard_total <= 10 * i,
                hand.aces <= i,
            decreases cards.len() - i,
        {
            proof {
                assert(cards@.take(i + 1).drop_last() =~= cards@.take(i as int));
                assert(cards@.take(i + 1).last() == cards@[i as int]);
            }
            hand = hand.add_value(value_index(cards[i].rank()));
            i = i + 1;
        }
        assert(cards@.take(i as int) =~= cards@);
        hand
    }

    /// The hand of one card of a value.
    pub fn from_value(value: usize) -> (hand: HandState)
        requires
            value < 10,
        ensures
            hand == (HandState { hard_total: 0, aces: 0, cards: 0 }).drawn(value as int),
    {
        HandState { hard_total: 0, aces: 0, cards: 0 }.add_value(value)
    }

    /// The hand with one more card of a value.
    pub fn add_value(self, value: usize) -> (hand: HandState)
        requires
            value < 10,
            self.hard_total + value + 1 <= u8::MAX,
            self.aces < u8::MAX,
            self.cards < u8::MAX,
        ensures
            hand == self.drawn(value as int),
    {
        if value == ACE_INDEX {
            HandState {
                hard_total: self.hard_total + 1,
                aces: self.aces + 1,
                cards: self.cards + 1,
            }
        } else {
            HandState {
                hard_total: self.hard_total + value as u8 + 1,
                aces: self.aces,
                cards: self.cards + 1,
            }
        }
    }

    /// The points of the hand.
    pub fn total(self) -> (total: u8)
        ensures
            total == self.points(),
    {
        if self.aces > 0 && self.hard_total <= 11 {
            self.hard_total + 10
        } else {
            self.hard_total
        }
    }

    /// Whether an ace counts eleven.
    pub fn is_soft(self) -> (soft: bool)
        ensures
            soft == self.soft(),
    {
        self.aces > 0 && self.hard_total <= 11
    }

    /// Whether the hand has more than twenty-one points.
    pub fn is_bust(self) -> (bust: bool)
        ensures
            bust == (self.points() > 21),
    {
        self.hard_total > 21
    }

    /// Whether the hand is a natural: two cards with twenty-one points.
    pub fn is_blackjack(self) -> (natural: bool)
        ensures
            natural == (self.cards == 2 && self.points() == 21),
    {
        self.cards == 2 && self.total() == 21
    }
}

/// The points of a hand are the most that do not exceed twenty-one, counting each ace one or
/// eleven; where all exceed it, the least.
pub proof fn lemma_points_are_the_best_total(hand: HandState, elevens: int)
    requires
        0 <= elevens <= hand.aces <= hand.hard_total,
    ensures
        hand.points() <= 21 ==> hand.hard_total + 10 * elevens <= 21 ==> hand.hard_total + 10
            * elevens <= hand.points(),
        hand.points() > 21 ==> hand.hard_total + 10 * elevens >= hand.points(),
        hand.points() == hand.hard_total || hand.points() == hand.hard_total + 10 && hand.aces > 0,
{
}

/// What the dealer has to do.
#[derive(Debug, Clone, Copy, PartialEq, Eq, Structural)]
pub enum DealerStep {
    /// The hand has more than twenty-one points.
    Bust,
    /// The hand stands with this total.
    Stand(u8),
    /// The hand takes another card.
    Draw,
}

/// What the dealer has to do: draw to sixteen, and to a soft seventeen where the rules say so.
pub open spec fn dealer_rule(hand: HandState, hits_soft_17: bool) -> DealerStep {
    if hand.points() > 21 {
        DealerStep::Bust
    } else if hand.points() < 17 || (hand.points() == 17 && hand.soft() && hits_soft_17) {
        DealerStep::Draw
    } else {
        DealerStep::Stand(hand.points() as u8)
    }
}

/// Tells what the dealer has to do.
pub fn dealer_step(hand: HandState, hits_soft_17: bool) -> (step: DealerStep)
    ensures
        step == dealer_rule(hand, hits_soft_17),
        step matches DealerStep::Stand(total) ==> 17 <= total <= 21,
{
    if hand.is_bust() {
        return DealerStep::Bust;
    }
    let total: u8 = hand.total();
    if total < 17 || (total == 17 && hand.is_soft() && hits_soft_17) {
        DealerStep::Draw
    } else {
        DealerStep::Stand(total)
    }
}

/// How a hand that stands ends against the dealer's total.
#[derive(Debug, Clone, Copy, PartialEq, Eq, Structural)]
pub enum Showdown {
    Win,
    Push,
    Lose,
}

/// Compares a standing hand with the dealer's total.
pub fn settle_against_dealer(player_total: u8, dealer_total: u8) -> (showdown: Showdown)
    ensures
        showdown == if player_total > dealer_total {
            Showdown::Win
        } else if player_total == dealer_total {
            Showdown::Push
        } else {
            Showdown::Lose
        },
{
    if player_total > dealer_total {
        Showdown::Win
    } else if player_total == dealer_total {
        Showdown::Push
    } else {
        Showdown::Lose
    }
}

/// Whether the hidden card can have a value once the dealer has looked for a natural.
pub open spec fn hole_possible(upcard: int, value: int) -> bool {
    !(upcard == 0 && value == 9) && !(upcard == 9 && value == 0)
}

/// Which values the hidden card can have once the dealer has looked for a natural.
pub fn allowed_holes(upcard: usize) -> (allowed: [bool; 10])
    ensures
        forall|i: int| 0 <= i < 10 ==> #[trigger] allowed@[i] == hole_possible(upcard as int, i),
{
    let mut allowed: [bool; 10] = [true; 10];
    if upcard == ACE_INDEX {
        allowed[TEN_INDEX] = false;
    } else if upcard == TEN_INDEX {
        allowed[ACE_INDEX] = false;
    }
    allowed
}

/// What is known when the player has to act.
#[derive(Debug, Clone, Copy, PartialEq, Eq)]
pub struct BlackjackSituation {
    /// The unseen cards by value.
    pub counts: [u16; 10],
    /// The value of the dealer's open card.
    pub upcard: usize,
    pub player: HandState,
    /// The value of the player's first card.
    pub pair_value: usize,
    /// Whether the player's cards have the same rank.
    pub pair: bool,
    /// The number of unseen cards.
    pub total_unseen: u16,
    /// How many unseen cards would give the dealer a natural.
    pub blackjack_holes: u16,
    /// Whether insurance is offered.
    pub insurance_offered: bool,
    /// Whether the dealer has looked for a natural and has none.
    pub conditional_on_no_dealer_blackjack: bool,
    /// Which values the hidden card can have.
    pub allowed_holes: [bool; 10],
}

/// Whether a situation is that of two hands and the unseen cards of a shoe.
pub open spec fn is_situation(
    situation: BlackjackSituation,
    shoe: ShoeView,
    player: Seq<Card>,
    upcard: Card,
) -> bool {
    let stock = value_stock(shoe);
    let up = value_of(upcard.rank);
    &&& situation.counts@.map_values(|n: u16| n as nat) == stock
    &&& situation.upcard == up
    &&& situation.player.shows(player)
    &&& situation.pair_value == value_of(player[0].rank)
    &&& situation.pair == (player[0].rank == player[1].rank)
    &&& situation.total_unseen == shoe.total()
    &&& situation.blackjack_holes == if up == 0 {
        stock[9]
    } else if up == 9 {
        stock[0]
    } else {
        0
    }
    &&& situation.insurance_offered == (up == 0)
    &&& situation.conditional_on_no_dealer_blackjack == (up == 0 || up == 9)
    &&& forall|i: int| 0 <= i < 10 ==> #[trigger] situation.allowed_holes@[i] == hole_possible(up, i)
}

/// Whether some unseen card can be the hidden one.
pub open spec fn has_hole(shoe: ShoeView, upcard: Card) -> bool {
    exists|i: int|
        0 <= i < 10 && hole_possible(value_of(upcard.rank), i) && #[trigger] value_stock(shoe)[i]
            > 0
}

/// What keeps a hand from being analysed, if anything does.
pub open spec fn hand_error<P: Copy + PartialOrd>(
    scale: Scale<P>,
    shoe: ShoeView,
    player: Seq<Card>,
    upcard: Card,
    rules: BlackjackRules<P>,
) -> Option<BlackjackError<P>> {
    if rules_error(scale, rules) is Some {
        rules_error(scale, rules)
    } else if player.len() != 2 {
        Some(BlackjackError::ExpectedTwoPlayerCards(player.len() as usize))
    } else if shoe.total() < 2 {
        Some(BlackjackError::NotEnoughCards(shoe.total() as u16))
    } else if !has_hole(shoe, upcard) {
        Some(BlackjackError::NoPossibleDealerHoleCard)
    } else {
        None
    }
}

/// Takes in what is known when the player has to act. The shoe no longer holds the open cards.
pub fn prepare_blackjack_hand<P: Copy + PartialOrd>(
    scale: Scale<P>,
    shoe_after_visible_cards: &Shoe,
    player_cards: &[Card],
    dealer_upcard: Card,
    rules: BlackjackRules<P>,
) -> (result: Result<BlackjackSituation, BlackjackError<P>>)
    ensures
        order::comparable::<P>() ==> match hand_error(
            scale,
            shoe_after_visible_cards@,
            player_cards@,
            dealer_upcard,
            rules,
        ) {
            Some(error) => result == Err::<BlackjackSituation, BlackjackError<P>>(error),
            None => result is Ok,
        },
        result matches Ok(situation) ==> player_cards.len() == 2 && is_situation(
            situation,
            shoe_after_visible_cards@,
            player_cards@,
            dealer_upcard,
        ),
{
    match rules.validate(scale) {
        Ok(_) => {},
        Err(error) => {
            return Err(error);
        },
    }
    if player_cards.len() != 2 {
        return Err(BlackjackError::ExpectedTwoPlayerCards(player_cards.len()));
    }
    let total_unseen: u16 = shoe_after_visible_cards.total_remaining();
    if total_unseen < 2 {
        return Err(BlackjackError::NotEnoughCards(total_unseen));
    }
    let counts: [u16; 10] = blackjack_value_counts(shoe_after_visible_cards);
    let ghost stock = value_stock(shoe_after_visible_cards@);
    proof {
        assert forall|i: int| 0 <= i < 10 implies #[trigger] counts@[i] == stock[i] by {
            assert(counts@.map_values(|n: u16| n as nat)[i] == stock[i]);
        }
    }
    let upcard: usize = value_index(dealer_upcard.rank());
    let player: HandState = HandState::from_cards(player_cards);
    let pair_value: usize = value_index(player_cards[0].rank());
    let pair: bool = player_cards[0].rank() == player_cards[1].rank();
    let blackjack_holes: u16 = if upcard == ACE_INDEX {
        counts[TEN_INDEX]
    } else if upcard == TEN_INDEX {
        counts[ACE_INDEX]
    } else {
        0
    };
    let allowed: [bool; 10] = allowed_holes(upcard);
    let mut found: bool = false;
    let mut i: usize = 0;
    while i < 10
        invariant
            i <= 10,
            forall|j: int| 0 <= j < 10 ==> #[trigger] counts@[j] == stock[j],
            forall|j: int|
                0 <= j < 10 ==> #[trigger] allowed@[j] == hole_possible(upcard as int, j),
            found <==> exists|j: int|
                0 <= j < i && hole_possible(upcard as int, j) && #[trigger] stock[j] > 0,
        decreases 10 - i,
    {
        let ghost before = found;
        if allowed[i] && counts[i] > 0 {
            found = true;
        }
        proof {
            assert(allowed@[i as int] == hole_possible(upcard as int, i as int));
            assert(counts@[i as int] == stock[i as int]);
            assert(found <==> before || (hole_possible(upcard as int, i as int) && stock[i as int]
                > 0));
        }
        i = i + 1;
    }
    if !found {
        return Err(BlackjackError::NoPossibleDealerHoleCard);
    }
    Ok(
        BlackjackSituation {
            counts,
            upcard,
            player,
            pair_value,
            pair,
            total_unseen,
            blackjack_holes,
            insurance_offered: upcard == ACE_INDEX,
            conditional_on_no_dealer_blackjack: upcard == ACE_INDEX || upcard == TEN_INDEX,
            allowed_holes: allowed,
        },
    )
}

/// The expected net profit of each action per unit of the first stake; none where it is not
/// possible.
#[derive(Debug, Clone, Copy, PartialEq, Eq)]
pub struct BlackjackActionEvs<E> {
    pub stand: Option<E>,
    pub hit: Option<E>,
    pub double: Option<E>,
    /// Only for two cards of the same rank.
    pub split: Option<E>,
    /// Only where the rules allow it.
    pub surrender: Option<E>,
}

/// The better of the best action so far and another one, which must be better by more than a
/// margin.
pub open spec fn better_action<E: Copy + PartialOrd + Add<Output = E>>(
    best: (BlackjackAction, E),
    action: BlackjackAction,
    ev: Option<E>,
    margin: E,
) -> (BlackjackAction, E) {
    match ev {
        Some(ev) => if order::above(ev, best.1.add_spec(margin)) {
            (action, ev)
        } else {
            best
        },
        None => best,
    }
}

/// The action with the largest expected value. Standing comes first, and each of the others
/// must be better than the best one before it by more than a margin.
pub open spec fn best_action<E: Copy + PartialOrd + Add<Output = E>>(
    stand: E,
    hit: E,
    double: E,
    split: Option<E>,
    surrender: Option<E>,
    margin: E,
) -> (BlackjackAction, E) {
    let first = (BlackjackAction::Stand, stand);
    let second = better_action(first, BlackjackAction::Hit, Some(hit), margin);
    let third = better_action(second, BlackjackAction::Double, Some(double), margin);
    let fourth = better_action(third, BlackjackAction::Split, split, margin);
    better_action(fourth, BlackjackAction::Surrender, surrender, margin)
}

/// Whether a margin can be added to a value.
pub open spec fn can_raise<E: Copy + PartialOrd + Add<Output = E>>(value: E, margin: E) -> bool {
    value.add_req(margin)
}

fn pick_better<E: Copy + PartialOrd + Add<Output = E>>(
    best: (BlackjackAction, E),
    action: BlackjackAction,
    ev: Option<E>,
    margin: E,
) -> (result: (BlackjackAction, E))
    requires
        can_raise(best.1, margin),
    ensures
        order::comparable::<E>() && E::obeys_add_spec() ==> result == better_action(
            best,
            action,
            ev,
            margin,
        ),
        result == best || result.0 == action && ev == Some(result.1),
{
    match ev {
        Some(ev) => if order::is_above(ev, best.1 + margin) {
            (action, ev)
        } else {
            best
        },
        None => best,
    }
}

/// Picks the action with the largest expected value.
pub fn choose_action<E: Copy + PartialOrd + Add<Output = E>>(
    stand: E,
    hit: E,
    double: E,
    split: Option<E>,
    surrender: Option<E>,
    margin: E,
) -> (result: (BlackjackAction, E))
    requires
        can_raise(stand, margin),
        can_raise(hit, margin),
        can_raise(double, margin),
        split matches Some(ev) ==> can_raise(ev, margin),
    ensures
        order::comparable::<E>() && E::obeys_add_spec() ==> result == best_action(
            stand,
            hit,
            double,
            split,
            surrender,
            margin,
        ),
{
    let first: (BlackjackAction, E) = (BlackjackAction::Stand, stand);
    let second: (BlackjackAction, E) = pick_better(
        first,
        BlackjackAction::Hit,
        Some(hit),
        margin,
    );
    let third: (BlackjackAction, E) = pick_better(
        second,
        BlackjackAction::Double,
        Some(double),
        margin,
    );
    let fourth: (BlackjackAction, E) = pick_better(third, BlackjackAction::Split, split, margin);
    pick_better(fourth, BlackjackAction::Surrender, surrender, margin)
}

} // verus!
