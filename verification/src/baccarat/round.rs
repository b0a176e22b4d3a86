//! Playing one round: the deal P1, B1, P2, B2, then the optional third cards.

use vstd::prelude::*;

use crate::baccarat::hand::BaccaratHand;
use crate::baccarat::rule;
use crate::card::Card;

verus! {

/// Who wins the round.
#[derive(Debug, Clone, Copy, PartialEq, Eq, Structural)]
pub enum RoundOutcome {
    Player,
    Banker,
    Tie,
}

/// The winner by final points.
pub open spec fn winner(player: int, banker: int) -> RoundOutcome {
    if player > banker {
        RoundOutcome::Player
    } else if player < banker {
        RoundOutcome::Banker
    } else {
        RoundOutcome::Tie
    }
}

/// Why a list of cards is not exactly one round.
#[derive(Debug, Clone, Copy, PartialEq, Eq, Structural)]
pub enum RoundError {
    /// Fewer than four cards.
    NotEnoughInitialCards,
    /// The player has to draw, and there is no further card.
    MissingPlayerThirdCard,
    /// The banker has to draw, and there is no further card.
    MissingBankerThirdCard,
    /// Cards are left over after the round has ended.
    UnexpectedExtraCards,
}

impl RoundError {
    /// The message of the error.
    pub open spec fn message(self) -> Seq<char> {
        match self {
            RoundError::NotEnoughInitialCards => "a baccarat round requires four initial cards"@,
            RoundError::MissingPlayerThirdCard =>
                "the drawing rules require a player third card"@,
            RoundError::MissingBankerThirdCard =>
                "the drawing rules require a banker third card"@,
            RoundError::UnexpectedExtraCards =>
                "the round contains cards that the drawing rules do not use"@,
        }
    }

    /// The message of the error.
    pub fn to_string(&self) -> (result: String)
        ensures
            result@ == self.message(),
    {
        match self {
            RoundError::NotEnoughInitialCards => {
                "a baccarat round requires four initial cards".to_owned()
            },
            RoundError::MissingPlayerThirdCard => {
                "the drawing rules require a player third card".to_owned()
            },
            RoundError::MissingBankerThirdCard => {
                "the drawing rules require a banker third card".to_owned()
            },
            RoundError::UnexpectedExtraCards => {
                "the round contains cards that the drawing rules do not use".to_owned()
            },
        }
    }
}

/// The player's initial points in a dealt point sequence.
pub open spec fn player_initial(points: Seq<int>) -> int {
    (points[0] + points[2]) % 10
}

/// The banker's initial points in a dealt point sequence.
pub open spec fn banker_initial(points: Seq<int>) -> int {
    (points[1] + points[3]) % 10
}

/// Whether either side has a natural, which ends the round at four cards.
pub open spec fn stopped_by_natural(points: Seq<int>) -> bool {
    player_initial(points) >= 8 || banker_initial(points) >= 8
}

/// Whether the player takes the fifth card.
pub open spec fn player_takes(points: Seq<int>) -> bool {
    !stopped_by_natural(points) && rule::player_draws(player_initial(points))
}

/// Whether the banker takes the card after the player's last one.
pub open spec fn banker_takes(points: Seq<int>) -> bool {
    !stopped_by_natural(points) && rule::banker_draws(
        banker_initial(points),
        if player_takes(points) {
            Some(points[4])
        } else {
            None
        },
    )
}

/// The number of cards that the round uses.
pub open spec fn cards_used(points: Seq<int>) -> int {
    4 + (if player_takes(points) {
        1int
    } else {
        0int
    }) + (if banker_takes(points) {
        1int
    } else {
        0int
    })
}

/// The player's final points.
pub open spec fn player_final(points: Seq<int>) -> int {
    if player_takes(points) {
        (player_initial(points) + points[4]) % 10
    } else {
        player_initial(points)
    }
}

/// The banker's final points.
pub open spec fn banker_final(points: Seq<int>) -> int {
    if banker_takes(points) {
        (banker_initial(points) + points[cards_used(points) - 1]) % 10
    } else {
        banker_initial(points)
    }
}

/// What is wrong with a point sequence as one complete round, if anything is.
pub open spec fn dealing_error(points: Seq<int>) -> Option<RoundError> {
    if points.len() < 4 {
        Some(RoundError::NotEnoughInitialCards)
    } else if player_takes(points) && points.len() < 5 {
        Some(RoundError::MissingPlayerThirdCard)
    } else if points.len() < cards_used(points) {
        Some(RoundError::MissingBankerThirdCard)
    } else if points.len() > cards_used(points) {
        Some(RoundError::UnexpectedExtraCards)
    } else {
        None
    }
}

/// The points of a list of cards.
pub open spec fn card_points(cards: Seq<Card>) -> Seq<int> {
    cards.map_values(|card: Card| card.points())
}

/// The player's final hand of a dealt list of cards.
pub open spec fn player_hand_of(cards: Seq<Card>) -> BaccaratHand {
    BaccaratHand {
        first_card: cards[0],
        second_card: cards[2],
        third_card: if player_takes(card_points(cards)) {
            Some(cards[4])
        } else {
            None
        },
    }
}

/// The banker's final hand of a dealt list of cards.
pub open spec fn banker_hand_of(cards: Seq<Card>) -> BaccaratHand {
    BaccaratHand {
        first_card: cards[1],
        second_card: cards[3],
        third_card: if banker_takes(card_points(cards)) {
            Some(cards[cards_used(card_points(cards)) - 1])
        } else {
            None
        },
    }
}

/// Both final hands and the winner of a finished round.
#[derive(Debug, Clone, Copy, PartialEq, Eq)]
pub struct RoundResult {
    player_hand: BaccaratHand,
    banker_hand: BaccaratHand,
    outcome: RoundOutcome,
}

impl RoundResult {
    #[verifier::type_invariant]
    spec fn inv(self) -> bool {
        &&& self.outcome == winner(self.player_hand.points(), self.banker_hand.points())
    }

    /// The player's final hand.
    pub closed spec fn player(self) -> BaccaratHand {
        self.player_hand
    }

    /// The banker's final hand.
    pub closed spec fn banker(self) -> BaccaratHand {
        self.banker_hand
    }

    /// The winner.
    pub open spec fn won_by(self) -> RoundOutcome {
        winner(self.player().points(), self.banker().points())
    }

    fn new(player_hand: BaccaratHand, banker_hand: BaccaratHand) -> (result: RoundResult)
        ensures
            result.player() == player_hand,
            result.banker() == banker_hand,
    {
        RoundResult { player_hand, banker_hand, outcome: compare_hands(player_hand, banker_hand) }
    }

    /// The player's final hand.
    pub fn player_hand(self) -> (hand: BaccaratHand)
        ensures
            hand == self.player(),
    {
        self.player_hand
    }

    /// The banker's final hand.
    pub fn banker_hand(self) -> (hand: BaccaratHand)
        ensures
            hand == self.banker(),
    {
        self.banker_hand
    }

    /// The winner.
    pub fn outcome(self) -> (outcome: RoundOutcome)
        ensures
            outcome == self.won_by(),
    {
        proof {
            use_type_invariant(&self);
        }
        self.outcome
    }

    /// The number of cards dealt.
    pub fn card_count(self) -> (count: u8)
        ensures
            count == self.player().size() + self.banker().size(),
    {
        self.player_hand.card_count() + self.banker_hand.card_count()
    }
}

/// The winner by the final points of two hands.
pub fn compare_hands(player_hand: BaccaratHand, banker_hand: BaccaratHand) -> (outcome:
    RoundOutcome)
    ensures
        outcome == winner(player_hand.points(), banker_hand.points()),
{
    let player_total: u8 = player_hand.total();
    let banker_total: u8 = banker_hand.total();
    if player_total > banker_total {
        RoundOutcome::Player
    } else if player_total < banker_total {
        RoundOutcome::Banker
    } else {
        RoundOutcome::Tie
    }
}

/// The final points of a round that is told by points alone.
#[derive(Debug, Clone, Copy, PartialEq, Eq, Structural)]
pub struct PointRoundResult {
    pub player_total: u8,
    pub banker_total: u8,
    pub player_card_count: u8,
    pub banker_card_count: u8,
}

impl PointRoundResult {
    /// Whether the result is that of a dealt point sequence.
    pub open spec fn tells(self, points: Seq<int>) -> bool {
        &&& self.player_total == player_final(points)
        &&& self.banker_total == banker_final(points)
        &&& self.player_card_count == if player_takes(points) {
            3int
        } else {
            2int
        }
        &&& self.banker_card_count == if banker_takes(points) {
            3int
        } else {
            2int
        }
    }

    /// The player's final points.
    pub fn player_total(self) -> (total: u8)
        ensures
            total == self.player_total,
    {
        self.player_total
    }

    /// The banker's final points.
    pub fn banker_total(self) -> (total: u8)
        ensures
            total == self.banker_total,
    {
        self.banker_total
    }

    /// The number of the player's cards.
    pub fn player_card_count(self) -> (count: u8)
        ensures
            count == self.player_card_count,
    {
        self.player_card_count
    }

    /// The number of the banker's cards.
    pub fn banker_card_count(self) -> (count: u8)
        ensures
            count == self.banker_card_count,
    {
        self.banker_card_count
    }

    /// The number of cards dealt.
    pub fn card_count(self) -> (count: u8)
        requires
            self.player_card_count <= 3,
            self.banker_card_count <= 3,
        ensures
            count == self.player_card_count + self.banker_card_count,
    {
        self.player_card_count + self.banker_card_count
    }

    /// The winner.
    pub fn outcome(self) -> (outcome: RoundOutcome)
        ensures
            outcome == winner(self.player_total as int, self.banker_total as int),
    {
        if self.player_total > self.banker_total {
            RoundOutcome::Player
        } else if self.player_total < self.banker_total {
            RoundOutcome::Banker
        } else {
            RoundOutcome::Tie
        }
    }
}

/// Point values as numbers of the rules.
pub open spec fn as_points(points: Seq<u8>) -> Seq<int> {
    points.map_values(|p: u8| p as int)
}

/// Whether the sums that decide a round of points fit into a byte, as they do for all points of
/// cards.
pub open spec fn sums_fit(points: Seq<int>) -> bool {
    let banker_third = if player_takes(points) {
        5int
    } else {
        4int
    };
    points.len() >= 4 ==> {
        &&& points[0] + points[2] <= u8::MAX
        &&& points[1] + points[3] <= u8::MAX
        &&& player_takes(points) && points.len() > 4 ==> player_initial(points) + points[4]
            <= u8::MAX
        &&& banker_takes(points) && points.len() > banker_third ==> banker_initial(points)
            + points[banker_third] <= u8::MAX
    }
}

/// Plays a round of points alone; every point must be used.
pub fn resolve_point_round(points: &[u8]) -> (result: Result<PointRoundResult, RoundError>)
    requires
        sums_fit(as_points(points@)),
    ensures
        match result {
            Ok(round) => dealing_error(as_points(points@)) is None && round.tells(
                as_points(points@),
            ),
            Err(error) => dealing_error(as_points(points@)) == Some(error),
        },
{
    let ghost dealt = as_points(points@);
    if points.len() < 4 {
        return Err(RoundError::NotEnoughInitialCards);
    }
    let player_initial: u8 = (points[0] + points[2]) % 10;
    let banker_initial: u8 = (points[1] + points[3]) % 10;
    let mut player_total: u8 = player_initial;
    let mut banker_total: u8 = banker_initial;
    let mut player_third: Option<u8> = None;
    let mut player_card_count: u8 = 2;
    let mut banker_card_count: u8 = 2;
    let mut consumed: usize = 4;
    if player_initial < 8 && banker_initial < 8 {
        if rule::player_should_draw(player_initial) {
            if points.len() <= consumed {
                return Err(RoundError::MissingPlayerThirdCard);
            }
            let third: u8 = points[consumed];
            player_third = Some(third);
            player_total = (player_initial + third) % 10;
            player_card_count = 3;
            consumed += 1;
        }
        if rule::banker_should_draw(banker_initial, player_third) {
            if points.len() <= consumed {
                return Err(RoundError::MissingBankerThirdCard);
            }
            banker_total = (banker_initial + points[consumed]) % 10;
            banker_card_count = 3;
            consumed += 1;
        }
    }
    assert(consumed == cards_used(dealt));
    if consumed != points.len() {
        return Err(RoundError::UnexpectedExtraCards);
    }
    Ok(PointRoundResult { player_total, banker_total, player_card_count, banker_card_count })
}

/// Plays a round of concrete cards; every card must be used.
pub fn resolve_round(cards: &[Card]) -> (result: Result<RoundResult, RoundError>)
    ensures
        match result {
            Ok(round) => {
                &&& dealing_error(card_points(cards@)) is None
                &&& round.player() == player_hand_of(cards@)
                &&& round.banker() == banker_hand_of(cards@)
            },
            Err(error) => dealing_error(card_points(cards@)) == Some(error),
        },
{
    let ghost points = card_points(cards@);
    if cards.len() < 4 {
        return Err(RoundError::NotEnoughInitialCards);
    }
    let mut consumed: usize = 4;
    let mut player_hand: BaccaratHand = BaccaratHand::new(cards[0], cards[2]);
    let mut banker_hand: BaccaratHand = BaccaratHand::new(cards[1], cards[3]);
    assert(player_hand.initial_points() == player_initial(points));
    assert(banker_hand.initial_points() == banker_initial(points));
    if !player_hand.is_natural() && !banker_hand.is_natural() {
        let mut player_third: Option<u8> = None;
        if rule::player_should_draw(player_hand.initial_total()) {
            if cards.len() <= consumed {
                return Err(RoundError::MissingPlayerThirdCard);
            }
            let third: Card = cards[consumed];
            player_hand = BaccaratHand::with_third(cards[0], cards[2], third);
            player_third = Some(third.baccarat_value());
            consumed += 1;
        }
        if rule::banker_should_draw(banker_hand.initial_total(), player_third) {
            if cards.len() <= consumed {
                return Err(RoundError::MissingBankerThirdCard);
            }
            banker_hand = BaccaratHand::with_third(cards[1], cards[3], cards[consumed]);
            consumed += 1;
        }
    }
    assert(consumed == cards_used(points));
    if consumed != cards.len() {
        return Err(RoundError::UnexpectedExtraCards);
    }
    Ok(RoundResult::new(player_hand, banker_hand))
}

/// A round of cards ends as the round of their points does: the same final points and the
/// same number of cards on each side.
pub proof fn lemma_card_round_is_point_round(cards: Seq<Card>)
    requires
        cards.len() >= 4,
        cards.len() >= cards_used(card_points(cards)),
        player_takes(card_points(cards)) ==> cards.len() >= 5,
    ensures
        player_hand_of(cards).points() == player_final(card_points(cards)),
        banker_hand_of(cards).points() == banker_final(card_points(cards)),
        player_hand_of(cards).size() + banker_hand_of(cards).size() == cards_used(
            card_points(cards),
        ),
        player_hand_of(cards).size() == 3 <==> player_takes(card_points(cards)),
        banker_hand_of(cards).size() == 3 <==> banker_takes(card_points(cards)),
{
}

/// A round uses four, five or six cards, and exactly four when either side has a natural.
pub proof fn lemma_cards_used(points: Seq<int>)
    ensures
        4 <= cards_used(points) <= 6,
        stopped_by_natural(points) ==> cards_used(points) == 4,
{
}

/// Cards after the end of a round change nothing: two sequences that agree on the cards
/// that the first one uses play the same round.
pub proof fn lemma_round_looks_at_used_cards(left: Seq<int>, right: Seq<int>)
    requires
        left.len() >= 4,
        right.len() >= 4,
        forall|i: int| 0 <= i < cards_used(left) ==> #[trigger] left[i] == right[i],
    ensures
        cards_used(right) == cards_used(left),
        player_final(right) == player_final(left),
        banker_final(right) == banker_final(left),
        player_takes(right) == player_takes(left),
        banker_takes(right) == banker_takes(left),
{
    assert(left[0] == right[0] && left[1] == right[1] && left[2] == right[2] && left[3]
        == right[3]);
    if player_takes(left) {
        assert(left[4] == right[4]);
    }
    if banker_takes(left) {
        assert(left[cards_used(left) - 1] == right[cards_used(left) - 1]);
    }
}

} // verus!
