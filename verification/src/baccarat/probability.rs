//! Exact integer weights of the three main outcomes.

use vstd::prelude::*;

use crate::counting;
use crate::text;

verus! {

/// The most cards that one round can use.
pub const MAX_ROUND_CARDS: u8 = 6;

/// How many ordered six-card deals lead to each main outcome.
///
/// The three outcomes together make up all deals.
#[derive(Debug, Clone, Copy, PartialEq, Eq)]
pub struct OutcomeWeights {
    player: u64,
    banker: u64,
    tie: u64,
    total: u64,
    banker_win_on_six: u64,
}

/// What a set of outcome weights says.
pub struct OutcomeWeightsView {
    pub player: nat,
    pub banker: nat,
    pub tie: nat,
    pub total: nat,
    pub banker_win_on_six: nat,
}

impl OutcomeWeightsView {
    /// The outcomes make up the total, and the banker's six-point wins are banker wins.
    pub open spec fn wf(self) -> bool {
        &&& self.player + self.banker + self.tie == self.total
        &&& self.banker_win_on_six <= self.banker
        &&& self.total <= u64::MAX
    }
}

impl View for OutcomeWeights {
    type V = OutcomeWeightsView;

    closed spec fn view(&self) -> OutcomeWeightsView {
        OutcomeWeightsView {
            player: self.player as nat,
            banker: self.banker as nat,
            tie: self.tie as nat,
            total: self.total as nat,
            banker_win_on_six: self.banker_win_on_six as nat,
        }
    }
}

/// What is wrong with a set of weights for a shoe of `total_cards` cards, if anything is.
pub open spec fn weights_error(
    total_cards: u16,
    player: u64,
    banker: u64,
    tie: u64,
    banker_win_on_six: u64,
) -> Option<ProbabilityError> {
    let expected = counting::falling(total_cards as nat, 6);
    let actual = player + banker + tie;
    if total_cards < 6 {
        Some(ProbabilityError::NotEnoughCards { remaining: total_cards })
    } else if actual > u64::MAX {
        Some(ProbabilityError::WeightOverflow)
    } else if actual != expected {
        Some(
            ProbabilityError::WeightSumMismatch { expected: expected as u64, actual: actual as u64 },
        )
    } else if banker_win_on_six > banker {
        Some(ProbabilityError::BankerWinOnSixExceedsBankerWeight { banker, banker_win_on_six })
    } else {
        None
    }
}

impl OutcomeWeights {
    #[verifier::type_invariant]
    spec fn inv(self) -> bool {
        self@.wf()
    }

    /// Weights without the banker's six-point wins, which are taken to be none.
    pub fn from_weights(total_cards: u16, player: u64, banker: u64, tie: u64) -> (result: Result<
        OutcomeWeights,
        ProbabilityError,
    >)
        requires
            total_cards >= 6 ==> counting::falling(total_cards as nat, 6) <= u64::MAX,
        ensures
            match result {
                Ok(weights) => {
                    &&& weights_error(total_cards, player, banker, tie, 0) is None
                    &&& weights@ == (OutcomeWeightsView {
                        player: player as nat,
                        banker: banker as nat,
                        tie: tie as nat,
                        total: counting::falling(total_cards as nat, 6),
                        banker_win_on_six: 0,
                    })
                },
                Err(error) => weights_error(total_cards, player, banker, tie, 0) == Some(error),
            },
    {
        OutcomeWeights::from_detailed_weights(total_cards, player, banker, tie, 0)
    }

    /// Weights of the three outcomes, and of the banker's six-point wins among them.
    pub fn from_detailed_weights(
        total_cards: u16,
        player: u64,
        banker: u64,
        tie: u64,
        banker_win_on_six: u64,
    ) -> (result: Result<OutcomeWeights, ProbabilityError>)
        requires
            total_cards >= 6 ==> counting::falling(total_cards as nat, 6) <= u64::MAX,
        ensures
            match result {
                Ok(weights) => {
                    &&& weights_error(total_cards, player, banker, tie, banker_win_on_six) is None
                    &&& weights@ == (OutcomeWeightsView {
                        player: player as nat,
                        banker: banker as nat,
                        tie: tie as nat,
                        total: counting::falling(total_cards as nat, 6),
                        banker_win_on_six: banker_win_on_six as nat,
                    })
                },
                Err(error) => weights_error(total_cards, player, banker, tie, banker_win_on_six)
                    == Some(error),
            },
    {
        if total_cards < MAX_ROUND_CARDS as u16 {
            return Err(ProbabilityError::NotEnoughCards { remaining: total_cards });
        }
        let total: u64 = falling_factorial(total_cards, MAX_ROUND_CARDS);
        let actual: u64 = match player.checked_add(banker) {
            Some(both) => match both.checked_add(tie) {
                Some(sum) => sum,
                None => {
                    return Err(ProbabilityError::WeightOverflow);
                },
            },
            None => {
                return Err(ProbabilityError::WeightOverflow);
            },
        };
        if actual != total {
            return Err(ProbabilityError::WeightSumMismatch { expected: total, actual });
        }
        if banker_win_on_six > banker {
            return Err(
                ProbabilityError::BankerWinOnSixExceedsBankerWeight { banker, banker_win_on_six },
            );
        }
        Ok(OutcomeWeights { player, banker, tie, total, banker_win_on_six })
    }

    /// The deals that the banker wins with six points.
    pub fn banker_win_on_six_weight(self) -> (weight: u64)
        ensures
            weight == self@.banker_win_on_six,
            self@.wf(),
    {
        proof {
            use_type_invariant(&self);
        }
        self.banker_win_on_six
    }

    /// The deals that the player wins.
    pub fn player_weight(self) -> (weight: u64)
        ensures
            weight == self@.player,
            self@.wf(),
    {
        proof {
            use_type_invariant(&self);
        }
        self.player
    }

    /// The deals that the banker wins.
    pub fn banker_weight(self) -> (weight: u64)
        ensures
            weight == self@.banker,
            self@.wf(),
    {
        proof {
            use_type_invariant(&self);
        }
        self.banker
    }

    /// The deals that end in a tie.
    pub fn tie_weight(self) -> (weight: u64)
        ensures
            weight == self@.tie,
            self@.wf(),
    {
        proof {
            use_type_invariant(&self);
        }
        self.tie
    }

    /// All deals.
    pub fn total_weight(self) -> (weight: u64)
        ensures
            weight == self@.total,
            self@.wf(),
    {
        proof {
            use_type_invariant(&self);
        }
        self.total
    }

    /// Whether the three outcomes make up all deals, which they always do.
    pub fn weights_sum_to_total(self) -> (holds: bool)
        ensures
            holds == (self@.player + self@.banker + self@.tie == self@.total),
            holds,
    {
        proof {
            use_type_invariant(&self);
        }
        match self.player.checked_add(self.banker) {
            Some(both) => match both.checked_add(self.tie) {
                Some(sum) => sum == self.total,
                None => false,
            },
            None => false,
        }
    }
}

/// Why weights do not form a distribution.
#[derive(Debug, Clone, Copy, PartialEq, Eq, Structural)]
pub enum ProbabilityError {
    /// Fewer than six cards are left.
    NotEnoughCards { remaining: u16 },
    /// A weight does not fit into 64 bits.
    WeightOverflow,
    /// The outcomes do not make up all deals.
    WeightSumMismatch { expected: u64, actual: u64 },
    /// More six-point banker wins than banker wins.
    BankerWinOnSixExceedsBankerWeight { banker: u64, banker_win_on_six: u64 },
}

impl ProbabilityError {
    /// The message of the error.
    pub open spec fn message(self) -> Seq<char> {
        match self {
            ProbabilityError::NotEnoughCards { remaining } => "at least "@ + text::decimal(
                MAX_ROUND_CARDS as nat,
            ) + " cards are required; only "@ + text::decimal(remaining as nat) + " remain"@,
            ProbabilityError::WeightOverflow => "outcome weight sum overflowed u64"@,
            ProbabilityError::WeightSumMismatch { expected, actual } => "outcome weights sum to "@
                + text::decimal(actual as nat) + "; expected common denominator "@
                + text::decimal(expected as nat),
            ProbabilityError::BankerWinOnSixExceedsBankerWeight { banker, banker_win_on_six } =>
                "banker six-point win weight "@ + text::decimal(banker_win_on_six as nat)
                + " exceeds banker weight "@ + text::decimal(banker as nat),
        }
    }

    /// The message of the error.
    pub fn to_string(&self) -> (result: String)
        ensures
            result@ == self.message(),
    {
        match self {
            ProbabilityError::NotEnoughCards { remaining } => {
                let mut result: String = "at least ".to_owned();
                text::push_decimal(&mut result, MAX_ROUND_CARDS as u64);
                result.append(" cards are required; only ");
                text::push_decimal(&mut result, *remaining as u64);
                result.append(" remain");
                result
            },
            ProbabilityError::WeightOverflow => "outcome weight sum overflowed u64".to_owned(),
            ProbabilityError::WeightSumMismatch { expected, actual } => {
                let mut result: String = "outcome weights sum to ".to_owned();
                text::push_decimal(&mut result, *actual);
                result.append("; expected common denominator ");
                text::push_decimal(&mut result, *expected);
                result
            },
            ProbabilityError::BankerWinOnSixExceedsBankerWeight { banker, banker_win_on_six } => {
                let mut result: String = "banker six-point win weight ".to_owned();
                text::push_decimal(&mut result, *banker_win_on_six);
                result.append(" exceeds banker weight ");
                text::push_decimal(&mut result, *banker);
                result
            },
        }
    }
}

/// `n * (n - 1) * ...`, with `count` factors.
pub fn falling_factorial(n: u16, count: u8) -> (result: u64)
    requires
        count <= n,
        counting::falling(n as nat, count as nat) <= u64::MAX,
    ensures
        result == counting::falling(n as nat, count as nat),
{
    let mut result: u64 = 1;
    let mut k: u8 = 0;
    while k < count
        invariant
            k <= count <= n,
            counting::falling(n as nat, count as nat) <= u64::MAX,
            result == counting::falling(n as nat, k as nat),
        decreases count - k,
    {
        proof {
            counting::lemma_falling_extends(n as nat, k as nat);
            counting::lemma_falling_grows(n as nat, (k + 1) as nat, count as nat);
        }
        result = result * (n - k as u16) as u64;
        k += 1;
    }
    result
}

} // verus!
