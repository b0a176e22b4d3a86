//! What errors about amounts say, given the text of the number that is wrong.

use vstd::prelude::*;

use crate::baccarat::risk::{KellyError, StakeSizingStrategy};
use crate::baccarat::side_bet::SideBetRuleError;
use crate::baccarat::snapshot::SnapshotError;
use crate::text;

verus! {

impl<E: Copy> StakeSizingStrategy<E> {
    /// What the number that a strategy is set by must be.
    pub open spec fn range_label(self) -> Seq<char> {
        match self {
            StakeSizingStrategy::TargetExpectedProfit { .. } => "a finite non-negative amount"@,
            _ => "a finite fraction in 0..=1"@,
        }
    }

    /// What the number that a strategy is set by must be.
    pub fn expected(self) -> (label: &'static str)
        ensures
            label@ == self.range_label(),
    {
        match self {
            StakeSizingStrategy::TargetExpectedProfit { amount: _ } => {
                "a finite non-negative amount"
            },
            _ => "a finite fraction in 0..=1",
        }
    }
}

impl<E: Copy> KellyError<E> {
    /// The number that is wrong, where there is one.
    pub fn value(self) -> (value: Option<E>)
        ensures
            value == match self {
                KellyError::EmptyOutcomes => None,
                KellyError::InvalidProbability { value, .. } => Some(value),
                KellyError::InvalidNetProfit { value, .. } => Some(value),
                KellyError::ProbabilitySumNotOne { actual } => Some(actual),
                KellyError::InvalidMaxFraction { value } => Some(value),
                KellyError::InvalidFixedStake { value } => Some(value),
                KellyError::InvalidStrategyParameter { value, .. } => Some(value),
                KellyError::InvalidMaxRoundStake { value } => Some(value),
                KellyError::InvalidTableLimit { value } => Some(value),
                KellyError::InvalidSideBetLimit { value } => Some(value),
                KellyError::InvalidBankroll { value } => Some(value),
            },
    {
        match self {
            KellyError::EmptyOutcomes => None,
            KellyError::InvalidProbability { index: _, value } => Some(value),
            KellyError::InvalidNetProfit { index: _, value } => Some(value),
            KellyError::ProbabilitySumNotOne { actual } => Some(actual),
            KellyError::InvalidMaxFraction { value } => Some(value),
            KellyError::InvalidFixedStake { value } => Some(value),
            KellyError::InvalidStrategyParameter { strategy: _, value } => Some(value),
            KellyError::InvalidMaxRoundStake { value } => Some(value),
            KellyError::InvalidTableLimit { value } => Some(value),
            KellyError::InvalidSideBetLimit { value } => Some(value),
            KellyError::InvalidBankroll { value } => Some(value),
        }
    }

    /// The message of the error, given the text of the number that is wrong.
    pub open spec fn message(self, shown: Seq<char>) -> Seq<char> {
        match self {
            KellyError::EmptyOutcomes => "at least one Kelly outcome is required"@,
            KellyError::InvalidProbability { index, .. } => "outcome "@ + text::decimal(
                index as nat,
            ) + " has invalid probability "@ + shown,
            KellyError::InvalidNetProfit { index, .. } => "outcome "@ + text::decimal(
                index as nat,
            ) + " has invalid net profit "@ + shown,
            KellyError::ProbabilitySumNotOne { .. } => "outcome probabilities sum to "@ + shown
                + "; expected 1"@,
            KellyError::InvalidMaxFraction { .. } =>
                "max Kelly fraction must be in 0..=1; got "@ + shown,
            KellyError::InvalidFixedStake { .. } =>
                "fixed stake must be finite and non-negative; got "@ + shown,
            KellyError::InvalidStrategyParameter { strategy, .. } => "strategy "@
                + strategy.name() + " requires "@ + strategy.range_label() + "; got "@ + shown,
            KellyError::InvalidMaxRoundStake { .. } =>
                "max round stake must be finite and non-negative; got "@ + shown,
            KellyError::InvalidTableLimit { .. } =>
                "table limit must be finite and non-negative; got "@ + shown,
            KellyError::InvalidSideBetLimit { .. } =>
                "side bet limit must be finite and non-negative; got "@ + shown,
            KellyError::InvalidBankroll { .. } => "bankroll must be finite and positive; got "@
                + shown,
        }
    }

    /// The message of the error, given the text of the number that is wrong.
    pub fn to_string(self, shown: &str) -> (result: String)
        ensures
            result@ == self.message(shown@),
    {
        match self {
            KellyError::EmptyOutcomes => "at least one Kelly outcome is required".to_owned(),
            KellyError::InvalidProbability { index, value: _ } => {
                let mut result: String = "outcome ".to_owned();
                text::push_decimal(&mut result, index as u64);
                result.append(" has invalid probability ");
                result.append(shown);
                result
            },
            KellyError::InvalidNetProfit { index, value: _ } => {
                let mut result: String = "outcome ".to_owned();
                text::push_decimal(&mut result, index as u64);
                result.append(" has invalid net profit ");
                result.append(shown);
                result
            },
            KellyError::ProbabilitySumNotOne { actual: _ } => {
                let mut result: String = "outcome probabilities sum to ".to_owned();
                result.append(shown);
                result.append("; expected 1");
                result
            },
            KellyError::InvalidMaxFraction { value: _ } => {
                "max Kelly fraction must be in 0..=1; got ".to_owned().concat(shown)
            },
            KellyError::InvalidFixedStake { value: _ } => {
                "fixed stake must be finite and non-negative; got ".to_owned().concat(shown)
            },
            KellyError::InvalidStrategyParameter { strategy, value: _ } => {
                let mut result: String = "strategy ".to_owned();
                result.append(strategy.as_str());
                result.append(" requires ");
                result.append(strategy.expected());
                result.append("; got ");
                result.append(shown);
                result
            },
            KellyError::InvalidMaxRoundStake { value: _ } => {
                "max round stake must be finite and non-negative; got ".to_owned().concat(shown)
            },
            KellyError::InvalidTableLimit { value: _ } => {
                "table limit must be finite and non-negative; got ".to_owned().concat(shown)
            },
            KellyError::InvalidSideBetLimit { value: _ } => {
                "side bet limit must be finite and non-negative; got ".to_owned().concat(shown)
            },
            KellyError::InvalidBankroll { value: _ } => {
                "bankroll must be finite and positive; got ".to_owned().concat(shown)
            },
        }
    }
}

impl<P: Copy> SideBetRuleError<P> {
    /// The message of the error, given the text of the payout.
    pub fn to_string(&self, shown: &str) -> (result: String)
        ensures
            result@ == "side-bet payout "@ + self.field@
                + " must be finite and non-negative; got "@ + shown@,
    {
        let mut result: String = "side-bet payout ".to_owned();
        result.append(self.field);
        result.append(" must be finite and non-negative; got ");
        result.append(shown);
        result
    }
}

impl<E: Copy> SnapshotError<E> {
    /// The message of the error, given the text of the number that is wrong.
    pub open spec fn message(self, shown: Seq<char>) -> Seq<char> {
        match self {
            SnapshotError::Probability(error) => "probability analysis failed: "@
                + error.message(),
            SnapshotError::Kelly(error) => "Kelly planning failed: "@ + error.message(shown),
        }
    }

    /// The message of the error, given the text of the number that is wrong.
    pub fn to_string(self, shown: &str) -> (result: String)
        ensures
            result@ == self.message(shown@),
    {
        match self {
            SnapshotError::Probability(error) => {
                "probability analysis failed: ".to_owned().concat(error.to_string().as_str())
            },
            SnapshotError::Kelly(error) => {
                "Kelly planning failed: ".to_owned().concat(error.to_string(shown).as_str())
            },
        }
    }
}

} // verus!
