//! How much to stake: the ways to choose a stake, the limits on it and the plan that is made of
//! a decision.
//!
//! Amounts and fractions are numbers of a type `E` that the caller picks; nothing here computes
//! with them.

use vstd::prelude::*;

use crate::baccarat::bet::MainBet;
use crate::baccarat::strategy::{
    BetAction, BetDecision, BetTarget, CombinedBetAction, CombinedBetDecision, SkipReason,
};
use crate::order;
use crate::scale::Scale;

verus! {

/// How the stake of a bet is chosen.
#[derive(Debug, Clone, Copy, PartialEq, Eq)]
pub enum StakeSizingStrategy<E> {
    /// The full Kelly fraction.
    FullKelly,
    /// Half of the full Kelly fraction.
    HalfKelly,
    /// A quarter of the full Kelly fraction.
    QuarterKelly,
    /// A given part of the full Kelly fraction.
    CustomKelly { fraction: E },
    /// A given amount.
    Fixed { amount: E },
    /// A given part of the bankroll.
    FixedBankrollFraction { fraction: E },
    /// The amount whose expected profit is the given one.
    TargetExpectedProfit { amount: E },
    /// The amount whose standard deviation is the given part of the bankroll.
    TargetVolatility { fraction: E },
}

impl<E: Copy> StakeSizingStrategy<E> {
    /// The stable name of the strategy.
    pub open spec fn name(self) -> Seq<char> {
        match self {
            StakeSizingStrategy::FullKelly => "full_kelly"@,
            StakeSizingStrategy::HalfKelly => "half_kelly"@,
            StakeSizingStrategy::QuarterKelly => "quarter_kelly"@,
            StakeSizingStrategy::CustomKelly { .. } => "custom_kelly"@,
            StakeSizingStrategy::Fixed { .. } => "fixed"@,
            StakeSizingStrategy::FixedBankrollFraction { .. } => "bankroll_fraction"@,
            StakeSizingStrategy::TargetExpectedProfit { .. } => "target_expected_profit"@,
            StakeSizingStrategy::TargetVolatility { .. } => "target_volatility"@,
        }
    }

    /// Whether the strategy takes a part of the full Kelly fraction.
    pub open spec fn is_kelly(self) -> bool {
        self is FullKelly || self is HalfKelly || self is QuarterKelly || self is CustomKelly
    }

    /// The stable name of the strategy.
    pub fn as_str(self) -> (name: &'static str)
        ensures
            name@ == self.name(),
    {
        match self {
            StakeSizingStrategy::FullKelly => "full_kelly",
            StakeSizingStrategy::HalfKelly => "half_kelly",
            StakeSizingStrategy::QuarterKelly => "quarter_kelly",
            StakeSizingStrategy::CustomKelly { fraction: _ } => "custom_kelly",
            StakeSizingStrategy::Fixed { amount: _ } => "fixed",
            StakeSizingStrategy::FixedBankrollFraction { fraction: _ } => "bankroll_fraction",
            StakeSizingStrategy::TargetExpectedProfit { amount: _ } => "target_expected_profit",
            StakeSizingStrategy::TargetVolatility { fraction: _ } => "target_volatility",
        }
    }

    /// Whether a bet is made only where the full Kelly fraction is positive.
    pub fn requires_positive_kelly(self) -> (required: bool)
        ensures
            required == self.is_kelly(),
    {
        match self {
            StakeSizingStrategy::FullKelly => true,
            StakeSizingStrategy::HalfKelly => true,
            StakeSizingStrategy::QuarterKelly => true,
            StakeSizingStrategy::CustomKelly { fraction: _ } => true,
            _ => false,
        }
    }

    /// The amount of the fixed strategy; none for the others.
    pub fn fixed_amount(self) -> (amount: Option<E>)
        ensures
            amount == match self {
                StakeSizingStrategy::Fixed { amount } => Some(amount),
                _ => None,
            },
    {
        match self {
            StakeSizingStrategy::Fixed { amount } => Some(amount),
            _ => None,
        }
    }

    /// The number that the strategy is set by; none for the plain Kelly ones.
    pub fn parameter(self) -> (parameter: Option<E>)
        ensures
            parameter == match self {
                StakeSizingStrategy::FullKelly => None,
                StakeSizingStrategy::HalfKelly => None,
                StakeSizingStrategy::QuarterKelly => None,
                StakeSizingStrategy::CustomKelly { fraction } => Some(fraction),
                StakeSizingStrategy::Fixed { amount } => Some(amount),
                StakeSizingStrategy::FixedBankrollFraction { fraction } => Some(fraction),
                StakeSizingStrategy::TargetExpectedProfit { amount } => Some(amount),
                StakeSizingStrategy::TargetVolatility { fraction } => Some(fraction),
            },
    {
        match self {
            StakeSizingStrategy::FullKelly => None,
            StakeSizingStrategy::HalfKelly => None,
            StakeSizingStrategy::QuarterKelly => None,
            StakeSizingStrategy::CustomKelly { fraction } => Some(fraction),
            StakeSizingStrategy::Fixed { amount } => Some(amount),
            StakeSizingStrategy::FixedBankrollFraction { fraction } => Some(fraction),
            StakeSizingStrategy::TargetExpectedProfit { amount } => Some(amount),
            StakeSizingStrategy::TargetVolatility { fraction } => Some(fraction),
        }
    }
}

/// Why a stake cannot be computed.
#[derive(Debug, Clone, Copy, PartialEq, Eq)]
pub enum KellyError<E> {
    /// A bet has no results.
    EmptyOutcomes,
    /// The chance of a result is negative or not finite.
    InvalidProbability { index: usize, value: E },
    /// The profit of a result is not finite.
    InvalidNetProfit { index: usize, value: E },
    /// The chances of the results do not add up to one.
    ProbabilitySumNotOne { actual: E },
    /// The largest part of the bankroll is no fraction of one.
    InvalidMaxFraction { value: E },
    /// The fixed amount is negative or not finite.
    InvalidFixedStake { value: E },
    /// The number that a strategy is set by is out of its range.
    InvalidStrategyParameter { strategy: StakeSizingStrategy<E>, value: E },
    /// The limit on a round is negative or not finite.
    InvalidMaxRoundStake { value: E },
    /// The limit of the table is negative or not finite.
    InvalidTableLimit { value: E },
    /// The limit on a side bet is negative or not finite.
    InvalidSideBetLimit { value: E },
    /// The bankroll is not positive or not finite.
    InvalidBankroll { value: E },
}

/// How stakes are chosen and limited.
#[derive(Debug, Clone, Copy, PartialEq, Eq)]
pub struct KellyPolicy<E> {
    pub strategy: StakeSizingStrategy<E>,
    pub max_fraction: E,
    pub max_round_stake: E,
    pub table_limit: E,
    pub side_bet_limit: E,
}

/// What is wrong with the number that a strategy is set by, if anything is.
pub open spec fn strategy_error<E: Copy + PartialOrd>(
    scale: Scale<E>,
    strategy: StakeSizingStrategy<E>,
) -> Option<KellyError<E>> {
    match strategy {
        StakeSizingStrategy::Fixed { amount } => if scale.amount(amount) {
            None
        } else {
            Some(KellyError::InvalidFixedStake { value: amount })
        },
        StakeSizingStrategy::CustomKelly { fraction } => if scale.fraction(fraction) {
            None
        } else {
            Some(KellyError::InvalidStrategyParameter { strategy, value: fraction })
        },
        StakeSizingStrategy::FixedBankrollFraction { fraction } => if scale.fraction(fraction) {
            None
        } else {
            Some(KellyError::InvalidStrategyParameter { strategy, value: fraction })
        },
        StakeSizingStrategy::TargetVolatility { fraction } => if scale.fraction(fraction) {
            None
        } else {
            Some(KellyError::InvalidStrategyParameter { strategy, value: fraction })
        },
        StakeSizingStrategy::TargetExpectedProfit { amount } => if scale.amount(amount) {
            None
        } else {
            Some(KellyError::InvalidStrategyParameter { strategy, value: amount })
        },
        _ => None,
    }
}

/// What is wrong with a policy, if anything is.
pub open spec fn policy_error<E: Copy + PartialOrd>(
    scale: Scale<E>,
    strategy: StakeSizingStrategy<E>,
    max_fraction: E,
    max_round_stake: E,
    table_limit: E,
) -> Option<KellyError<E>> {
    if !scale.fraction(max_fraction) {
        Some(KellyError::InvalidMaxFraction { value: max_fraction })
    } else if strategy_error(scale, strategy) is Some {
        strategy_error(scale, strategy)
    } else if !scale.amount(max_round_stake) {
        Some(KellyError::InvalidMaxRoundStake { value: max_round_stake })
    } else if !scale.amount(table_limit) {
        Some(KellyError::InvalidTableLimit { value: table_limit })
    } else {
        None
    }
}

fn check_strategy<E: Copy + PartialOrd>(
    scale: Scale<E>,
    strategy: StakeSizingStrategy<E>,
) -> (error: Option<KellyError<E>>)
    ensures
        order::comparable::<E>() ==> error == strategy_error(scale, strategy),
{
    match strategy {
        StakeSizingStrategy::Fixed { amount } => if scale.is_amount(amount) {
            None
        } else {
            Some(KellyError::InvalidFixedStake { value: amount })
        },
        StakeSizingStrategy::CustomKelly { fraction } => if scale.is_fraction(fraction) {
            None
        } else {
            Some(KellyError::InvalidStrategyParameter { strategy, value: fraction })
        },
        StakeSizingStrategy::FixedBankrollFraction { fraction } => if scale.is_fraction(fraction) {
            None
        } else {
            Some(KellyError::InvalidStrategyParameter { strategy, value: fraction })
        },
        StakeSizingStrategy::TargetVolatility { fraction } => if scale.is_fraction(fraction) {
            None
        } else {
            Some(KellyError::InvalidStrategyParameter { strategy, value: fraction })
        },
        StakeSizingStrategy::TargetExpectedProfit { amount } => if scale.is_amount(amount) {
            None
        } else {
            Some(KellyError::InvalidStrategyParameter { strategy, value: amount })
        },
        _ => None,
    }
}

impl<E: Copy + PartialOrd> KellyPolicy<E> {
    /// The stake after every limit that applies to the bet.
    pub open spec fn capped(self, target: BetTarget, wanted: E, bankroll: E) -> E {
        let common = order::lower(
            order::lower(order::lower(wanted, self.max_round_stake), self.table_limit),
            bankroll,
        );
        if target is Side {
            order::lower(common, self.side_bet_limit)
        } else {
            common
        }
    }

    /// A policy of full Kelly stakes that may use the whole bankroll.
    pub fn full(scale: Scale<E>, max_round_stake: E, table_limit: E) -> (result: Result<
        KellyPolicy<E>,
        KellyError<E>,
    >)
        ensures
            order::comparable::<E>() ==> match policy_error(
                scale,
                StakeSizingStrategy::FullKelly,
                scale.one,
                max_round_stake,
                table_limit,
            ) {
                Some(error) => result == Err::<KellyPolicy<E>, KellyError<E>>(error),
                None => result == Ok::<KellyPolicy<E>, KellyError<E>>(
                    KellyPolicy {
                        strategy: StakeSizingStrategy::FullKelly,
                        max_fraction: scale.one,
                        max_round_stake,
                        table_limit,
                        side_bet_limit: max_round_stake,
                    },
                ),
            },
    {
        KellyPolicy::new(scale, scale.one, max_round_stake, table_limit)
    }

    /// A policy of full Kelly stakes that may use the given part of the bankroll.
    pub fn new(scale: Scale<E>, max_fraction: E, max_round_stake: E, table_limit: E) -> (result:
        Result<KellyPolicy<E>, KellyError<E>>)
        ensures
            order::comparable::<E>() ==> match policy_error(
                scale,
                StakeSizingStrategy::FullKelly,
                max_fraction,
                max_round_stake,
                table_limit,
            ) {
                Some(error) => result == Err::<KellyPolicy<E>, KellyError<E>>(error),
                None => result == Ok::<KellyPolicy<E>, KellyError<E>>(
                    KellyPolicy {
                        strategy: StakeSizingStrategy::FullKelly,
                        max_fraction,
                        max_round_stake,
                        table_limit,
                        side_bet_limit: max_round_stake,
                    },
                ),
            },
    {
        KellyPolicy::with_strategy(
            scale,
            StakeSizingStrategy::FullKelly,
            max_fraction,
            max_round_stake,
            table_limit,
        )
    }

    /// A policy from its parts; a side bet may use as much as a round.
    pub fn with_strategy(
        scale: Scale<E>,
        strategy: StakeSizingStrategy<E>,
        max_fraction: E,
        max_round_stake: E,
        table_limit: E,
    ) -> (result: Result<KellyPolicy<E>, KellyError<E>>)
        ensures
            order::comparable::<E>() ==> match policy_error(
                scale,
                strategy,
                max_fraction,
                max_round_stake,
                table_limit,
            ) {
                Some(error) => result == Err::<KellyPolicy<E>, KellyError<E>>(error),
                None => result == Ok::<KellyPolicy<E>, KellyError<E>>(
                    KellyPolicy {
                        strategy,
                        max_fraction,
                        max_round_stake,
                        table_limit,
                        side_bet_limit: max_round_stake,
                    },
                ),
            },
    {
        if !scale.is_fraction(max_fraction) {
            return Err(KellyError::InvalidMaxFraction { value: max_fraction });
        }
        match check_strategy(scale, strategy) {
            Some(error) => {
                return Err(error);
            },
            None => {},
        }
        if !scale.is_amount(max_round_stake) {
            return Err(KellyError::InvalidMaxRoundStake { value: max_round_stake });
        }
        if !scale.is_amount(table_limit) {
            return Err(KellyError::InvalidTableLimit { value: table_limit });
        }
        Ok(
            KellyPolicy {
                strategy,
                max_fraction,
                max_round_stake,
                table_limit,
                side_bet_limit: max_round_stake,
            },
        )
    }

    /// The policy with a limit of its own for side bets.
    pub fn with_side_bet_limit(self, scale: Scale<E>, side_bet_limit: E) -> (result: Result<
        KellyPolicy<E>,
        KellyError<E>,
    >)
        ensures
            order::comparable::<E>() ==> result == if scale.amount(side_bet_limit) {
                Ok::<KellyPolicy<E>, KellyError<E>>(KellyPolicy { side_bet_limit, ..self })
            } else {
                Err::<KellyPolicy<E>, KellyError<E>>(
                    KellyError::InvalidSideBetLimit { value: side_bet_limit },
                )
            },
    {
        if !scale.is_amount(side_bet_limit) {
            return Err(KellyError::InvalidSideBetLimit { value: side_bet_limit });
        }
        Ok(
            KellyPolicy {
                strategy: self.strategy,
                max_fraction: self.max_fraction,
                max_round_stake: self.max_round_stake,
                table_limit: self.table_limit,
                side_bet_limit,
            },
        )
    }

    /// How stakes are chosen.
    pub fn strategy(self) -> (strategy: StakeSizingStrategy<E>)
        ensures
            strategy == self.strategy,
    {
        self.strategy
    }

    /// The largest part of the bankroll in one round.
    pub fn max_fraction(self) -> (fraction: E)
        ensures
            fraction == self.max_fraction,
    {
        self.max_fraction
    }

    /// The largest stake in one round.
    pub fn max_round_stake(self) -> (stake: E)
        ensures
            stake == self.max_round_stake,
    {
        self.max_round_stake
    }

    /// The largest stake at the table.
    pub fn table_limit(self) -> (stake: E)
        ensures
            stake == self.table_limit,
    {
        self.table_limit
    }

    /// The largest stake on a side bet.
    pub fn side_bet_limit(self) -> (stake: E)
        ensures
            stake == self.side_bet_limit,
    {
        self.side_bet_limit
    }

    /// Lowers a stake to every limit that applies to the bet.
    pub fn cap(self, target: BetTarget, wanted: E, bankroll: E) -> (stake: E)
        ensures
            order::comparable::<E>() ==> stake == self.capped(target, wanted, bankroll),
    {
        let common: E = order::lower_of(
            order::lower_of(order::lower_of(wanted, self.max_round_stake), self.table_limit),
            bankroll,
        );
        if target.is_side() {
            order::lower_of(common, self.side_bet_limit)
        } else {
            common
        }
    }
}

/// In a linear order a stake is above none of its limits, and above no wish.
pub proof fn lemma_stakes_keep_the_limits<E: Copy + PartialOrd>(
    policy: KellyPolicy<E>,
    target: BetTarget,
    wanted: E,
    bankroll: E,
    ordered: Set<E>,
)
    requires
        order::linear(ordered),
        ordered.contains(wanted),
        ordered.contains(bankroll),
        ordered.contains(policy.max_round_stake),
        ordered.contains(policy.table_limit),
        ordered.contains(policy.side_bet_limit),
    ensures
        !order::above(policy.capped(target, wanted, bankroll), wanted),
        !order::above(policy.capped(target, wanted, bankroll), policy.max_round_stake),
        !order::above(policy.capped(target, wanted, bankroll), policy.table_limit),
        !order::above(policy.capped(target, wanted, bankroll), bankroll),
        target is Side ==> !order::above(
            policy.capped(target, wanted, bankroll),
            policy.side_bet_limit,
        ),
{
    let first = order::lower(wanted, policy.max_round_stake);
    let second = order::lower(first, policy.table_limit);
    let third = order::lower(second, bankroll);
    lemma_lower(wanted, policy.max_round_stake, ordered);
    lemma_lower(first, policy.table_limit, ordered);
    lemma_lower(second, bankroll, ordered);
    lemma_lower(third, policy.side_bet_limit, ordered);
    lemma_below(second, first, wanted, ordered);
    lemma_below(second, first, policy.max_round_stake, ordered);
    lemma_below(third, second, wanted, ordered);
    lemma_below(third, second, policy.max_round_stake, ordered);
    lemma_below(third, second, policy.table_limit, ordered);
    let fourth = order::lower(third, policy.side_bet_limit);
    lemma_below(fourth, third, wanted, ordered);
    lemma_below(fourth, third, policy.max_round_stake, ordered);
    lemma_below(fourth, third, policy.table_limit, ordered);
    lemma_below(fourth, third, bankroll, ordered);
}

proof fn lemma_lower<E: PartialOrd>(a: E, b: E, ordered: Set<E>)
    requires
        order::linear(ordered),
        ordered.contains(a),
        ordered.contains(b),
    ensures
        ordered.contains(order::lower(a, b)),
        !order::above(order::lower(a, b), a),
        !order::above(order::lower(a, b), b),
{
    assert(order::above(a, a) ==> !order::above(a, a));
    assert(order::above(b, b) ==> !order::above(b, b));
    assert(order::above(a, b) ==> !order::above(b, a));
}

proof fn lemma_below<E: PartialOrd>(a: E, b: E, c: E, ordered: Set<E>)
    requires
        order::linear(ordered),
        ordered.contains(a),
        ordered.contains(b),
        ordered.contains(c),
        !order::above(a, b),
        !order::above(b, c),
    ensures
        !order::above(a, c),
{
}

/// A stake with the numbers it was computed from.
#[derive(Debug, Clone, Copy, PartialEq, Eq)]
pub struct KellyQuote<E> {
    pub bet: BetTarget,
    pub effective_ev: E,
    pub kelly_fraction: E,
    pub strategy_fraction: E,
    pub applied_fraction: E,
    pub amount: E,
    pub expected_profit: E,
}

impl<E: Copy> KellyQuote<E> {
    /// The bet.
    pub fn bet(self) -> (bet: BetTarget)
        ensures
            bet == self.bet,
    {
        self.bet
    }

    /// The expected net profit per unit of stake.
    pub fn effective_ev(self) -> (ev: E)
        ensures
            ev == self.effective_ev,
    {
        self.effective_ev
    }

    /// The full Kelly fraction.
    pub fn kelly_fraction(self) -> (fraction: E)
        ensures
            fraction == self.kelly_fraction,
    {
        self.kelly_fraction
    }

    /// The fraction that the strategy asks for.
    pub fn strategy_fraction(self) -> (fraction: E)
        ensures
            fraction == self.strategy_fraction,
    {
        self.strategy_fraction
    }

    /// The fraction that is left after the limits.
    pub fn applied_fraction(self) -> (fraction: E)
        ensures
            fraction == self.applied_fraction,
    {
        self.applied_fraction
    }

    /// The stake.
    pub fn amount(self) -> (amount: E)
        ensures
            amount == self.amount,
    {
        self.amount
    }

    /// The expected net profit of the stake.
    pub fn expected_profit(self) -> (profit: E)
        ensures
            profit == self.expected_profit,
    {
        self.expected_profit
    }
}

/// Why a plan makes no bet.
#[derive(Debug, Clone, Copy, PartialEq, Eq)]
pub enum BetPlanSkipReason<E> {
    /// The decision was against it.
    Strategy(SkipReason<E>),
    /// The full Kelly fraction is not positive.
    NonPositiveKelly,
    /// The limits leave no stake.
    RiskLimitIsZero,
}

/// What a plan for the main bets does.
#[derive(Debug, Clone, Copy, PartialEq, Eq)]
pub enum BetPlanAction<E> {
    Place { bet: MainBet, amount: E },
    Skip { reason: BetPlanSkipReason<E> },
}

/// What a plan for one of all bets does.
#[derive(Debug, Clone, Copy, PartialEq, Eq)]
pub enum CombinedBetPlanAction<E> {
    Place { bet: BetTarget, amount: E },
    Skip { reason: BetPlanSkipReason<E> },
}

/// Why a quoted stake is not used, if it is not.
pub open spec fn quote_refusal<E: Copy + PartialOrd>(
    strategy: StakeSizingStrategy<E>,
    quote: KellyQuote<E>,
    zero: E,
) -> Option<BetPlanSkipReason<E>> {
    if strategy.is_kelly() && order::reaches(zero, quote.kelly_fraction) {
        Some(BetPlanSkipReason::NonPositiveKelly)
    } else if order::reaches(zero, quote.amount) {
        Some(BetPlanSkipReason::RiskLimitIsZero)
    } else {
        None
    }
}

fn refuse_quote<E: Copy + PartialOrd>(
    strategy: StakeSizingStrategy<E>,
    quote: KellyQuote<E>,
    zero: E,
) -> (reason: Option<BetPlanSkipReason<E>>)
    ensures
        order::comparable::<E>() ==> reason == quote_refusal(strategy, quote, zero),
{
    if strategy.requires_positive_kelly() && order::has_reached(zero, quote.kelly_fraction) {
        Some(BetPlanSkipReason::NonPositiveKelly)
    } else if order::has_reached(zero, quote.amount) {
        Some(BetPlanSkipReason::RiskLimitIsZero)
    } else {
        None
    }
}

/// A decision between the main bets with the stake and what comes of both.
#[derive(Debug, Clone, Copy, PartialEq, Eq)]
pub struct BetPlan<E> {
    pub decision: BetDecision<E>,
    pub quote: Option<KellyQuote<E>>,
    pub action: BetPlanAction<E>,
}

impl<E: Copy + PartialOrd> BetPlan<E> {
    /// The plan of a decision; the quote is for the bet that was decided for.
    pub open spec fn planned(
        decision: BetDecision<E>,
        strategy: StakeSizingStrategy<E>,
        quote: KellyQuote<E>,
        zero: E,
    ) -> BetPlan<E> {
        match decision.action {
            BetAction::Skip { reason } => BetPlan {
                decision,
                quote: None,
                action: BetPlanAction::Skip { reason: BetPlanSkipReason::Strategy(reason) },
            },
            BetAction::Place { bet } => BetPlan {
                decision,
                quote: Some(quote),
                action: match quote_refusal(strategy, quote, zero) {
                    Some(reason) => BetPlanAction::Skip { reason },
                    None => BetPlanAction::Place { bet, amount: quote.amount },
                },
            },
        }
    }

    /// Makes the plan of a decision; the quote is for the bet that was decided for and is not
    /// looked at where the decision was against betting.
    pub fn from_decision(
        decision: BetDecision<E>,
        strategy: StakeSizingStrategy<E>,
        quote: KellyQuote<E>,
        zero: E,
    ) -> (plan: BetPlan<E>)
        ensures
            order::comparable::<E>() ==> plan == Self::planned(decision, strategy, quote, zero),
    {
        match decision.action {
            BetAction::Skip { reason } => BetPlan {
                decision,
                quote: None,
                action: BetPlanAction::Skip { reason: BetPlanSkipReason::Strategy(reason) },
            },
            BetAction::Place { bet } => BetPlan {
                decision,
                quote: Some(quote),
                action: match refuse_quote(strategy, quote, zero) {
                    Some(reason) => BetPlanAction::Skip { reason },
                    None => BetPlanAction::Place { bet, amount: quote.amount },
                },
            },
        }
    }

    /// The decision.
    pub fn decision(&self) -> (decision: &BetDecision<E>)
        ensures
            *decision == self.decision,
    {
        &self.decision
    }

    /// The stake; none where the decision was against betting.
    pub fn quote(self) -> (quote: Option<KellyQuote<E>>)
        ensures
            quote == self.quote,
    {
        self.quote
    }

    /// What to do.
    pub fn action(&self) -> (action: &BetPlanAction<E>)
        ensures
            *action == self.action,
    {
        &self.action
    }
}

/// A decision between all bets with the stake and what comes of both.
#[derive(Debug, Clone, Copy, PartialEq, Eq)]
pub struct CombinedBetPlan<E> {
    pub decision: CombinedBetDecision<E>,
    pub quote: Option<KellyQuote<E>>,
    pub action: CombinedBetPlanAction<E>,
}

impl<E: Copy + PartialOrd> CombinedBetPlan<E> {
    /// The plan of a decision; the quote is for the bet that was decided for.
    pub open spec fn planned(
        decision: CombinedBetDecision<E>,
        strategy: StakeSizingStrategy<E>,
        quote: KellyQuote<E>,
        zero: E,
    ) -> CombinedBetPlan<E> {
        match decision.action {
            CombinedBetAction::Skip { reason } => CombinedBetPlan {
                decision,
                quote: None,
                action: CombinedBetPlanAction::Skip {
                    reason: BetPlanSkipReason::Strategy(reason),
                },
            },
            CombinedBetAction::Place { bet } => CombinedBetPlan {
                decision,
                quote: Some(quote),
                action: match quote_refusal(strategy, quote, zero) {
                    Some(reason) => CombinedBetPlanAction::Skip { reason },
                    None => CombinedBetPlanAction::Place { bet, amount: quote.amount },
                },
            },
        }
    }

    /// Makes the plan of a decision; the quote is for the bet that was decided for and is not
    /// looked at where the decision was against betting.
    pub fn from_decision(
        decision: CombinedBetDecision<E>,
        strategy: StakeSizingStrategy<E>,
        quote: KellyQuote<E>,
        zero: E,
    ) -> (plan: CombinedBetPlan<E>)
        ensures
            order::comparable::<E>() ==> plan == Self::planned(decision, strategy, quote, zero),
    {
        match decision.action {
            CombinedBetAction::Skip { reason } => CombinedBetPlan {
                decision,
                quote: None,
                action: CombinedBetPlanAction::Skip {
                    reason: BetPlanSkipReason::Strategy(reason),
                },
            },
            CombinedBetAction::Place { bet } => CombinedBetPlan {
                decision,
                quote: Some(quote),
                action: match refuse_quote(strategy, quote, zero) {
                    Some(reason) => CombinedBetPlanAction::Skip { reason },
                    None => CombinedBetPlanAction::Place { bet, amount: quote.amount },
                },
            },
        }
    }

    /// The plan with another stake for the same bet: a bet that is left without a stake is not
    /// made, and a bet that is not made stays so.
    pub open spec fn with_stake(self, quote: KellyQuote<E>, zero: E) -> CombinedBetPlan<E> {
        if self.quote is None {
            self
        } else {
            CombinedBetPlan {
                decision: self.decision,
                quote: Some(quote),
                action: match self.action {
                    CombinedBetPlanAction::Place { bet, .. } => if order::above(
                        quote.amount,
                        zero,
                    ) {
                        CombinedBetPlanAction::Place { bet, amount: quote.amount }
                    } else {
                        CombinedBetPlanAction::Skip { reason: BetPlanSkipReason::RiskLimitIsZero }
                    },
                    skip => skip,
                },
            }
        }
    }

    /// Gives the plan another stake for the same bet.
    pub fn rescale(&mut self, quote: KellyQuote<E>, zero: E)
        ensures
            order::comparable::<E>() ==> *final(self) == old(self).with_stake(quote, zero),
    {
        if self.quote.is_none() {
            return ;
        }
        let action: CombinedBetPlanAction<E> = match self.action {
            CombinedBetPlanAction::Place { bet, amount: _ } => if order::is_above(
                quote.amount,
                zero,
            ) {
                CombinedBetPlanAction::Place { bet, amount: quote.amount }
            } else {
                CombinedBetPlanAction::Skip { reason: BetPlanSkipReason::RiskLimitIsZero }
            },
            skip => skip,
        };
        *self = CombinedBetPlan { decision: self.decision, quote: Some(quote), action };
    }

    /// The decision.
    pub fn decision(&self) -> (decision: &CombinedBetDecision<E>)
        ensures
            *decision == self.decision,
    {
        &self.decision
    }

    /// The stake; none where the decision was against betting.
    pub fn quote(self) -> (quote: Option<KellyQuote<E>>)
        ensures
            quote == self.quote,
    {
        self.quote
    }

    /// What to do.
    pub fn action(&self) -> (action: &CombinedBetPlanAction<E>)
        ensures
            *action == self.action,
    {
        &self.action
    }
}

} // verus!
