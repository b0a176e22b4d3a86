//! Kelly stakes: the fraction of a bankroll at which its expected logarithm grows fastest.

use vstd::prelude::*;

use crate::baccarat::bet::{MainBet, MainBetRules};
use crate::baccarat::distribution;
use crate::baccarat::distribution::{main_bet_results, side_bet_results, WeighedResult};
use crate::baccarat::ev;
use crate::baccarat::probability::OutcomeWeights;
use crate::baccarat::rebate::RebateRule;
use crate::baccarat::risk::{KellyError, KellyPolicy, KellyQuote, StakeSizingStrategy};
use crate::baccarat::side_bet::{SideBet, SideBetRules, SideBetWeights};
use crate::baccarat::strategy::BetTarget;
use crate::number;
use crate::number::Number;
use crate::order;
use crate::scale::Scale;

verus! {

/// How often the interval that holds the best fraction is halved.
pub const BISECTION_ITERATIONS: u32 = 100;

/// One of the exclusive results of a bet: its chance and its net profit per unit of stake.
#[derive(Debug, Clone, Copy, PartialEq, Eq)]
pub struct KellyOutcome<E> {
    pub probability: E,
    pub net_profit: E,
}

impl<E: Copy> KellyOutcome<E> {
    /// A result from its parts.
    pub fn new(probability: E, net_profit: E) -> (outcome: KellyOutcome<E>)
        ensures
            outcome == (KellyOutcome { probability, net_profit }),
    {
        KellyOutcome { probability, net_profit }
    }

    /// The chance of the result.
    pub fn probability(self) -> (probability: E)
        ensures
            probability == self.probability,
    {
        self.probability
    }

    /// The net profit per unit of stake, rebate included.
    pub fn net_profit(self) -> (profit: E)
        ensures
            profit == self.net_profit,
    {
        self.net_profit
    }
}

/// A weighed result as a chance and a net profit.
pub open spec fn as_outcome<E: Number>(result: WeighedResult<E>) -> KellyOutcome<E> {
    KellyOutcome {
        probability: number::share(result.weight as int, result.total as int),
        net_profit: number::sum(
            ev::net_profit(result.settlement),
            ev::rebate_rate(result.rebate),
        ),
    }
}

/// Weighed results as chances and net profits.
pub open spec fn as_outcomes<E: Number>(results: Seq<WeighedResult<E>>) -> Seq<KellyOutcome<E>> {
    results.map_values(|result: WeighedResult<E>| as_outcome(result))
}

fn outcomes_of<E: Number>(results: &Vec<WeighedResult<E>>) -> (outcomes: Vec<KellyOutcome<E>>)
    requires
        number::arithmetic::<E>(),
    ensures
        outcomes@ == as_outcomes(results@),
{
    let mut outcomes: Vec<KellyOutcome<E>> = Vec::new();
    let mut i: usize = 0;
    while i < results.len()
        invariant
            number::arithmetic::<E>(),
            i <= results.len(),
            outcomes@ == as_outcomes(results@.take(i as int)),
        decreases results.len() - i,
    {
        let result: WeighedResult<E> = results[i];
        let probability: E = number::share_of(result.weight, result.total);
        let net_profit: E = ev::profit_of(result.settlement) + ev::rate_of(result.rebate);
        outcomes.push(KellyOutcome { probability, net_profit });
        proof {
            assert(results@.take(i + 1) =~= results@.take(i as int).push(result));
            assert(as_outcomes(results@.take(i + 1)) =~= as_outcomes(results@.take(i as int)).push(
                as_outcome(result),
            ));
        }
        i = i + 1;
    }
    proof {
        assert(results@.take(i as int) =~= results@);
    }
    outcomes
}

/// Lists the results of a main bet.
pub fn main_bet_kelly_outcomes<E: Number>(
    weights: OutcomeWeights,
    rules: MainBetRules<E>,
    rebate: RebateRule<E>,
    bet: MainBet,
) -> (outcomes: Vec<KellyOutcome<E>>)
    requires
        number::arithmetic::<E>(),
    ensures
        outcomes@ == as_outcomes(distribution::main_distribution(weights@, rules, rebate, bet)),
{
    outcomes_of(&main_bet_results(weights, rules, rebate, bet))
}

/// Lists the results of a side bet without a rebate.
pub fn side_bet_kelly_outcomes<E: Number>(
    weights: SideBetWeights,
    rules: SideBetRules<E>,
    bet: SideBet,
) -> (outcomes: Vec<KellyOutcome<E>>)
    requires
        number::arithmetic::<E>(),
        weights.wins(bet) + weights.push(bet) <= weights.denominator(),
    ensures
        outcomes@ == as_outcomes(
            distribution::side_distribution(weights, rules, RebateRule::NoRebate, bet),
        ),
{
    side_bet_kelly_outcomes_with_rebate(weights, rules, RebateRule::NoRebate, bet)
}

/// Lists the results of a side bet, with the same rebate on each.
pub fn side_bet_kelly_outcomes_with_rebate<E: Number>(
    weights: SideBetWeights,
    rules: SideBetRules<E>,
    rebate: RebateRule<E>,
    bet: SideBet,
) -> (outcomes: Vec<KellyOutcome<E>>)
    requires
        number::arithmetic::<E>(),
        weights.wins(bet) + weights.push(bet) <= weights.denominator(),
    ensures
        outcomes@ == as_outcomes(distribution::side_distribution(weights, rules, rebate, bet)),
{
    outcomes_of(&side_bet_results(weights, rules, rebate, bet))
}

/// The chances of the first results together.
pub open spec fn probability_sum<E: Number>(outcomes: Seq<KellyOutcome<E>>, count: int) -> E
    decreases count,
{
    if count <= 0 {
        number::small::<E>(0)
    } else {
        number::sum(probability_sum(outcomes, count - 1), outcomes[count - 1].probability)
    }
}

/// The expected net profit of the first results per unit of stake.
pub open spec fn expected_profit<E: Number>(outcomes: Seq<KellyOutcome<E>>, count: int) -> E
    decreases count,
{
    if count <= 0 {
        number::small::<E>(0)
    } else {
        number::sum(
            expected_profit(outcomes, count - 1),
            number::product(outcomes[count - 1].probability, outcomes[count - 1].net_profit),
        )
    }
}

/// A millionth of a millionth.
pub open spec fn tolerance<E: Number>() -> E {
    number::quotient(number::small::<E>(1), number::whole::<E>(1_000_000_000_000))
}

/// The position of the first result whose chance is no amount or whose profit is not finite.
pub open spec fn first_invalid<E: Number>(
    scale: Scale<E>,
    outcomes: Seq<KellyOutcome<E>>,
    from: int,
) -> int
    decreases outcomes.len() - from,
{
    if from >= outcomes.len() {
        outcomes.len() as int
    } else if !scale.amount(outcomes[from].probability) || !scale.finite(
        outcomes[from].net_profit,
    ) {
        from
    } else {
        first_invalid(scale, outcomes, from + 1)
    }
}

/// What is wrong with a list of results, if anything is.
pub open spec fn outcomes_error<E: Number>(
    scale: Scale<E>,
    outcomes: Seq<KellyOutcome<E>>,
) -> Option<KellyError<E>> {
    let invalid = first_invalid(scale, outcomes, 0);
    let sum = probability_sum(outcomes, outcomes.len() as int);
    let excess = number::difference(sum, number::small::<E>(1));
    if outcomes.len() == 0 {
        Some(KellyError::EmptyOutcomes)
    } else if invalid < outcomes.len() {
        let outcome = outcomes[invalid];
        if !scale.amount(outcome.probability) {
            Some(
                KellyError::InvalidProbability {
                    index: invalid as usize,
                    value: outcome.probability,
                },
            )
        } else {
            Some(KellyError::InvalidNetProfit { index: invalid as usize, value: outcome.net_profit })
        }
    } else if order::above(excess, tolerance::<E>()) || order::above(
        number::difference(number::small::<E>(0), excess),
        tolerance::<E>(),
    ) {
        Some(KellyError::ProbabilitySumNotOne { actual: sum })
    } else {
        None
    }
}

/// Checks a list of results and gives its expected net profit per unit of stake.
pub fn validate_outcomes<E: Number>(scale: Scale<E>, outcomes: &Vec<KellyOutcome<E>>) -> (result:
    Result<E, KellyError<E>>)
    requires
        number::arithmetic::<E>(),
    ensures
        match result {
            Ok(profit) => outcomes_error(scale, outcomes@) is None && profit == expected_profit(
                outcomes@,
                outcomes@.len() as int,
            ),
            Err(error) => outcomes_error(scale, outcomes@) == Some(error),
        },
{
    if outcomes.len() == 0 {
        return Err(KellyError::EmptyOutcomes);
    }
    let mut sum: E = E::from(0u32);
    let mut profit: E = E::from(0u32);
    let mut index: usize = 0;
    while index < outcomes.len()
        invariant
            number::arithmetic::<E>(),
            index <= outcomes.len(),
            sum == probability_sum(outcomes@, index as int),
            profit == expected_profit(outcomes@, index as int),
            first_invalid(scale, outcomes@, 0) == first_invalid(scale, outcomes@, index as int),
        decreases outcomes.len() - index,
    {
        let outcome: KellyOutcome<E> = outcomes[index];
        if !scale.is_amount(outcome.probability) {
            return Err(KellyError::InvalidProbability { index, value: outcome.probability });
        }
        if !scale.is_finite(outcome.net_profit) {
            return Err(KellyError::InvalidNetProfit { index, value: outcome.net_profit });
        }
        sum = sum + outcome.probability;
        profit = profit + outcome.probability * outcome.net_profit;
        index = index + 1;
    }
    let one: E = E::from(1u32);
    let tolerance: E = one / number::number_of::<E>(1_000_000_000_000);
    let excess: E = sum - one;
    let lack: E = E::from(0u32) - excess;
    if order::is_above(excess, tolerance) || order::is_above(lack, tolerance) {
        return Err(KellyError::ProbabilitySumNotOne { actual: sum });
    }
    Ok(profit)
}

/// How fast the expected logarithm of the bankroll grows with the fraction at stake: the sum of
/// `probability * net_profit / (1 + fraction * net_profit)` over the first results.
pub open spec fn growth<E: Number>(
    outcomes: Seq<KellyOutcome<E>>,
    fraction: E,
    count: int,
) -> E
    decreases count,
{
    if count <= 0 {
        number::small::<E>(0)
    } else {
        let outcome = outcomes[count - 1];
        number::sum(
            growth(outcomes, fraction, count - 1),
            number::quotient(
                number::product(outcome.probability, outcome.net_profit),
                number::sum(
                    number::small::<E>(1),
                    number::product(fraction, outcome.net_profit),
                ),
            ),
        )
    }
}

/// The growth at a fraction over all results.
pub open spec fn slope<E: Number>(outcomes: Seq<KellyOutcome<E>>, fraction: E) -> E {
    growth(outcomes, fraction, outcomes.len() as int)
}

fn growth_derivative<E: Number>(outcomes: &Vec<KellyOutcome<E>>, fraction: E) -> (growth: E)
    requires
        number::arithmetic::<E>(),
    ensures
        growth == slope(outcomes@, fraction),
{
    let one: E = E::from(1u32);
    let mut growth: E = E::from(0u32);
    let mut i: usize = 0;
    while i < outcomes.len()
        invariant
            number::arithmetic::<E>(),
            i <= outcomes.len(),
            one == number::small::<E>(1),
            growth == self::growth(outcomes@, fraction, i as int),
        decreases outcomes.len() - i,
    {
        let outcome: KellyOutcome<E> = outcomes[i];
        growth = growth + outcome.probability * outcome.net_profit / (one + fraction
            * outcome.net_profit);
        i = i + 1;
    }
    growth
}

/// Whether a result may occur and loses money.
pub open spec fn is_loss<E: Number>(outcome: KellyOutcome<E>) -> bool {
    order::above(outcome.probability, number::small::<E>(0)) && order::above(
        number::small::<E>(0),
        outcome.net_profit,
    )
}

/// The least fraction at which one of the first results would leave nothing of the bankroll;
/// none where no result loses money.
pub open spec fn ruin<E: Number>(outcomes: Seq<KellyOutcome<E>>, count: int) -> Option<E>
    decreases count,
{
    if count <= 0 {
        None
    } else {
        let before = ruin(outcomes, count - 1);
        let outcome = outcomes[count - 1];
        if is_loss(outcome) {
            let fraction = number::quotient(ev::minus_one::<E>(), outcome.net_profit);
            match before {
                Some(least) => Some(order::lower(least, fraction)),
                None => Some(fraction),
            }
        } else {
            before
        }
    }
}

fn ruin_of<E: Number>(outcomes: &Vec<KellyOutcome<E>>) -> (least: Option<E>)
    requires
        number::arithmetic::<E>(),
    ensures
        least == ruin(outcomes@, outcomes@.len() as int),
{
    let zero: E = E::from(0u32);
    let minus_one: E = zero - E::from(1u32);
    let mut least: Option<E> = None;
    let mut i: usize = 0;
    while i < outcomes.len()
        invariant
            number::arithmetic::<E>(),
            i <= outcomes.len(),
            zero == number::small::<E>(0),
            minus_one == ev::minus_one::<E>(),
            least == ruin(outcomes@, i as int),
        decreases outcomes.len() - i,
    {
        let outcome: KellyOutcome<E> = outcomes[i];
        if order::is_above(outcome.probability, zero) && order::is_above(zero, outcome.net_profit) {
            let fraction: E = minus_one / outcome.net_profit;
            least = match least {
                Some(before) => Some(order::lower_of(before, fraction)),
                None => Some(fraction),
            };
        }
        i = i + 1;
    }
    least
}

/// The largest fraction that is searched: the allowed one, kept just below ruin.
pub open spec fn search_limit<E: Number>(
    scale: Scale<E>,
    outcomes: Seq<KellyOutcome<E>>,
    max_fraction: E,
) -> E {
    match ruin(outcomes, outcomes.len() as int) {
        Some(least) => if scale.finite(least) {
            order::lower(
                max_fraction,
                number::product(
                    least,
                    number::difference(number::small::<E>(1), tolerance::<E>()),
                ),
            )
        } else {
            max_fraction
        },
        None => max_fraction,
    }
}

/// The middle of two fractions.
pub open spec fn middle<E: Number>(lower: E, upper: E) -> E {
    number::quotient(number::sum(lower, upper), number::small::<E>(2))
}

/// The interval that is left after halving one: the half in which growth turns.
pub open spec fn narrowed<E: Number>(
    outcomes: Seq<KellyOutcome<E>>,
    lower: E,
    upper: E,
    steps: nat,
) -> (E, E)
    decreases steps,
{
    if steps == 0 {
        (lower, upper)
    } else {
        let (low, high) = narrowed(outcomes, lower, upper, (steps - 1) as nat);
        let half = middle(low, high);
        if order::above(slope(outcomes, half), number::small::<E>(0)) {
            (half, high)
        } else {
            (low, half)
        }
    }
}

/// The fraction at which the bankroll grows fastest, up to the allowed one.
pub open spec fn best_fraction<E: Number>(
    scale: Scale<E>,
    outcomes: Seq<KellyOutcome<E>>,
    max_fraction: E,
) -> E {
    let zero = number::small::<E>(0);
    let upper = search_limit(scale, outcomes, max_fraction);
    if !order::above(max_fraction, zero) || order::reaches(
        zero,
        expected_profit(outcomes, outcomes.len() as int),
    ) || order::reaches(zero, upper) {
        zero
    } else if order::reaches(slope(outcomes, upper), zero) {
        upper
    } else {
        let (low, high) = narrowed(outcomes, zero, upper, BISECTION_ITERATIONS as nat);
        middle(low, high)
    }
}

/// A bankroll that is not staked at once at the allowed limit is staked in the middle of an
/// interval over which growth turns: at its lower end the bankroll still grows with the fraction,
/// or nothing is staked there, and at its upper end it does not.
pub proof fn lemma_growth_turns_at_the_best_fraction<E: Number>(
    outcomes: Seq<KellyOutcome<E>>,
    upper: E,
    steps: nat,
)
    requires
        !order::reaches(slope(outcomes, upper), number::small::<E>(0)),
    ensures
        ({
            let (low, high) = narrowed(outcomes, number::small::<E>(0), upper, steps);
            &&& low == number::small::<E>(0) || order::above(
                slope(outcomes, low),
                number::small::<E>(0),
            )
            &&& !order::above(slope(outcomes, high), number::small::<E>(0))
        }),
    decreases steps,
{
    if steps > 0 {
        lemma_growth_turns_at_the_best_fraction(outcomes, upper, (steps - 1) as nat);
    }
}

/// Whether the middle of two numbers lies between them, as it does for all floating-point numbers
/// whose sums are finite.
pub open spec fn halvable<E: Number>(ordered: Set<E>) -> bool {
    forall|a: E, b: E|
        #![trigger middle(a, b)]
        ordered.contains(a) && ordered.contains(b) && !order::above(a, b) ==> {
            &&& ordered.contains(middle(a, b))
            &&& !order::above(a, middle(a, b))
            &&& !order::above(middle(a, b), b)
        }
}

proof fn lemma_narrowed_within<E: Number>(
    outcomes: Seq<KellyOutcome<E>>,
    upper: E,
    steps: nat,
    ordered: Set<E>,
)
    requires
        order::linear(ordered),
        halvable(ordered),
        ordered.contains(number::small::<E>(0)),
        ordered.contains(upper),
        !order::above(number::small::<E>(0), upper),
    ensures
        ({
            let zero = number::small::<E>(0);
            let (low, high) = narrowed(outcomes, zero, upper, steps);
            &&& ordered.contains(low)
            &&& ordered.contains(high)
            &&& !order::above(zero, low)
            &&& !order::above(low, high)
            &&& !order::above(high, upper)
        }),
    decreases steps,
{
    let zero = number::small::<E>(0);
    if steps > 0 {
        lemma_narrowed_within(outcomes, upper, (steps - 1) as nat, ordered);
        let (low, high) = narrowed(outcomes, zero, upper, (steps - 1) as nat);
        let half = middle(low, high);
        assert(!order::above(low, half) && !order::above(half, high));
        assert(!order::above(zero, half));
        assert(!order::above(half, upper));
    } else {
        assert(order::above(zero, zero) ==> !order::above(zero, zero));
        assert(order::above(upper, upper) ==> !order::above(upper, upper));
    }
}

/// In a linear order in which the middle of two numbers lies between them, the best fraction is
/// neither below zero nor above the allowed one.
pub proof fn lemma_fraction_within_its_limits<E: Number>(
    scale: Scale<E>,
    outcomes: Seq<KellyOutcome<E>>,
    max_fraction: E,
    ordered: Set<E>,
)
    requires
        order::linear(ordered),
        halvable(ordered),
        ordered.contains(number::small::<E>(0)),
        ordered.contains(max_fraction),
        ordered.contains(search_limit(scale, outcomes, max_fraction)),
        !order::above(number::small::<E>(0), max_fraction),
    ensures
        !order::above(number::small::<E>(0), best_fraction(scale, outcomes, max_fraction)),
        !order::above(best_fraction(scale, outcomes, max_fraction), max_fraction),
{
    let zero = number::small::<E>(0);
    let upper = search_limit(scale, outcomes, max_fraction);
    assert(order::above(zero, zero) ==> !order::above(zero, zero));
    assert(order::above(max_fraction, max_fraction) ==> !order::above(max_fraction, max_fraction));
    assert(!order::above(upper, max_fraction)) by {
        if upper != max_fraction {
            assert(!order::reaches(upper, max_fraction));
            assert(order::above(max_fraction, upper));
        }
    }
    if !order::reaches(zero, upper) {
        assert(order::above(upper, zero));
        assert(!order::above(zero, upper));
        lemma_narrowed_within(outcomes, upper, BISECTION_ITERATIONS as nat, ordered);
        let (low, high) = narrowed(outcomes, zero, upper, BISECTION_ITERATIONS as nat);
        let half = middle(low, high);
        assert(!order::above(low, half) && !order::above(half, high));
        assert(!order::above(zero, half));
        assert(!order::above(half, upper));
        assert(!order::above(half, max_fraction));
    }
}

/// Nothing is staked on a bet with no expected profit.
pub proof fn lemma_no_profit_no_stake<E: Number>(
    scale: Scale<E>,
    outcomes: Seq<KellyOutcome<E>>,
    max_fraction: E,
)
    requires
        order::reaches(number::small::<E>(0), expected_profit(outcomes, outcomes.len() as int)),
    ensures
        best_fraction(scale, outcomes, max_fraction) == number::small::<E>(0),
{
}

fn search_fraction<E: Number>(
    scale: Scale<E>,
    outcomes: &Vec<KellyOutcome<E>>,
    profit: E,
    max_fraction: E,
) -> (fraction: E)
    requires
        number::arithmetic::<E>(),
        profit == expected_profit(outcomes@, outcomes@.len() as int),
    ensures
        fraction == best_fraction(scale, outcomes@, max_fraction),
{
    let zero: E = E::from(0u32);
    let one: E = E::from(1u32);
    let two: E = E::from(2u32);
    let mut upper: E = max_fraction;
    if let Some(least) = ruin_of(outcomes) {
        if scale.is_finite(least) {
            let margin: E = one - one / number::number_of::<E>(1_000_000_000_000);
            upper = order::lower_of(max_fraction, least * margin);
        }
    }
    if !order::is_above(max_fraction, zero) || order::has_reached(zero, profit)
        || order::has_reached(zero, upper) {
        return zero;
    }
    if order::has_reached(growth_derivative(outcomes, upper), zero) {
        return upper;
    }
    let ghost limit = upper;
    let mut lower: E = zero;
    let mut step: u32 = 0;
    while step < BISECTION_ITERATIONS
        invariant
            number::arithmetic::<E>(),
            step <= BISECTION_ITERATIONS,
            zero == number::small::<E>(0),
            two == number::small::<E>(2),
            (lower, upper) == narrowed(outcomes@, zero, limit, step as nat),
        decreases BISECTION_ITERATIONS - step,
    {
        let half: E = (lower + upper) / two;
        if order::is_above(growth_derivative(outcomes, half), zero) {
            lower = half;
        } else {
            upper = half;
        }
        step = step + 1;
    }
    (lower + upper) / two
}

/// Finds the fraction at which the bankroll grows fastest, up to the allowed one.
pub fn calculate_kelly_fraction<E: Number>(
    scale: Scale<E>,
    outcomes: &Vec<KellyOutcome<E>>,
    max_fraction: E,
) -> (result: Result<E, KellyError<E>>)
    requires
        number::arithmetic::<E>(),
    ensures
        match result {
            Ok(fraction) => scale.fraction(max_fraction) && outcomes_error(
                scale,
                outcomes@,
            ) is None && fraction == best_fraction(scale, outcomes@, max_fraction),
            Err(error) => if !scale.fraction(max_fraction) {
                error == (KellyError::InvalidMaxFraction { value: max_fraction })
            } else {
                outcomes_error(scale, outcomes@) == Some(error)
            },
        },
{
    if !scale.is_fraction(max_fraction) {
        return Err(KellyError::InvalidMaxFraction { value: max_fraction });
    }
    match validate_outcomes(scale, outcomes) {
        Ok(profit) => Ok(search_fraction(scale, outcomes, profit, max_fraction)),
        Err(error) => Err(error),
    }
}

/// The variance of the first results around a mean, per unit of stake.
pub open spec fn variance<E: Number>(
    outcomes: Seq<KellyOutcome<E>>,
    mean: E,
    count: int,
) -> E
    decreases count,
{
    if count <= 0 {
        number::small::<E>(0)
    } else {
        let outcome = outcomes[count - 1];
        let deviation = number::difference(outcome.net_profit, mean);
        number::sum(
            variance(outcomes, mean, count - 1),
            number::product(number::product(outcome.probability, deviation), deviation),
        )
    }
}

fn variance_of<E: Number>(outcomes: &Vec<KellyOutcome<E>>, mean: E) -> (variance: E)
    requires
        number::arithmetic::<E>(),
    ensures
        variance == self::variance(outcomes@, mean, outcomes@.len() as int),
{
    let mut variance: E = E::from(0u32);
    let mut i: usize = 0;
    while i < outcomes.len()
        invariant
            number::arithmetic::<E>(),
            i <= outcomes.len(),
            variance == self::variance(outcomes@, mean, i as int),
        decreases outcomes.len() - i,
    {
        let outcome: KellyOutcome<E> = outcomes[i];
        let deviation: E = outcome.net_profit - mean;
        variance = variance + outcome.probability * deviation * deviation;
        i = i + 1;
    }
    variance
}

impl<E: Number> StakeSizingStrategy<E> {
    /// The fraction of the bankroll that the strategy asks for. The deviation is the square root
    /// of the variance.
    pub open spec fn wanted_fraction(
        self,
        kelly: E,
        bankroll: E,
        effective_ev: E,
        variance: E,
        deviation: E,
    ) -> E {
        let zero = number::small::<E>(0);
        let one = number::small::<E>(1);
        match self {
            StakeSizingStrategy::FullKelly => kelly,
            StakeSizingStrategy::HalfKelly => number::product(
                kelly,
                number::quotient(one, number::small::<E>(2)),
            ),
            StakeSizingStrategy::QuarterKelly => number::product(
                kelly,
                number::quotient(one, number::small::<E>(4)),
            ),
            StakeSizingStrategy::CustomKelly { fraction } => number::product(kelly, fraction),
            StakeSizingStrategy::Fixed { amount } => number::quotient(amount, bankroll),
            StakeSizingStrategy::FixedBankrollFraction { fraction } => fraction,
            StakeSizingStrategy::TargetExpectedProfit { amount } => if order::above(
                effective_ev,
                zero,
            ) {
                number::quotient(amount, number::product(bankroll, effective_ev))
            } else {
                zero
            },
            StakeSizingStrategy::TargetVolatility { fraction } => if order::above(variance, zero) {
                number::quotient(fraction, deviation)
            } else {
                zero
            },
        }
    }

    /// Whether a number is what the strategy asks for, with `root` for the square root.
    pub open spec fn wants<F: Fn(E) -> E>(
        self,
        kelly: E,
        bankroll: E,
        outcomes: Seq<KellyOutcome<E>>,
        root: F,
        wanted: E,
    ) -> bool {
        let mean = expected_profit(outcomes, outcomes.len() as int);
        let spread = variance(outcomes, mean, outcomes.len() as int);
        if self is TargetVolatility && order::above(spread, number::small::<E>(0)) {
            exists|deviation: E|
                call_ensures(root, (spread,), deviation) && wanted
                    == #[trigger] self.wanted_fraction(kelly, bankroll, mean, spread, deviation)
        } else {
            wanted == self.wanted_fraction(kelly, bankroll, mean, spread, mean)
        }
    }

    fn target_fraction<F: Fn(E) -> E>(
        self,
        kelly: E,
        bankroll: E,
        effective_ev: E,
        outcomes: &Vec<KellyOutcome<E>>,
        root: &F,
    ) -> (wanted: E)
        requires
            number::arithmetic::<E>(),
            effective_ev == expected_profit(outcomes@, outcomes@.len() as int),
            forall|x: E| #[trigger] call_requires(*root, (x,)),
        ensures
            self.wants(kelly, bankroll, outcomes@, *root, wanted),
    {
        let zero: E = E::from(0u32);
        let one: E = E::from(1u32);
        match self {
            StakeSizingStrategy::FullKelly => kelly,
            StakeSizingStrategy::HalfKelly => kelly * (one / E::from(2u32)),
            StakeSizingStrategy::QuarterKelly => kelly * (one / E::from(4u32)),
            StakeSizingStrategy::CustomKelly { fraction } => kelly * fraction,
            StakeSizingStrategy::Fixed { amount } => amount / bankroll,
            StakeSizingStrategy::FixedBankrollFraction { fraction } => fraction,
            StakeSizingStrategy::TargetExpectedProfit { amount } => if order::is_above(
                effective_ev,
                zero,
            ) {
                amount / (bankroll * effective_ev)
            } else {
                zero
            },
            StakeSizingStrategy::TargetVolatility { fraction } => {
                let spread: E = variance_of(outcomes, effective_ev);
                if order::is_above(spread, zero) {
                    let deviation: E = root(spread);
                    let wanted: E = fraction / deviation;
                    proof {
                        assert(wanted == self.wanted_fraction(
                            kelly,
                            bankroll,
                            effective_ev,
                            spread,
                            deviation,
                        ));
                    }
                    wanted
                } else {
                    zero
                }
            },
        }
    }
}

/// What keeps a stake from being quoted, if anything does.
pub open spec fn quote_error<E: Number>(
    scale: Scale<E>,
    outcomes: Seq<KellyOutcome<E>>,
    bankroll: E,
) -> Option<KellyError<E>> {
    if !scale.positive(bankroll) {
        Some(KellyError::InvalidBankroll { value: bankroll })
    } else {
        outcomes_error(scale, outcomes)
    }
}

/// The quote for a stake that is wanted as a fraction of the bankroll.
pub open spec fn quote_for<E: Number>(
    policy: KellyPolicy<E>,
    target: BetTarget,
    effective_ev: E,
    kelly: E,
    wanted: E,
    bankroll: E,
) -> KellyQuote<E> {
    let amount = policy.capped(
        target,
        number::product(bankroll, order::lower(wanted, policy.max_fraction)),
        bankroll,
    );
    KellyQuote {
        bet: target,
        effective_ev,
        kelly_fraction: kelly,
        strategy_fraction: wanted,
        applied_fraction: number::quotient(amount, bankroll),
        amount,
        expected_profit: number::product(amount, effective_ev),
    }
}

/// Whether a quote is right for the results of a bet.
pub open spec fn is_quote<E: Number, F: Fn(E) -> E>(
    policy: KellyPolicy<E>,
    scale: Scale<E>,
    target: BetTarget,
    outcomes: Seq<KellyOutcome<E>>,
    bankroll: E,
    root: F,
    quote: KellyQuote<E>,
) -> bool {
    let kelly = best_fraction(scale, outcomes, number::small::<E>(1));
    &&& policy.strategy.wants(kelly, bankroll, outcomes, root, quote.strategy_fraction)
    &&& quote == quote_for(
        policy,
        target,
        expected_profit(outcomes, outcomes.len() as int),
        kelly,
        quote.strategy_fraction,
        bankroll,
    )
}

impl<E: Number> KellyPolicy<E> {
    /// Quotes the stake for a bet with the given results: what the strategy asks for, lowered to
    /// every limit. `root` is the square root, which only a volatility target needs.
    pub fn quote_outcomes<F: Fn(E) -> E>(
        self,
        scale: Scale<E>,
        target: BetTarget,
        outcomes: &Vec<KellyOutcome<E>>,
        bankroll: E,
        root: &F,
    ) -> (result: Result<KellyQuote<E>, KellyError<E>>)
        requires
            number::arithmetic::<E>(),
            forall|x: E| #[trigger] call_requires(*root, (x,)),
        ensures
            match result {
                Ok(quote) => quote_error(scale, outcomes@, bankroll) is None && is_quote(
                    self,
                    scale,
                    target,
                    outcomes@,
                    bankroll,
                    *root,
                    quote,
                ),
                Err(error) => quote_error(scale, outcomes@, bankroll) == Some(error),
            },
    {
        if !scale.is_positive(bankroll) {
            return Err(KellyError::InvalidBankroll { value: bankroll });
        }
        let effective_ev: E = match validate_outcomes(scale, outcomes) {
            Ok(profit) => profit,
            Err(error) => {
                return Err(error);
            },
        };
        let kelly: E = search_fraction(scale, outcomes, effective_ev, E::from(1u32));
        let wanted: E = self.strategy.target_fraction(
            kelly,
            bankroll,
            effective_ev,
            outcomes,
            root,
        );
        let fraction: E = order::lower_of(wanted, self.max_fraction);
        let amount: E = self.cap(target, bankroll * fraction, bankroll);
        Ok(
            KellyQuote {
                bet: target,
                effective_ev,
                kelly_fraction: kelly,
                strategy_fraction: wanted,
                applied_fraction: amount / bankroll,
                amount,
                expected_profit: amount * effective_ev,
            },
        )
    }

    /// Quotes the stake for a main bet.
    pub fn quote<F: Fn(E) -> E>(
        self,
        scale: Scale<E>,
        weights: OutcomeWeights,
        rules: MainBetRules<E>,
        rebate: RebateRule<E>,
        bet: MainBet,
        bankroll: E,
        root: &F,
    ) -> (result: Result<KellyQuote<E>, KellyError<E>>)
        requires
            number::arithmetic::<E>(),
            forall|x: E| #[trigger] call_requires(*root, (x,)),
        ensures
            ({
                let outcomes = as_outcomes(
                    distribution::main_distribution(weights@, rules, rebate, bet),
                );
                match result {
                    Ok(quote) => quote_error(scale, outcomes, bankroll) is None && is_quote(
                        self,
                        scale,
                        BetTarget::Main(bet),
                        outcomes,
                        bankroll,
                        *root,
                        quote,
                    ),
                    Err(error) => quote_error(scale, outcomes, bankroll) == Some(error),
                }
            }),
    {
        let outcomes: Vec<KellyOutcome<E>> = main_bet_kelly_outcomes(weights, rules, rebate, bet);
        self.quote_outcomes(scale, BetTarget::Main(bet), &outcomes, bankroll, root)
    }

    /// Quotes the stake for a side bet without a rebate.
    pub fn quote_side<F: Fn(E) -> E>(
        self,
        scale: Scale<E>,
        weights: SideBetWeights,
        rules: SideBetRules<E>,
        bet: SideBet,
        bankroll: E,
        root: &F,
    ) -> (result: Result<KellyQuote<E>, KellyError<E>>)
        requires
            number::arithmetic::<E>(),
            weights.wins(bet) + weights.push(bet) <= weights.denominator(),
            forall|x: E| #[trigger] call_requires(*root, (x,)),
        ensures
            ({
                let outcomes = as_outcomes(
                    distribution::side_distribution(weights, rules, RebateRule::NoRebate, bet),
                );
                match result {
                    Ok(quote) => quote_error(scale, outcomes, bankroll) is None && is_quote(
                        self,
                        scale,
                        BetTarget::Side(bet),
                        outcomes,
                        bankroll,
                        *root,
                        quote,
                    ),
                    Err(error) => quote_error(scale, outcomes, bankroll) == Some(error),
                }
            }),
    {
        self.quote_side_with_rebate(
            scale,
            weights,
            rules,
            RebateRule::NoRebate,
            bet,
            bankroll,
            root,
        )
    }

    /// Quotes the stake for a side bet, with the same rebate on each of its results.
    pub fn quote_side_with_rebate<F: Fn(E) -> E>(
        self,
        scale: Scale<E>,
        weights: SideBetWeights,
        rules: SideBetRules<E>,
        rebate: RebateRule<E>,
        bet: SideBet,
        bankroll: E,
        root: &F,
    ) -> (result: Result<KellyQuote<E>, KellyError<E>>)
        requires
            number::arithmetic::<E>(),
            weights.wins(bet) + weights.push(bet) <= weights.denominator(),
            forall|x: E| #[trigger] call_requires(*root, (x,)),
        ensures
            ({
                let outcomes = as_outcomes(
                    distribution::side_distribution(weights, rules, rebate, bet),
                );
                match result {
                    Ok(quote) => quote_error(scale, outcomes, bankroll) is None && is_quote(
                        self,
                        scale,
                        BetTarget::Side(bet),
                        outcomes,
                        bankroll,
                        *root,
                        quote,
                    ),
                    Err(error) => quote_error(scale, outcomes, bankroll) == Some(error),
                }
            }),
    {
        let outcomes: Vec<KellyOutcome<E>> = side_bet_kelly_outcomes_with_rebate(
            weights,
            rules,
            rebate,
            bet,
        );
        self.quote_outcomes(scale, BetTarget::Side(bet), &outcomes, bankroll, root)
    }
}

} // verus!
