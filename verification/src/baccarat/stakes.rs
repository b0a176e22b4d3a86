//! Laws of the stakes: what each way to choose a stake asks for, which limits apply, and where the
//! bankroll grows fastest, where numbers are exact.

use vstd::prelude::*;

use crate::baccarat::kelly;
use crate::baccarat::kelly::KellyOutcome;
use crate::baccarat::risk::{KellyPolicy, KellyQuote, StakeSizingStrategy};
use crate::baccarat::strategy::BetTarget;
use crate::exact;
use crate::exact::exact;
use crate::number;
use crate::number::Number;
use crate::order;
use crate::scale::Scale;

verus! {

/// Whether `root` gives square roots that are not negative.
pub open spec fn takes_roots<E: Number, F: Fn(E) -> E>(value: spec_fn(E) -> real, root: F) -> bool {
    forall|x: E, y: E| #[trigger]
        call_ensures(root, (x,), y) && value(x) >= 0 as real ==> value(y) >= 0 as real && value(y)
            * value(y) == value(x)
}

/// The sum over results of their chance times a number.
pub open spec fn mean_of<E: Number>(
    value: spec_fn(E) -> real,
    outcomes: Seq<KellyOutcome<E>>,
    number: spec_fn(real) -> real,
    count: int,
) -> real
    decreases count,
{
    if count <= 0 {
        0 as real
    } else {
        mean_of(value, outcomes, number, count - 1) + value(outcomes[count - 1].probability)
            * number(value(outcomes[count - 1].net_profit))
    }
}

/// The profits of the results, weighed by their chances.
pub open spec fn mean_profit<E: Number>(
    value: spec_fn(E) -> real,
    outcomes: Seq<KellyOutcome<E>>,
) -> real {
    mean_of(value, outcomes, |x: real| x, outcomes.len() as int)
}

/// The squares of the profits, weighed by their chances.
pub open spec fn mean_square<E: Number>(
    value: spec_fn(E) -> real,
    outcomes: Seq<KellyOutcome<E>>,
) -> real {
    mean_of(value, outcomes, |x: real| x * x, outcomes.len() as int)
}

/// The chances of all results.
pub open spec fn all_chances<E: Number>(
    value: spec_fn(E) -> real,
    outcomes: Seq<KellyOutcome<E>>,
) -> real {
    mean_of(value, outcomes, |x: real| 1 as real, outcomes.len() as int)
}

/// The expected profit is the mean of the profits.
pub proof fn lemma_expected_profit<E: Number>(
    value: spec_fn(E) -> real,
    outcomes: Seq<KellyOutcome<E>>,
    n: int,
)
    requires
        exact(value),
        0 <= n <= outcomes.len(),
    ensures
        value(kelly::expected_profit(outcomes, n)) == mean_of(value, outcomes, |x: real| x, n),
        value(kelly::probability_sum(outcomes, n)) == mean_of(
            value,
            outcomes,
            |x: real| 1 as real,
            n,
        ),
    decreases n,
{
    if n > 0 {
        lemma_expected_profit(value, outcomes, n - 1);
        let p = value(outcomes[n - 1].probability);
        assert(p * (1 as real) == p) by (nonlinear_arith);
    }
}

proof fn lemma_variance<E: Number>(
    value: spec_fn(E) -> real,
    outcomes: Seq<KellyOutcome<E>>,
    mean: E,
    n: int,
)
    requires
        exact(value),
        0 <= n <= outcomes.len(),
    ensures
        value(kelly::variance(outcomes, mean, n)) == mean_of(
            value,
            outcomes,
            |x: real| x * x,
            n,
        ) - 2 as real * value(mean) * mean_of(value, outcomes, |x: real| x, n) + value(mean)
            * value(mean) * mean_of(value, outcomes, |x: real| 1 as real, n),
    decreases n,
{
    let m = value(mean);
    if n > 0 {
        lemma_variance(value, outcomes, mean, n - 1);
        let p = value(outcomes[n - 1].probability);
        let x = value(outcomes[n - 1].net_profit);
        let a = mean_of(value, outcomes, |x: real| x * x, n - 1);
        let b = mean_of(value, outcomes, |x: real| x, n - 1);
        let c = mean_of(value, outcomes, |x: real| 1 as real, n - 1);
        let v = value(kelly::variance(outcomes, mean, n - 1));
        lemma_square(p, x, m);
        exact::lemma_distribute(2 as real * m, b, p * x);
        exact::lemma_distribute(m * m, c, p * (1 as real));
        assert(p * (1 as real) == p);
    } else {
        assert((2 as real * m) * (0 as real) == 0 as real);
        assert((m * m) * (0 as real) == 0 as real);
    }
}

proof fn lemma_square(p: real, x: real, m: real)
    ensures
        (p * (x - m)) * (x - m) == p * (x * x) - (2 as real * m) * (p * x) + (m * m) * p,
{
    exact::lemma_distribute(p, x, m);
    let a = p * x;
    let b = p * m;
    exact::lemma_distribute(x - m, a, b);
    exact::lemma_distribute(a, x, m);
    exact::lemma_distribute(b, x, m);
    assert((p * x) * x == p * (x * x)) by (nonlinear_arith);
    assert((p * x) * m == m * (p * x)) by (nonlinear_arith);
    assert((p * m) * x == m * (p * x)) by (nonlinear_arith);
    assert((p * m) * m == (m * m) * p) by (nonlinear_arith);
    assert((2 as real * m) * (p * x) == m * (p * x) + m * (p * x)) by (nonlinear_arith);
}

/// The expected profit is the mean of the profits, and the variance around it is the mean of
/// their squares less the square of their mean.
pub proof fn lemma_moments<E: Number>(value: spec_fn(E) -> real, outcomes: Seq<KellyOutcome<E>>)
    requires
        exact(value),
        all_chances(value, outcomes) == 1 as real,
    ensures
        ({
            let n = outcomes.len() as int;
            let mean = kelly::expected_profit(outcomes, n);
            &&& value(kelly::probability_sum(outcomes, n)) == 1 as real
            &&& value(mean) == mean_profit(value, outcomes)
            &&& value(kelly::variance(outcomes, mean, n)) == mean_square(value, outcomes)
                - mean_profit(value, outcomes) * mean_profit(value, outcomes)
        }),
{
    let n = outcomes.len() as int;
    let mean = kelly::expected_profit(outcomes, n);
    lemma_expected_profit(value, outcomes, n);
    lemma_variance(value, outcomes, mean, n);
    let m = value(mean);
    let a = mean_square(value, outcomes);
    assert((2 as real * m) * m == m * m + m * m) by (nonlinear_arith);
    assert((m * m) * (1 as real) == m * m);
}

proof fn lemma_parts(k: real, a: real, b: real)
    ensures
        k * (a + b) == k * a + k * b,
{
    exact::lemma_distribute(k, a, b);
}

/// What each way to choose a stake asks for: all, half or a quarter of the Kelly fraction or a
/// given part of it; a stake of a given amount or a given part of the bankroll; a stake with a
/// given expected profit; and a stake with a given standard deviation.
pub proof fn lemma_what_strategies_ask_for<E: Number, F: Fn(E) -> E>(
    value: spec_fn(E) -> real,
    policy: KellyPolicy<E>,
    scale: Scale<E>,
    target: BetTarget,
    outcomes: Seq<KellyOutcome<E>>,
    bankroll: E,
    root: F,
    quote: KellyQuote<E>,
)
    requires
        exact(value),
        takes_roots(value, root),
        all_chances(value, outcomes) == 1 as real,
        value(bankroll) > 0 as real,
        kelly::is_quote(policy, scale, target, outcomes, bankroll, root, quote),
    ensures
        ({
            let asked = value(quote.strategy_fraction);
            let whole = value(quote.kelly_fraction);
            let mean = mean_profit(value, outcomes);
            let spread = mean_square(value, outcomes) - mean * mean;
            match policy.strategy {
                StakeSizingStrategy::FullKelly => asked == whole,
                StakeSizingStrategy::HalfKelly => asked + asked == whole,
                StakeSizingStrategy::QuarterKelly => asked + asked + asked + asked == whole,
                StakeSizingStrategy::CustomKelly { fraction } => asked == value(fraction) * whole,
                StakeSizingStrategy::Fixed { amount } => asked * value(bankroll) == value(amount),
                StakeSizingStrategy::FixedBankrollFraction { fraction } => asked == value(fraction),
                StakeSizingStrategy::TargetExpectedProfit { amount } => if mean > 0 as real {
                    (asked * value(bankroll)) * mean == value(amount)
                } else {
                    asked == 0 as real
                },
                StakeSizingStrategy::TargetVolatility { fraction } => if spread > 0 as real {
                    asked * asked * spread == value(fraction) * value(fraction) && (value(fraction)
                        >= 0 as real ==> asked >= 0 as real)
                } else {
                    asked == 0 as real
                },
            }
        }),
{
    let n = outcomes.len() as int;
    lemma_moments(value, outcomes);
    let mean = kelly::expected_profit(outcomes, n);
    let spread = kelly::variance(outcomes, mean, n);
    let zero = number::small::<E>(0);
    let one = number::small::<E>(1);
    let k = value(quote.kelly_fraction);
    let w = value(quote.strategy_fraction);
    assert(order::above(mean, zero) <==> value(mean) > 0 as real);
    assert(order::above(spread, zero) <==> value(spread) > 0 as real);
    match policy.strategy {
        StakeSizingStrategy::HalfKelly => {
            let h = value(number::quotient(one, number::small::<E>(2)));
            assert(h * 2 as real == 1 as real);
            lemma_parts(k, h, h);
            exact::lemma_substitute(h + h, 1 as real, k);
            exact::lemma_opposite(k, k);
            assert(k * h + k * h == k);
        },
        StakeSizingStrategy::QuarterKelly => {
            let h = value(number::quotient(one, number::small::<E>(4)));
            assert(h * 4 as real == 1 as real);
            lemma_parts(k, h, h);
            lemma_parts(k, h + h, h + h);
            exact::lemma_substitute((h + h) + (h + h), 1 as real, k);
            exact::lemma_opposite(k, k);
            assert(k * h + k * h + k * h + k * h == k);
        },
        StakeSizingStrategy::CustomKelly { fraction } => {
            let f = value(fraction);
            assert(k * f == f * k) by (nonlinear_arith);
        },
        StakeSizingStrategy::TargetExpectedProfit { amount } => {
            if value(mean) > 0 as real {
                let b = value(bankroll);
                let m = value(mean);
                exact::lemma_product_sign(b, m);
                assert(w * (b * m) == (w * b) * m) by (nonlinear_arith);
            }
        },
        StakeSizingStrategy::TargetVolatility { fraction } => {
            if value(spread) > 0 as real {
                let deviation = choose|deviation: E|
                    call_ensures(root, (spread,), deviation) && quote.strategy_fraction
                        == #[trigger] policy.strategy.wanted_fraction(
                        quote.kelly_fraction,
                        bankroll,
                        mean,
                        spread,
                        deviation,
                    );
                let d = value(deviation);
                let f = value(fraction);
                let s = value(spread);
                assert(d * d == s && d >= 0 as real);
                assert(d == 0 as real ==> d * d == 0 as real) by (nonlinear_arith);
                assert(w * d == f);
                assert((w * d) * (w * d) == (w * w) * (d * d)) by (nonlinear_arith);
                exact::lemma_product_sign(-w, d);
                assert((-w) * d == -(w * d)) by (nonlinear_arith);
            }
        },
        _ => {},
    }
}

/// On the same results and with the same bankroll, two quarter stakes are asked for in place of a
/// half one, and two half ones in place of a full one.
pub proof fn lemma_quarters_halves_and_wholes<E: Number, F: Fn(E) -> E>(
    value: spec_fn(E) -> real,
    scale: Scale<E>,
    target: BetTarget,
    outcomes: Seq<KellyOutcome<E>>,
    bankroll: E,
    root: F,
    whole: (KellyPolicy<E>, KellyQuote<E>),
    half: (KellyPolicy<E>, KellyQuote<E>),
    quarter: (KellyPolicy<E>, KellyQuote<E>),
)
    requires
        exact(value),
        whole.0.strategy is FullKelly,
        half.0.strategy is HalfKelly,
        quarter.0.strategy is QuarterKelly,
        kelly::is_quote(whole.0, scale, target, outcomes, bankroll, root, whole.1),
        kelly::is_quote(half.0, scale, target, outcomes, bankroll, root, half.1),
        kelly::is_quote(quarter.0, scale, target, outcomes, bankroll, root, quarter.1),
    ensures
        value(quarter.1.strategy_fraction) + value(quarter.1.strategy_fraction) == value(
            half.1.strategy_fraction,
        ),
        value(half.1.strategy_fraction) + value(half.1.strategy_fraction) == value(
            whole.1.strategy_fraction,
        ),
        whole.1.strategy_fraction == whole.1.kelly_fraction,
        half.1.kelly_fraction == whole.1.kelly_fraction,
        quarter.1.kelly_fraction == whole.1.kelly_fraction,
{
    let one = number::small::<E>(1);
    let k = value(whole.1.kelly_fraction);
    let h = value(number::quotient(one, number::small::<E>(2)));
    let q = value(number::quotient(one, number::small::<E>(4)));
    assert(h * 2 as real == 1 as real);
    assert(q * 4 as real == 1 as real);
    lemma_parts(k, h, h);
    lemma_parts(k, q, q);
    exact::lemma_substitute(h + h, 1 as real, k);
    exact::lemma_substitute(q + q, h, k);
    exact::lemma_opposite(k, k);
    assert(k * h + k * h == k && k * q + k * q == k * h);
}

/// The stake is the least of what is asked for and of every limit that applies: the part of the
/// bankroll that may be staked, the limits of the round and of the table, the bankroll itself and,
/// on a side bet alone, the limit on side bets. It is the shown part of the bankroll, and its
/// expected profit is that of the bet for each unit.
pub proof fn lemma_the_stake_is_the_least_limit<E: Number, F: Fn(E) -> E>(
    value: spec_fn(E) -> real,
    policy: KellyPolicy<E>,
    scale: Scale<E>,
    target: BetTarget,
    outcomes: Seq<KellyOutcome<E>>,
    bankroll: E,
    root: F,
    quote: KellyQuote<E>,
)
    requires
        exact(value),
        value(bankroll) > 0 as real,
        kelly::is_quote(policy, scale, target, outcomes, bankroll, root, quote),
    ensures
        ({
            let stake = value(quote.amount);
            let money = value(bankroll);
            let asked = money * value(quote.strategy_fraction);
            let part = money * value(policy.max_fraction);
            let round = value(policy.max_round_stake);
            let table = value(policy.table_limit);
            let side = value(policy.side_bet_limit);
            &&& stake <= asked
            &&& stake <= part
            &&& stake <= round
            &&& stake <= table
            &&& stake <= money
            &&& target is Side ==> stake <= side
            &&& stake == asked || stake == part || stake == round || stake == table || stake
                == money || target is Side && stake == side
            &&& value(quote.applied_fraction) * money == stake
            &&& value(quote.effective_ev) == mean_profit(value, outcomes)
            &&& value(quote.expected_profit) == stake * mean_profit(value, outcomes)
            &&& quote.bet == target
        }),
{
    lemma_expected_profit(value, outcomes, outcomes.len() as int);
    let fraction = order::lower(quote.strategy_fraction, policy.max_fraction);
    exact::lemma_extremes(value, quote.strategy_fraction, policy.max_fraction);
    let money = value(bankroll);
    let f = value(fraction);
    let w = value(quote.strategy_fraction);
    let m = value(policy.max_fraction);
    let wanted = number::product(bankroll, fraction);
    exact::lemma_scale_order(f, w, money);
    exact::lemma_scale_order(f, m, money);
    exact::lemma_factors(money, f, w);
    exact::lemma_factors(money, w, f);
    exact::lemma_factors(money, m, f);
    assert(money * f <= money * w && money * f <= money * m);
    let first = order::lower(wanted, policy.max_round_stake);
    let second = order::lower(first, policy.table_limit);
    let third = order::lower(second, bankroll);
    exact::lemma_extremes(value, wanted, policy.max_round_stake);
    exact::lemma_extremes(value, first, policy.table_limit);
    exact::lemma_extremes(value, second, bankroll);
    exact::lemma_extremes(value, third, policy.side_bet_limit);
}

} // verus!
