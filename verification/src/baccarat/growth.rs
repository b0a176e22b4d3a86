//! Laws of the Kelly fraction: it is where the expected logarithm of the bankroll stops growing,
//! where numbers are exact.

use vstd::prelude::*;

use crate::baccarat::kelly;
use crate::baccarat::kelly::KellyOutcome;
use crate::baccarat::stakes;
use crate::exact;
use crate::exact::exact;
use crate::number;
use crate::number::Number;
use crate::order;
use crate::scale::Scale;

verus! {

/// How fast the expected logarithm of the bankroll grows when a part of it is staked: over the
/// results, the chance times the profit, by what is left of the bankroll.
#[verifier::opaque]
pub open spec fn growth_at<E: Number>(
    value: spec_fn(E) -> real,
    outcomes: Seq<KellyOutcome<E>>,
    part: real,
    n: int,
) -> real
    decreases n,
{
    if n <= 0 {
        0 as real
    } else {
        growth_at(value, outcomes, part, n - 1) + (value(outcomes[n - 1].probability) * value(
            outcomes[n - 1].net_profit,
        )) / (1 as real + part * value(outcomes[n - 1].net_profit))
    }
}

/// Whether something of the bankroll is left after each result when a part of it is staked.
#[verifier::opaque]
pub open spec fn survives<E: Number>(
    value: spec_fn(E) -> real,
    outcomes: Seq<KellyOutcome<E>>,
    part: real,
) -> bool {
    forall|i: int|
        0 <= i < outcomes.len() ==> 1 as real + part * value((#[trigger] outcomes[i]).net_profit)
            > 0 as real
}

/// A number halved some times.
pub open spec fn halved(x: real, times: nat) -> real
    decreases times,
{
    if times == 0 {
        x
    } else {
        halved(x, (times - 1) as nat) / 2 as real
    }
}

/// Whether the bankroll stops growing between two parts of it: it still grows at the lower, unless
/// that is nothing, and no longer at the upper.
pub open spec fn turns_between<E: Number>(
    value: spec_fn(E) -> real,
    outcomes: Seq<KellyOutcome<E>>,
    low: real,
    high: real,
) -> bool {
    let n = outcomes.len() as int;
    &&& low == 0 as real || growth_at(value, outcomes, low, n) > 0 as real
    &&& growth_at(value, outcomes, high, n) <= 0 as real
}

/// Whether results can be staked on: every one that loses can come, and every number is finite.
pub open spec fn stakeable<E: Number>(
    value: spec_fn(E) -> real,
    scale: Scale<E>,
    outcomes: Seq<KellyOutcome<E>>,
) -> bool {
    &&& forall|a: E| #[trigger] scale.finite(a)
    &&& forall|i: int|
        0 <= i < outcomes.len() ==> value((#[trigger] outcomes[i]).probability) > 0 as real
}

proof fn lemma_quotient(q: real, d: real, n: real)
    requires
        q * d == n,
        d != 0 as real,
    ensures
        q == n / d,
{
    assert((n / d) * d == n) by (nonlinear_arith)
        requires
            d != 0 as real,
    ;
    exact::lemma_cancel(q, n / d, d);
}

proof fn lemma_growth<E: Number>(
    value: spec_fn(E) -> real,
    outcomes: Seq<KellyOutcome<E>>,
    fraction: E,
    n: int,
)
    requires
        exact(value),
        0 <= n <= outcomes.len(),
        survives(value, outcomes, value(fraction)),
    ensures
        value(kelly::growth(outcomes, fraction, n)) == growth_at(
            value,
            outcomes,
            value(fraction),
            n,
        ),
    decreases n,
{
    reveal(growth_at);
    reveal(survives);
    if n > 0 {
        lemma_growth(value, outcomes, fraction, n - 1);
        let outcome = outcomes[n - 1];
        let above = number::product(outcome.probability, outcome.net_profit);
        let below = number::sum(
            number::small::<E>(1),
            number::product(fraction, outcome.net_profit),
        );
        assert(value(below) > 0 as real);
        let q = number::quotient(above, below);
        assert(value(q) * value(below) == value(above));
        lemma_quotient(value(q), value(below), value(above));
    }
}

proof fn lemma_ruin<E: Number>(
    value: spec_fn(E) -> real,
    outcomes: Seq<KellyOutcome<E>>,
    n: int,
)
    requires
        exact(value),
        0 <= n <= outcomes.len(),
        forall|i: int|
            0 <= i < outcomes.len() ==> value((#[trigger] outcomes[i]).probability) > 0 as real,
    ensures
        match kelly::ruin(outcomes, n) {
            None => forall|i: int|
                0 <= i < n ==> value((#[trigger] outcomes[i]).net_profit) >= 0 as real,
            Some(least) => {
                &&& value(least) > 0 as real
                &&& forall|i: int|
                    0 <= i < n ==> value(least) * value((#[trigger] outcomes[i]).net_profit)
                        >= -1 as real
            },
        },
    decreases n,
{
    if n > 0 {
        lemma_ruin(value, outcomes, n - 1);
        let outcome = outcomes[n - 1];
        let zero = number::small::<E>(0);
        let r = value(outcome.net_profit);
        assert(order::above(outcome.probability, zero));
        assert(order::above(zero, outcome.net_profit) <==> r < 0 as real);
        let before = kelly::ruin(outcomes, n - 1);
        if r < 0 as real {
            let fraction = number::quotient(
                crate::baccarat::ev::minus_one::<E>(),
                outcome.net_profit,
            );
            let f = value(fraction);
            assert(f * r == -1 as real);
            assert(f > 0 as real) by {
                if f <= 0 as real {
                    exact::lemma_product_sign(-f, -r);
                    assert((-f) * (-r) == f * r) by (nonlinear_arith);
                }
            }
            let after = kelly::ruin(outcomes, n)->0;
            if let Some(least) = before {
                exact::lemma_extremes(value, least, fraction);
            }
            let a = value(after);
            assert(a > 0 as real && a <= f);
            assert forall|i: int| 0 <= i < n implies a * value((#[trigger] outcomes[i]).net_profit)
                >= -1 as real by {
                let x = value(outcomes[i].net_profit);
                if i == n - 1 {
                    lemma_less_of_a_loss(a, f, x);
                } else if let Some(least) = before {
                    assert(value(least) * x >= -1 as real);
                    lemma_less_of_a_loss(a, value(least), x);
                } else {
                    assert(x >= 0 as real);
                    exact::lemma_product_sign(a, x);
                }
            }
        } else {
            if let Some(least) = before {
                exact::lemma_product_sign(value(least), r);
            }
        }
    }
}

/// A smaller part of a loss is no larger.
proof fn lemma_less_of_a_loss(a: real, b: real, x: real)
    requires
        0 as real <= a <= b,
        b * x >= -1 as real,
    ensures
        a * x >= -1 as real,
{
    if x >= 0 as real {
        exact::lemma_product_sign(a, x);
    } else {
        exact::lemma_product_sign(b - a, -x);
        assert((b - a) * (-x) == a * x - b * x) by (nonlinear_arith);
    }
}

proof fn lemma_survives<E: Number>(
    value: spec_fn(E) -> real,
    scale: Scale<E>,
    outcomes: Seq<KellyOutcome<E>>,
    max_fraction: E,
    part: real,
)
    requires
        exact(value),
        stakeable(value, scale, outcomes),
        0 as real <= part <= value(kelly::search_limit(scale, outcomes, max_fraction)),
    ensures
        survives(value, outcomes, part),
        value(kelly::search_limit(scale, outcomes, max_fraction)) <= value(max_fraction),
{
    reveal(survives);
    let n = outcomes.len() as int;
    lemma_ruin(value, outcomes, n);
    let limit = kelly::search_limit(scale, outcomes, max_fraction);
    match kelly::ruin(outcomes, n) {
        None => {
            assert forall|i: int| 0 <= i < outcomes.len() implies 1 as real + part * value(
                (#[trigger] outcomes[i]).net_profit,
            ) > 0 as real by {
                exact::lemma_product_sign(part, value(outcomes[i].net_profit));
            }
        },
        Some(least) => {
            assert(scale.finite(least));
            let one = number::small::<E>(1);
            let tolerance = kelly::tolerance::<E>();
            exact::lemma_whole(value, 1_000_000_000_000);
            let t = value(tolerance);
            let big = 1_000_000_000_000int as real;
            assert(t * big == 1 as real);
            assert(t > 0 as real && t < 1 as real) by {
                exact::lemma_scale_order(0 as real, t, big);
                exact::lemma_scale_order(t, 1 as real, big);
                assert((0 as real) * big == 0 as real && (1 as real) * big == big);
            }
            let kept = number::difference(one, tolerance);
            let short = number::product(least, kept);
            exact::lemma_extremes(value, max_fraction, short);
            let l = value(least);
            let c = value(kept);
            assert(value(short) == l * c);
            assert(part <= l * c);
            assert forall|i: int| 0 <= i < outcomes.len() implies 1 as real + part * value(
                (#[trigger] outcomes[i]).net_profit,
            ) > 0 as real by {
                let x = value(outcomes[i].net_profit);
                assert(l * x >= -1 as real);
                if x >= 0 as real {
                    exact::lemma_product_sign(part, x);
                } else {
                    exact::lemma_product_sign(l * c - part, -x);
                    assert((l * c - part) * (-x) == part * x - (l * c) * x) by (nonlinear_arith);
                    exact::lemma_factors(l, c, x);
                    assert((l * x) * c >= -c) by {
                        exact::lemma_product_sign(l * x + 1 as real, c);
                        exact::lemma_distribute(c, l * x, 1 as real);
                    }
                }
            }
        },
    }
}

proof fn lemma_middle<E: Number>(value: spec_fn(E) -> real, a: E, b: E)
    requires
        exact(value),
    ensures
        value(kelly::middle(a, b)) == (value(a) + value(b)) / 2 as real,
        value(a) <= value(b) ==> value(a) <= value(kelly::middle(a, b)) <= value(b),
{
    let q = value(kelly::middle(a, b));
    assert(q * 2 as real == value(a) + value(b));
    lemma_quotient(q, 2 as real, value(a) + value(b));
}

proof fn lemma_narrowed<E: Number>(
    value: spec_fn(E) -> real,
    scale: Scale<E>,
    outcomes: Seq<KellyOutcome<E>>,
    max_fraction: E,
    steps: nat,
)
    requires
        exact(value),
        stakeable(value, scale, outcomes),
        value(kelly::search_limit(scale, outcomes, max_fraction)) >= 0 as real,
        growth_at(
            value,
            outcomes,
            value(kelly::search_limit(scale, outcomes, max_fraction)),
            outcomes.len() as int,
        ) < 0 as real,
    ensures
        ({
            let n = outcomes.len() as int;
            let limit = kelly::search_limit(scale, outcomes, max_fraction);
            let (low, high) = kelly::narrowed(outcomes, number::small::<E>(0), limit, steps);
            &&& 0 as real <= value(low) <= value(high) <= value(limit)
            &&& value(high) - value(low) == halved(value(limit), steps)
            &&& value(low) == 0 as real || growth_at(value, outcomes, value(low), n) > 0 as real
            &&& growth_at(value, outcomes, value(high), n) <= 0 as real
        }),
    decreases steps,
{
    let n = outcomes.len() as int;
    let zero = number::small::<E>(0);
    let limit = kelly::search_limit(scale, outcomes, max_fraction);
    if steps > 0 {
        lemma_narrowed(value, scale, outcomes, max_fraction, (steps - 1) as nat);
        let (low, high) = kelly::narrowed(outcomes, zero, limit, (steps - 1) as nat);
        let half = kelly::middle(low, high);
        lemma_middle(value, low, high);
        lemma_survives(value, scale, outcomes, max_fraction, value(half));
        lemma_growth(value, outcomes, half, n);
        let slope = kelly::slope(outcomes, half);
        assert(order::above(slope, zero) <==> value(slope) > 0 as real);
    }
}

/// The Kelly fraction is where the bankroll stops growing with the part that is staked. Nothing is
/// staked without an expected profit; all that may be staked is where the bankroll grows up to
/// there; and otherwise the fraction lies in an interval, a hundred times halved, at whose lower
/// end the bankroll still grows, unless it is zero, and at whose upper end it does not.
pub proof fn lemma_kelly_is_where_growth_stops<E: Number>(
    value: spec_fn(E) -> real,
    scale: Scale<E>,
    outcomes: Seq<KellyOutcome<E>>,
    max_fraction: E,
)
    requires
        exact(value),
        stakeable(value, scale, outcomes),
        value(max_fraction) >= 0 as real,
    ensures
        ({
            let n = outcomes.len() as int;
            let best = value(kelly::best_fraction(scale, outcomes, max_fraction));
            let limit = value(kelly::search_limit(scale, outcomes, max_fraction));
            let mean = stakes::mean_profit(value, outcomes);
            &&& 0 as real <= best <= value(max_fraction)
            &&& mean <= 0 as real ==> best == 0 as real
            &&& best > 0 as real ==> survives(value, outcomes, best)
            &&& mean > 0 as real && limit > 0 as real ==> if growth_at(value, outcomes, limit, n)
                >= 0 as real {
                best == limit
            } else {
                exists|low: real, high: real|
                    #[trigger] turns_between(value, outcomes, low, high) && 0 as real <= low
                        <= best <= high <= limit && high - low == halved(limit, 100)
            }
        }),
{
    let n = outcomes.len() as int;
    let zero = number::small::<E>(0);
    let upper = kelly::search_limit(scale, outcomes, max_fraction);
    let limit = value(upper);
    stakes::lemma_expected_profit(value, outcomes, n);
    let mean = kelly::expected_profit(outcomes, n);
    assert(order::above(max_fraction, zero) <==> value(max_fraction) > 0 as real);
    assert(order::reaches(zero, mean) <==> value(mean) <= 0 as real);
    assert(order::reaches(zero, upper) <==> limit <= 0 as real);
    if limit > 0 as real {
        lemma_survives(value, scale, outcomes, max_fraction, limit);
        lemma_growth(value, outcomes, upper, n);
        let slope = kelly::slope(outcomes, upper);
        assert(order::reaches(slope, zero) <==> value(slope) >= 0 as real);
        if value(slope) < 0 as real {
            lemma_narrowed(value, scale, outcomes, max_fraction, 100);
            let (low, high) = kelly::narrowed(outcomes, zero, upper, 100);
            lemma_middle(value, low, high);
            let half = kelly::middle(low, high);
            lemma_survives(value, scale, outcomes, max_fraction, value(half));
            assert(turns_between(value, outcomes, value(low), value(high)));
        }
    }
}

} // verus!
