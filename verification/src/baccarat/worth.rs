//! Laws of the expected values: what bets are worth where numbers are exact.

use vstd::prelude::*;

use crate::baccarat::bet::{MainBet, MainBetRules};
use crate::baccarat::distribution;
use crate::baccarat::distribution::WeighedResult;
use crate::baccarat::ev;
use crate::baccarat::ev::SideBetMetrics;
use crate::baccarat::kelly;
use crate::baccarat::probability::OutcomeWeightsView;
use crate::baccarat::rebate::RebateRule;
use crate::baccarat::side_bet::{Settlement, SideBet, SideBetRules, SideBetWeights};
use crate::baccarat::stakes;
use crate::exact;
use crate::exact::exact;
use crate::number;
use crate::number::Number;

verus! {

/// The net profit for a unit of stake that a banker win with some points pays.
pub open spec fn banker_payout<E: Number>(
    value: spec_fn(E) -> real,
    rules: MainBetRules<E>,
    points: int,
) -> real {
    value(rules.banker_pays(points))
}

/// What a rebate pays for a unit of stake.
pub open spec fn rebate_of<E: Number>(value: spec_fn(E) -> real, rebate: RebateRule<E>) -> real {
    match rebate {
        RebateRule::NoRebate => 0 as real,
        RebateRule::AllExceptMainBetTie { rate } => value(rate),
    }
}

/// What all deals together win on a main bet with a unit of stake each: the payout on every deal
/// that it names, a stake lost on every other, and nothing where a tie returns it.
pub open spec fn won_on_all_deals<E: Number>(
    value: spec_fn(E) -> real,
    weights: OutcomeWeightsView,
    rules: MainBetRules<E>,
    bet: MainBet,
) -> real {
    match bet {
        MainBet::Player => weights.player as real * value(rules.player_payout)
            - weights.banker as real,
        MainBet::Banker => (weights.banker - weights.banker_win_on_six) as real * banker_payout(
            value,
            rules,
            5,
        ) + weights.banker_win_on_six as real * banker_payout(value, rules, 6)
            - weights.player as real,
        MainBet::Tie => weights.tie as real * value(rules.tie_payout) - (weights.player
            + weights.banker) as real,
    }
}

/// On how many deals a rebate is paid on a main bet: all but the ties that return a stake.
pub open spec fn rebated_deals(weights: OutcomeWeightsView, bet: MainBet) -> real {
    match bet {
        MainBet::Tie => weights.total as real,
        _ => (weights.player + weights.banker) as real,
    }
}

/// A chance times a number, taken for all deals, is the number for each deal with the chance.
proof fn lemma_part<E: Number>(
    value: spec_fn(E) -> real,
    weight: int,
    total: int,
    x: real,
)
    requires
        exact(value),
        0 <= weight <= u64::MAX,
        0 < total <= u64::MAX,
    ensures
        (value(number::share::<E>(weight, total)) * x) * total as real == weight as real * x,
{
    exact::lemma_share(value, weight, total);
    exact::lemma_factors(value(number::share::<E>(weight, total)), x, total as real);
}

/// The expected values of the main bets are the means over all deals of what the bets win, and
/// the chances are the shares of the deals.
pub proof fn lemma_main_bets_are_worth_their_means<E: Number>(
    value: spec_fn(E) -> real,
    weights: OutcomeWeightsView,
    rules: MainBetRules<E>,
    bet: MainBet,
)
    requires
        exact(value),
        weights.wf(),
        weights.total > 0,
    ensures
        ({
            let metrics = ev::main_analysis(weights, rules).of(bet);
            let total = weights.total as real;
            &&& value(metrics.ev) * total == won_on_all_deals(value, weights, rules, bet)
            &&& value(metrics.probability) * total == match bet {
                MainBet::Player => weights.player as real,
                MainBet::Banker => weights.banker as real,
                MainBet::Tie => weights.tie as real,
            }
        }),
{
    let t = weights.total as int;
    let d = t as real;
    let p = weights.player as int;
    let b = weights.banker as int;
    let e = weights.tie as int;
    let six = weights.banker_win_on_six as int;
    exact::lemma_share(value, p, t);
    exact::lemma_share(value, b, t);
    exact::lemma_share(value, e, t);
    let sp = value(number::share::<E>(p, t));
    let sb = value(number::share::<E>(b, t));
    let se = value(number::share::<E>(e, t));
    let m1 = -1 as real;
    exact::lemma_opposite(p as real, 1 as real);
    exact::lemma_opposite(b as real, 1 as real);
    assert(e as real * (0 as real) == 0 as real) by (nonlinear_arith);
    match bet {
        MainBet::Player => {
            let x = value(rules.player_payout);
            lemma_part(value, p, t, x);
            lemma_part(value, b, t, m1);
            lemma_part(value, e, t, 0 as real);
            exact::lemma_distribute(d, sp * x + sb * m1, se * (0 as real));
            exact::lemma_distribute(d, sp * x, sb * m1);
        },
        MainBet::Banker => {
            let so = value(number::share::<E>(b - six, t));
            let s6 = value(number::share::<E>(six, t));
            let x = value(rules.banker_pays(5));
            let y = value(rules.banker_pays(6));
            lemma_part(value, p, t, m1);
            lemma_part(value, b - six, t, x);
            lemma_part(value, six, t, y);
            lemma_part(value, e, t, 0 as real);
            exact::lemma_distribute(d, sp * m1 + so * x + s6 * y, se * (0 as real));
            exact::lemma_distribute(d, sp * m1 + so * x, s6 * y);
            exact::lemma_distribute(d, sp * m1, so * x);
        },
        MainBet::Tie => {
            let x = value(rules.tie_payout);
            lemma_part(value, p, t, m1);
            lemma_part(value, b, t, m1);
            lemma_part(value, e, t, x);
            exact::lemma_distribute(d, sp * m1 + sb * m1, se * x);
            exact::lemma_distribute(d, sp * m1, sb * m1);
        },
    }
}

/// A rebate adds its rate on every deal on which it is paid: all but the ties that return the
/// stake of a player or banker bet.
pub proof fn lemma_rebates_are_paid_on_what_is_not_returned<E: Number>(
    value: spec_fn(E) -> real,
    weights: OutcomeWeightsView,
    rules: MainBetRules<E>,
    rebate: RebateRule<E>,
    bet: MainBet,
)
    requires
        exact(value),
        weights.wf(),
        weights.total > 0,
    ensures
        ({
            let metrics = ev::with_rebate(ev::main_analysis(weights, rules), bet, rebate);
            let total = weights.total as real;
            &&& value(metrics.rebate_ev) * total == rebated_deals(weights, bet) * rebate_of(
                value,
                rebate,
            )
            &&& value(metrics.effective_ev) * total == won_on_all_deals(value, weights, rules, bet)
                + rebated_deals(weights, bet) * rebate_of(value, rebate)
            &&& value(metrics.base_ev) * total == won_on_all_deals(value, weights, rules, bet)
        }),
{
    lemma_main_bets_are_worth_their_means(value, weights, rules, bet);
    let t = weights.total as int;
    let d = t as real;
    let p = weights.player as int;
    let b = weights.banker as int;
    let e = weights.tie as int;
    let r = rebate_of(value, rebate);
    let r3 = match bet {
        MainBet::Tie => r,
        _ => 0 as real,
    };
    let sp = value(number::share::<E>(p, t));
    let sb = value(number::share::<E>(b, t));
    let se = value(number::share::<E>(e, t));
    lemma_part(value, p, t, r);
    lemma_part(value, b, t, r);
    lemma_part(value, e, t, r3);
    exact::lemma_distribute(d, sp * r + sb * r, se * r3);
    exact::lemma_distribute(d, sp * r, sb * r);
    exact::lemma_distribute(r, p as real, b as real);
    exact::lemma_distribute(r, (p + b) as real, e as real);
    assert(e as real * (0 as real) == 0 as real) by (nonlinear_arith);
    let analysis = ev::main_analysis(weights, rules);
    let metrics = ev::with_rebate(analysis, bet, rebate);
    assert(value(metrics.rebate_ev) == sp * r + sb * r + se * r3);
    exact::lemma_distribute(d, value(metrics.base_ev), value(metrics.rebate_ev));
}

/// What the deals that win a side bet in its first tiers win together, with a unit of stake each.
pub open spec fn won_in_tiers<E: Number>(
    value: spec_fn(E) -> real,
    weights: SideBetWeights,
    rules: SideBetRules<E>,
    bet: SideBet,
    tiers: int,
) -> real
    decreases tiers,
{
    if tiers <= 0 {
        0 as real
    } else {
        won_in_tiers(value, weights, rules, bet, tiers - 1) + weights.tier(bet, tiers - 1) as real
            * value(rules.payout_at(bet, tiers - 1))
    }
}

/// The deals that win a side bet in its first tiers.
spec fn tier_deals(weights: SideBetWeights, bet: SideBet, tiers: int) -> nat
    decreases tiers,
{
    if tiers <= 0 {
        0
    } else {
        tier_deals(weights, bet, tiers - 1) + weights.tier(bet, tiers - 1)
    }
}

proof fn lemma_all_tiers(weights: SideBetWeights, bet: SideBet)
    ensures
        tier_deals(weights, bet, bet.tiers()) == weights.wins(bet),
{
    reveal_with_fuel(tier_deals, 7);
}

proof fn lemma_tier_deals_grow(weights: SideBetWeights, bet: SideBet, few: int, many: int)
    requires
        0 <= few <= many,
    ensures
        tier_deals(weights, bet, few) <= tier_deals(weights, bet, many),
    decreases many,
{
    if few < many {
        lemma_tier_deals_grow(weights, bet, few, many - 1);
    }
}

proof fn lemma_returns<E: Number>(
    value: spec_fn(E) -> real,
    weights: SideBetWeights,
    rules: SideBetRules<E>,
    bet: SideBet,
    tiers: int,
)
    requires
        exact(value),
        0 <= tiers <= bet.tiers(),
        weights.wins(bet) <= weights.denominator() <= u64::MAX,
        weights.denominator() > 0,
    ensures
        value(ev::winning_return(weights, rules, bet, tiers)) * weights.denominator() as real
            == won_in_tiers(value, weights, rules, bet, tiers) + tier_deals(
            weights,
            bet,
            tiers,
        ) as real,
    decreases tiers,
{
    let d = weights.denominator() as real;
    if tiers > 0 {
        lemma_returns(value, weights, rules, bet, tiers - 1);
        let w = weights.tier(bet, tiers - 1) as int;
        let x = value(rules.payout_at(bet, tiers - 1));
        lemma_all_tiers(weights, bet);
        lemma_tier_deals_grow(weights, bet, tiers, bet.tiers());
        lemma_part(value, w, weights.denominator() as int, 1 as real + x);
        let s = value(number::share::<E>(w, weights.denominator() as int));
        exact::lemma_distribute(
            d,
            value(ev::winning_return(weights, rules, bet, tiers - 1)),
            s * (1 as real + x),
        );
        exact::lemma_distribute(w as real, 1 as real, x);
    } else {
        assert((0 as real) * d == 0 as real) by (nonlinear_arith);
    }
}

/// A side bet is worth the mean over all deals of what it wins: its payouts, a stake lost where it
/// loses, and nothing where the stake comes back. Its chance is that of winning in any tier.
pub proof fn lemma_side_bets_are_worth_their_means<E: Number>(
    value: spec_fn(E) -> real,
    weights: SideBetWeights,
    rules: SideBetRules<E>,
    bet: SideBet,
)
    requires
        exact(value),
        weights.wins(bet) + weights.push(bet) <= weights.denominator() <= u64::MAX,
        weights.denominator() > 0,
    ensures
        ({
            let metrics = SideBetMetrics::of(weights, rules, bet);
            let total = weights.denominator() as real;
            &&& value(metrics.ev) * total == won_in_tiers(
                value,
                weights,
                rules,
                bet,
                bet.tiers(),
            ) - (weights.denominator() - weights.wins(bet) - weights.push(bet)) as real
            &&& value(metrics.probability) * total == weights.wins(bet) as real
        }),
{
    let d = weights.denominator() as real;
    lemma_returns(value, weights, rules, bet, bet.tiers());
    lemma_all_tiers(weights, bet);
    exact::lemma_share(value, weights.push(bet) as int, weights.denominator() as int);
    exact::lemma_share(value, weights.wins(bet) as int, weights.denominator() as int);
    let r = value(ev::winning_return(weights, rules, bet, bet.tiers()));
    let s = value(
        number::share::<E>(weights.push(bet) as int, weights.denominator() as int),
    );
    exact::lemma_distribute(d, r + s, 1 as real);
    exact::lemma_distribute(d, r, s);
}

/// A rebate on a side bet is paid on every deal.
pub proof fn lemma_side_bets_earn_the_whole_rebate<E: Number>(
    value: spec_fn(E) -> real,
    metrics: SideBetMetrics<E>,
    rebate: RebateRule<E>,
)
    requires
        exact(value),
    ensures
        ({
            let raised = ev::side_with_rebate(metrics, rebate);
            &&& value(raised.rebate_ev) == rebate_of(value, rebate)
            &&& value(raised.base_ev) == value(metrics.ev)
            &&& value(raised.effective_ev) == value(metrics.ev) + rebate_of(value, rebate)
            &&& raised.probability == metrics.probability
        }),
{
}

/// The results that a stake on a main bet is computed from have the expected profit that is shown
/// for the bet, and their chances add up to one.
pub proof fn lemma_stakes_see_the_shown_value<E: Number>(
    value: spec_fn(E) -> real,
    weights: OutcomeWeightsView,
    rules: MainBetRules<E>,
    rebate: RebateRule<E>,
    bet: MainBet,
)
    requires
        exact(value),
        weights.wf(),
        weights.total > 0,
    ensures
        ({
            let outcomes = kelly::as_outcomes(
                distribution::main_distribution(weights, rules, rebate, bet),
            );
            &&& stakes::mean_profit(value, outcomes) == value(
                ev::with_rebate(ev::main_analysis(weights, rules), bet, rebate).effective_ev,
            )
            &&& stakes::all_chances(value, outcomes) == 1 as real
        }),
{
    let results = distribution::main_distribution(weights, rules, rebate, bet);
    let outcomes = kelly::as_outcomes(results);
    let t = weights.total as int;
    let d = t as real;
    let p = weights.player as int;
    let b = weights.banker as int;
    let e = weights.tie as int;
    let six = weights.banker_win_on_six as int;
    let r = rebate_of(value, rebate);
    lemma_rebates_are_paid_on_what_is_not_returned(value, weights, rules, rebate, bet);
    let shown = value(
        ev::with_rebate(ev::main_analysis(weights, rules), bet, rebate).effective_ev,
    );
    let each = |x: real| x;
    let unit = |x: real| 1 as real;
    lemma_mean_by_weights(value, results, each, results.len() as int, t);
    lemma_mean_by_weights(value, results, unit, results.len() as int, t);
    reveal_with_fuel(weighed_results, 5);
    let m1 = -1 as real;
    assert(p as real * (m1 + r) == -(p as real) + p as real * r) by {
        exact::lemma_distribute(p as real, m1, r);
        exact::lemma_opposite(p as real, 1 as real);
    }
    assert(b as real * (m1 + r) == -(b as real) + b as real * r) by {
        exact::lemma_distribute(b as real, m1, r);
        exact::lemma_opposite(b as real, 1 as real);
    }
    assert(e as real * (0 as real) == 0 as real) by (nonlinear_arith);
    exact::lemma_distribute(r, p as real, b as real);
    exact::lemma_distribute(r, (p + b) as real, e as real);
    match bet {
        MainBet::Player => {
            let x = value(rules.player_payout);
            exact::lemma_distribute(p as real, x, r);
            assert(weighed_results(value, results, each, 3) == p as real * (x + r) + b as real * (m1
                + r) + e as real * (0 as real));
            assert(weighed_results(value, results, unit, 3) == p as real * (1 as real) + b as real
                * (1 as real) + e as real * (1 as real));
        },
        MainBet::Banker => {
            let x = value(rules.banker_pays(5));
            let y = value(rules.banker_pays(6));
            exact::lemma_distribute((b - six) as real, x, r);
            exact::lemma_distribute(six as real, y, r);
            exact::lemma_distribute(r, (b - six) as real, six as real);
            assert(weighed_results(value, results, each, 4) == p as real * (m1 + r) + (b
                - six) as real * (x + r) + six as real * (y + r) + e as real * (0 as real));
            assert(weighed_results(value, results, unit, 4) == p as real * (1 as real) + (b
                - six) as real * (1 as real) + six as real * (1 as real) + e as real * (1 as real));
        },
        MainBet::Tie => {
            let x = value(rules.tie_payout);
            exact::lemma_distribute(e as real, x, r);
            assert(weighed_results(value, results, each, 3) == p as real * (m1 + r) + b as real * (m1
                + r) + e as real * (x + r));
            assert(weighed_results(value, results, unit, 3) == p as real * (1 as real) + b as real
                * (1 as real) + e as real * (1 as real));
        },
    }
    exact::lemma_cancel(stakes::mean_profit(value, outcomes), shown, d);
    assert((1 as real) * d == d);
    assert(stakes::all_chances(value, outcomes) * d == d);
    exact::lemma_cancel(stakes::all_chances(value, outcomes), 1 as real, d);
}

/// The sum over weighed results of their weight times a number of their profit.
spec fn weighed_results<E: Number>(
    value: spec_fn(E) -> real,
    results: Seq<WeighedResult<E>>,
    number: spec_fn(real) -> real,
    n: int,
) -> real
    decreases n,
{
    if n <= 0 {
        0 as real
    } else {
        weighed_results(value, results, number, n - 1) + results[n - 1].weight as real * number(
            value(kelly::as_outcome(results[n - 1]).net_profit),
        )
    }
}

proof fn lemma_mean_by_weights<E: Number>(
    value: spec_fn(E) -> real,
    results: Seq<WeighedResult<E>>,
    number: spec_fn(real) -> real,
    n: int,
    total: int,
)
    requires
        exact(value),
        0 <= n <= results.len(),
        0 < total <= u64::MAX,
        forall|i: int| 0 <= i < results.len() ==> (#[trigger] results[i]).total == total,
    ensures
        stakes::mean_of(value, kelly::as_outcomes(results), number, n) * total as real
            == weighed_results(value, results, number, n),
    decreases n,
{
    let d = total as real;
    let outcomes = kelly::as_outcomes(results);
    if n > 0 {
        lemma_mean_by_weights(value, results, number, n - 1, total);
        assert(results[n - 1].total == total);
        let x = number(value(outcomes[n - 1].net_profit));
        lemma_part(value, results[n - 1].weight as int, total, x);
        let s = value(outcomes[n - 1].probability);
        exact::lemma_distribute(d, stakes::mean_of(value, outcomes, number, n - 1), s * x);
    } else {
        assert((0 as real) * d == 0 as real) by (nonlinear_arith);
    }
}

proof fn lemma_tier_results<E: Number>(
    value: spec_fn(E) -> real,
    weights: SideBetWeights,
    rules: SideBetRules<E>,
    rebate: RebateRule<E>,
    bet: SideBet,
    n: int,
)
    requires
        exact(value),
        0 <= n <= bet.tiers(),
        weights.wins(bet) + weights.push(bet) <= weights.denominator() <= u64::MAX,
    ensures
        ({
            let results = distribution::side_distribution(weights, rules, rebate, bet);
            &&& weighed_results(value, results, |x: real| x, n) == won_in_tiers(
                value,
                weights,
                rules,
                bet,
                n,
            ) + tier_deals(weights, bet, n) as real * rebate_of(value, rebate)
            &&& weighed_results(value, results, |x: real| 1 as real, n) == tier_deals(
                weights,
                bet,
                n,
            ) as real
        }),
    decreases n,
{
    let r = rebate_of(value, rebate);
    if n > 0 {
        lemma_tier_results(value, weights, rules, rebate, bet, n - 1);
        lemma_all_tiers(weights, bet);
        lemma_tier_deals_grow(weights, bet, n, bet.tiers());
        let w = weights.tier(bet, n - 1) as real;
        let x = value(rules.payout_at(bet, n - 1));
        exact::lemma_distribute(w, x, r);
        exact::lemma_distribute(r, tier_deals(weights, bet, n - 1) as real, w);
        let results = distribution::side_distribution(weights, rules, rebate, bet);
        let result = results[n - 1];
        assert(result.settlement == Settlement::Win(rules.payout_at(bet, n - 1)));
        assert(result.weight == weights.tier(bet, n - 1));
        assert(value(kelly::as_outcome(result).net_profit) == x + r);
        assert(w * (1 as real) == w);
    } else {
        assert((0 as real) * r == 0 as real) by (nonlinear_arith);
    }
}

/// The results that a stake on a side bet is computed from have the expected profit that is shown
/// for the bet, and their chances add up to one.
pub proof fn lemma_side_stakes_see_the_shown_value<E: Number>(
    value: spec_fn(E) -> real,
    weights: SideBetWeights,
    rules: SideBetRules<E>,
    rebate: RebateRule<E>,
    bet: SideBet,
)
    requires
        exact(value),
        weights.wins(bet) + weights.push(bet) <= weights.denominator() <= u64::MAX,
        weights.denominator() > 0,
    ensures
        ({
            let outcomes = kelly::as_outcomes(
                distribution::side_distribution(weights, rules, rebate, bet),
            );
            &&& stakes::mean_profit(value, outcomes) == value(
                ev::side_with_rebate(SideBetMetrics::of(weights, rules, bet), rebate).effective_ev,
            )
            &&& stakes::all_chances(value, outcomes) == 1 as real
        }),
{
    let results = distribution::side_distribution(weights, rules, rebate, bet);
    let outcomes = kelly::as_outcomes(results);
    let t = weights.denominator() as int;
    let d = t as real;
    let r = rebate_of(value, rebate);
    let n = bet.tiers();
    let push = weights.push(bet) as int;
    let lost = t - weights.wins(bet) - push;
    lemma_side_bets_are_worth_their_means(value, weights, rules, bet);
    lemma_tier_results(value, weights, rules, rebate, bet, n);
    lemma_all_tiers(weights, bet);
    let each = |x: real| x;
    let unit = |x: real| 1 as real;
    assert forall|i: int| 0 <= i < results.len() implies (#[trigger] results[i]).total == t by {}
    lemma_mean_by_weights(value, results, each, results.len() as int, t);
    lemma_mean_by_weights(value, results, unit, results.len() as int, t);
    let m1 = -1 as real;
    exact::lemma_distribute(lost as real, m1, r);
    exact::lemma_opposite(lost as real, 1 as real);
    let last = results[results.len() - 1];
    assert(last.settlement == Settlement::<E>::Lose && last.weight == lost);
    assert(value(kelly::as_outcome(last).net_profit) == m1 + r);
    if push > 0 {
        let back = results[n];
        assert(back.settlement == Settlement::<E>::Push && back.weight == push);
        assert(value(kelly::as_outcome(back).net_profit) == 0 as real + r);
        assert(results.len() == n + 2);
    } else {
        assert(results.len() == n + 1);
    }
    reveal_with_fuel(weighed_results, 3);
    let base = value(SideBetMetrics::of(weights, rules, bet).ev);
    exact::lemma_distribute(d, base, r);
    exact::lemma_distribute(r, weights.wins(bet) as real, push as real);
    exact::lemma_distribute(r, (weights.wins(bet) + push) as real, lost as real);
    exact::lemma_factors(d, r, 1 as real);
    exact::lemma_opposite(r, r);
    assert(push == 0 ==> push as real * r == 0 as real);
    let shown = value(
        ev::side_with_rebate(SideBetMetrics::of(weights, rules, bet), rebate).effective_ev,
    );
    assert(weighed_results(value, results, each, results.len() as int) == won_in_tiers(
        value,
        weights,
        rules,
        bet,
        n,
    ) + weights.wins(bet) as real * r + push as real * r + (lost as real * m1 + lost as real * r));
    exact::lemma_cancel(stakes::mean_profit(value, outcomes), shown, d);
    assert(push as real * (1 as real) == push as real && lost as real * (1 as real) == lost as real);
    assert(weighed_results(value, results, unit, n) == weights.wins(bet) as real);
    assert(weighed_results(value, results, unit, results.len() as int) == weights.wins(bet) as real
        + push as real + lost as real);
    assert((1 as real) * d == d);
    assert(stakes::all_chances(value, outcomes) * d == d);
    exact::lemma_cancel(stakes::all_chances(value, outcomes), 1 as real, d);
}

} // verus!
