//! Laws of what is bet: which results can be staked on, which bets are made, and how the stakes of
//! one round share its limit, where numbers are exact.

use vstd::prelude::*;

use crate::baccarat::analysis::{EffectiveBetMetrics, EffectiveMainBets, EffectiveSideBets};
use crate::baccarat::bet::MainBet;
use crate::baccarat::kelly;
use crate::baccarat::kelly::KellyOutcome;
use crate::baccarat::plan;
use crate::baccarat::plan::RoundOffer;
use crate::baccarat::rebate::RebateRule;
use crate::baccarat::replay::SideBetRoundLimits;
use crate::baccarat::risk::{
    BetPlan, BetPlanAction, CombinedBetPlan, CombinedBetPlanAction, KellyPolicy,
};
use crate::baccarat::side_bet::SideBet;
use crate::baccarat::stakes;
use crate::baccarat::strategy;
use crate::baccarat::strategy::{
    BetAction, BetDecision, BetTarget, BettingPolicy, CandidateMetrics, CombinedBetAction,
    CombinedBetDecision,
};
use crate::exact;
use crate::exact::exact;
use crate::number;
use crate::number::Number;
use crate::order;
use crate::scale::Scale;

verus! {

proof fn lemma_first_invalid<E: Number>(
    scale: Scale<E>,
    outcomes: Seq<KellyOutcome<E>>,
    from: int,
)
    requires
        0 <= from <= outcomes.len(),
    ensures
        from <= kelly::first_invalid(scale, outcomes, from) <= outcomes.len(),
        kelly::first_invalid(scale, outcomes, from) == outcomes.len() <==> forall|i: int|
            from <= i < outcomes.len() ==> scale.amount((#[trigger] outcomes[i]).probability)
                && scale.finite(outcomes[i].net_profit),
    decreases outcomes.len() - from,
{
    if from < outcomes.len() {
        lemma_first_invalid(scale, outcomes, from + 1);
        assert(kelly::first_invalid(scale, outcomes, from) == outcomes.len() ==> scale.amount(
            outcomes[from].probability,
        ) && scale.finite(outcomes[from].net_profit));
    }
}

/// Results are accepted exactly when there are some, no chance is negative, and the chances come
/// to one, up to a millionth of a millionth.
pub proof fn lemma_accepted_results_are_chances<E: Number>(
    value: spec_fn(E) -> real,
    scale: Scale<E>,
    outcomes: Seq<KellyOutcome<E>>,
)
    requires
        exact(value),
        value(scale.zero) == 0 as real,
        forall|a: E| #[trigger] scale.finite(a),
    ensures
        kelly::outcomes_error(scale, outcomes) is None <==> {
            let all = stakes::all_chances(value, outcomes);
            let parts = 1_000_000_000_000int as real;
            &&& outcomes.len() > 0
            &&& forall|i: int|
                0 <= i < outcomes.len() ==> value((#[trigger] outcomes[i]).probability) >= 0 as real
            &&& (all - 1 as real) * parts <= 1 as real
            &&& (1 as real - all) * parts <= 1 as real
        },
{
    let n = outcomes.len() as int;
    lemma_first_invalid(scale, outcomes, 0);
    assert forall|i: int| 0 <= i < n implies (scale.amount((#[trigger] outcomes[i]).probability)
        && scale.finite(outcomes[i].net_profit) <==> value(outcomes[i].probability)
        >= 0 as real) by {
        let p = outcomes[i].probability;
        assert(scale.finite(p));
        assert(order::reaches(p, scale.zero) <==> value(p) >= value(scale.zero));
    }
    stakes::lemma_expected_profit(value, outcomes, n);
    let sum = kelly::probability_sum(outcomes, n);
    let one = number::small::<E>(1);
    let zero = number::small::<E>(0);
    let excess = number::difference(sum, one);
    let lack = number::difference(zero, excess);
    let tolerance = kelly::tolerance::<E>();
    let parts = 1_000_000_000_000int as real;
    exact::lemma_whole(value, 1_000_000_000_000);
    let t = value(tolerance);
    assert(t * parts == 1 as real);
    let e = value(excess);
    assert(e == stakes::all_chances(value, outcomes) - 1 as real);
    assert(value(lack) == -e);
    exact::lemma_scale_order(e, t, parts);
    exact::lemma_scale_order(-e, t, parts);
    assert(order::above(excess, tolerance) <==> e > t);
    assert(order::above(lack, tolerance) <==> -e > t);
    assert(-e == 1 as real - stakes::all_chances(value, outcomes));
}

/// The values of a bet, among the values of the main bets and of the side bets.
pub open spec fn metrics_of<E>(
    main: EffectiveMainBets<E>,
    side: EffectiveSideBets<E>,
    bet: BetTarget,
    position: int,
) -> EffectiveBetMetrics<E> {
    match bet {
        BetTarget::Main(MainBet::Player) => main.player,
        BetTarget::Main(MainBet::Banker) => main.banker,
        BetTarget::Main(MainBet::Tie) => main.tie,
        BetTarget::Side(_) => side.metrics@[position],
    }
}

/// Whether a bet can be made: every main bet can, and the side bet of a position when it is
/// allowed.
pub open spec fn offered(allowed: Seq<bool>, bet: BetTarget, position: int) -> bool {
    match bet {
        BetTarget::Main(_) => true,
        BetTarget::Side(bet) => 0 <= position < 11 && SideBet::ALL@[position] == bet
            && allowed[position],
    }
}

/// What a bet has to be worth at least.
pub open spec fn threshold<E>(policy: BettingPolicy<E>, bet: BetTarget) -> E {
    match bet {
        BetTarget::Main(_) => policy.minimum_effective_ev,
        BetTarget::Side(_) => policy.minimum_side_bet_ev,
    }
}

/// Where an allowed side bet is among the candidates.
proof fn lemma_place_of<E: Copy + PartialOrd>(
    side: EffectiveSideBets<E>,
    allowed: Seq<bool>,
    minimum: E,
    count: int,
    position: int,
) -> (place: int)
    requires
        0 <= position < count <= 11,
        allowed[position],
    ensures
        0 <= place < strategy::side_candidates(side, allowed, minimum, count).len(),
        strategy::side_candidates(side, allowed, minimum, count)[place] == CandidateMetrics::of(
            BetTarget::Side(SideBet::ALL@[position]),
            side.metrics@[position],
            minimum,
        ),
    decreases count,
{
    let before = strategy::side_candidates(side, allowed, minimum, count - 1);
    if position == count - 1 {
        before.len() as int
    } else {
        let place = lemma_place_of(side, allowed, minimum, count - 1, position);
        assert(strategy::side_candidates(side, allowed, minimum, count)[place] == before[place]);
        place
    }
}

/// Which allowed side bet a candidate is.
pub proof fn lemma_bet_of<E: Copy + PartialOrd>(
    side: EffectiveSideBets<E>,
    allowed: Seq<bool>,
    minimum: E,
    count: int,
    place: int,
) -> (position: int)
    requires
        0 <= count <= 11,
        0 <= place < strategy::side_candidates(side, allowed, minimum, count).len(),
    ensures
        0 <= position < count,
        allowed[position],
        strategy::side_candidates(side, allowed, minimum, count)[place] == CandidateMetrics::of(
            BetTarget::Side(SideBet::ALL@[position]),
            side.metrics@[position],
            minimum,
        ),
    decreases count,
{
    let before = strategy::side_candidates(side, allowed, minimum, count - 1);
    if place < before.len() {
        let position = lemma_bet_of(side, allowed, minimum, count - 1, place);
        assert(strategy::side_candidates(side, allowed, minimum, count)[place] == before[place]);
        position
    } else {
        count - 1
    }
}

proof fn lemma_best<E: Number>(
    value: spec_fn(E) -> real,
    candidates: Seq<CandidateMetrics<E>>,
    count: int,
)
    requires
        exact(value),
        0 <= count <= candidates.len(),
    ensures
        match strategy::best_eligible(candidates, count) {
            None => forall|i: int|
                0 <= i < count ==> value((#[trigger] candidates[i]).effective_ev) < value(
                    candidates[i].minimum_ev,
                ),
            Some(best) => {
                &&& 0 <= best < count
                &&& value(candidates[best].effective_ev) >= value(candidates[best].minimum_ev)
                &&& forall|i: int|
                    0 <= i < count && value((#[trigger] candidates[i]).effective_ev) >= value(
                        candidates[i].minimum_ev,
                    ) ==> value(candidates[i].effective_ev) <= value(candidates[best].effective_ev)
            },
        },
    decreases count,
{
    if count > 0 {
        lemma_best(value, candidates, count - 1);
        let last = candidates[count - 1];
        assert(last.eligible() <==> value(last.effective_ev) >= value(last.minimum_ev)) by {
            assert(order::reaches(last.effective_ev, last.minimum_ev) <==> value(
                last.effective_ev,
            ) >= value(last.minimum_ev));
        }
        if let Some(best) = strategy::best_eligible(candidates, count - 1) {
            assert(order::above(last.effective_ev, candidates[best].effective_ev) <==> value(
                last.effective_ev,
            ) > value(candidates[best].effective_ev));
        }
    }
}

/// Of all bets that can be made, the one that is made is worth its threshold, and no less than any
/// other that is worth its own; none is made only where none is worth its threshold. The decision
/// shows the values of its bet.
pub proof fn lemma_the_best_bet_is_made<E: Number>(
    value: spec_fn(E) -> real,
    policy: BettingPolicy<E>,
    main: EffectiveMainBets<E>,
    side: EffectiveSideBets<E>,
    allowed: Seq<bool>,
    other: BetTarget,
    position: int,
)
    requires
        exact(value),
        allowed.len() == 11,
        offered(allowed, other, position),
    ensures
        ({
            let decision = strategy::decided(policy.candidates(main, side, allowed));
            let worth = value(metrics_of(main, side, other, position).effective_ev);
            let pays = worth >= value(threshold(policy, other));
            match decision.action {
                CombinedBetAction::Place { bet } => {
                    &&& decision.candidate == bet
                    &&& decision.minimum_ev == threshold(policy, bet)
                    &&& value(decision.effective_ev) >= value(threshold(policy, bet))
                    &&& exists|at: int| #[trigger]
                        offered(allowed, bet, at) && {
                            let metrics = metrics_of(main, side, bet, at);
                            decision.base_ev == metrics.base_ev && decision.rebate_ev
                                == metrics.rebate_ev && decision.effective_ev
                                == metrics.effective_ev
                        }
                    &&& pays ==> worth <= value(decision.effective_ev)
                },
                CombinedBetAction::Skip { .. } => !pays,
            }
        }),
{
    let candidates = policy.candidates(main, side, allowed);
    let n = candidates.len() as int;
    let sides = strategy::side_candidates(side, allowed, policy.minimum_side_bet_ev, 11);
    lemma_best(value, candidates, n);
    // Where the other bet is among the candidates.
    let i: int = match other {
        BetTarget::Main(MainBet::Player) => 0,
        BetTarget::Main(MainBet::Banker) => 1,
        BetTarget::Main(MainBet::Tie) => 2,
        BetTarget::Side(_) => {
            let place = lemma_place_of(
                side,
                allowed,
                policy.minimum_side_bet_ev,
                11,
                position,
            );
            assert(candidates[3 + place] == sides[place]);
            3 + place
        },
    };
    assert(candidates[i].effective_ev == metrics_of(main, side, other, position).effective_ev);
    assert(candidates[i].minimum_ev == threshold(policy, other));
    match strategy::best_eligible(candidates, n) {
        Some(best) => {
            let bet = candidates[best].target;
            if best < 3 {
                assert(offered(allowed, bet, 0));
            } else {
                let j = lemma_bet_of(
                    side,
                    allowed,
                    policy.minimum_side_bet_ev,
                    11,
                    best - 3,
                );
                assert(candidates[best] == sides[best - 3]);
                assert(offered(allowed, bet, j));
            }
        },
        None => {},
    }
}

/// Of the main bets, one is decided about that is worth no less than the others, and it is made
/// exactly when it is worth the threshold.
pub proof fn lemma_the_best_main_bet_is_made<E: Number>(
    value: spec_fn(E) -> real,
    policy: BettingPolicy<E>,
    main: EffectiveMainBets<E>,
    side: EffectiveSideBets<E>,
    other: MainBet,
)
    requires
        exact(value),
    ensures
        ({
            let decision = policy.main_decision(main);
            let metrics = metrics_of(main, side, BetTarget::Main(decision.candidate), 0);
            &&& decision.base_ev == metrics.base_ev
            &&& decision.rebate_ev == metrics.rebate_ev
            &&& decision.effective_ev == metrics.effective_ev
            &&& value(metrics_of(main, side, BetTarget::Main(other), 0).effective_ev) <= value(
                decision.effective_ev,
            )
            &&& value(decision.effective_ev) >= value(policy.minimum_effective_ev)
                <==> decision.action == (BetAction::<E>::Place { bet: decision.candidate })
            &&& decision.action is Place || decision.action is Skip
        }),
{
    let player = main.player.effective_ev;
    let banker = main.banker.effective_ev;
    let tie = main.tie.effective_ev;
    assert(order::above(banker, player) <==> value(banker) > value(player));
    assert(order::above(tie, player) <==> value(tie) > value(player));
    assert(order::above(tie, banker) <==> value(tie) > value(banker));
    let shown = policy.main_decision(main).effective_ev;
    assert(order::reaches(shown, policy.minimum_effective_ev) <==> value(shown) >= value(
        policy.minimum_effective_ev,
    ));
    reveal_with_fuel(order::first_best, 4);
}

/// A plan makes a bet exactly when the bet was decided for, its stake is above zero and, where the
/// stake is a part of the Kelly fraction, that fraction is above zero; it makes the bet that was
/// decided for, with the quoted stake.
pub proof fn lemma_plans_make_bets_that_pay<E: Number, F: Fn(E) -> E>(
    value: spec_fn(E) -> real,
    policy: KellyPolicy<E>,
    scale: Scale<E>,
    decision: CombinedBetDecision<E>,
    outcomes: Seq<KellyOutcome<E>>,
    bankroll: E,
    root: F,
    plan: CombinedBetPlan<E>,
)
    requires
        exact(value),
        plan::is_plan(policy, scale, decision, outcomes, bankroll, root, plan),
    ensures
        plan.decision == decision,
        plan.action is Place <==> {
            &&& decision.action is Place
            &&& plan.quote is Some
            &&& value(plan.quote->0.amount) > 0 as real
            &&& (policy.strategy is FullKelly || policy.strategy is HalfKelly
                || policy.strategy is QuarterKelly || policy.strategy is CustomKelly) ==> value(
                plan.quote->0.kelly_fraction,
            ) > 0 as real
        },
        plan.action matches CombinedBetPlanAction::Place { bet, amount } ==> amount
            == plan.quote->0.amount && decision.action == (CombinedBetAction::<E>::Place { bet }),
{
    if let Some(quote) = plan.quote {
        let zero = number::small::<E>(0);
        assert(order::reaches(zero, quote.amount) <==> value(quote.amount) <= 0 as real);
        assert(order::reaches(zero, quote.kelly_fraction) <==> value(quote.kelly_fraction)
            <= 0 as real);
    }
}

/// A plan for a main bet makes it exactly when a plan for one of all bets would.
pub proof fn lemma_main_plans_make_bets_that_pay<E: Number, F: Fn(E) -> E>(
    value: spec_fn(E) -> real,
    policy: KellyPolicy<E>,
    scale: Scale<E>,
    decision: BetDecision<E>,
    outcomes: Seq<KellyOutcome<E>>,
    bankroll: E,
    root: F,
    plan: BetPlan<E>,
)
    requires
        exact(value),
        plan::is_main_plan(policy, scale, decision, outcomes, bankroll, root, plan),
    ensures
        plan.decision == decision,
        plan.action is Place <==> {
            &&& decision.action is Place
            &&& plan.quote is Some
            &&& value(plan.quote->0.amount) > 0 as real
            &&& (policy.strategy is FullKelly || policy.strategy is HalfKelly
                || policy.strategy is QuarterKelly || policy.strategy is CustomKelly) ==> value(
                plan.quote->0.kelly_fraction,
            ) > 0 as real
        },
        plan.action matches BetPlanAction::Place { bet, amount } ==> amount
            == plan.quote->0.amount && decision.action == (BetAction::<E>::Place { bet }),
{
    if let Some(quote) = plan.quote {
        let zero = number::small::<E>(0);
        assert(order::reaches(zero, quote.amount) <==> value(quote.amount) <= 0 as real);
        assert(order::reaches(zero, quote.kelly_fraction) <==> value(quote.kelly_fraction)
            <= 0 as real);
    }
}

/// What a plan stakes.
pub open spec fn stake_of<E: Number>(value: spec_fn(E) -> real, plan: CombinedBetPlan<E>) -> real {
    match plan.action {
        CombinedBetPlanAction::Place { amount, .. } => value(amount),
        CombinedBetPlanAction::Skip { .. } => 0 as real,
    }
}

/// What the first plans stake together.
pub open spec fn staked<E: Number>(
    value: spec_fn(E) -> real,
    plans: Seq<CombinedBetPlan<E>>,
    count: int,
) -> real
    decreases count,
{
    if count <= 0 {
        0 as real
    } else {
        staked(value, plans, count - 1) + stake_of(value, plans[count - 1])
    }
}

proof fn lemma_staked<E: Number>(
    value: spec_fn(E) -> real,
    plans: Seq<CombinedBetPlan<E>>,
    count: int,
)
    requires
        exact(value),
        0 <= count <= plans.len(),
    ensures
        value(plan::total_stake(plans, count)) == staked(value, plans, count),
    decreases count,
{
    if count > 0 {
        lemma_staked(value, plans, count - 1);
    }
}

/// The bets of a round keep their stakes where these come to no more than the limit of the round;
/// otherwise every stake is lowered in the proportion of the limit to what all come to. The limit
/// is the least of the part of the bankroll that may be staked, the limit of a stake, the limit of
/// the table and the bankroll.
pub proof fn lemma_stakes_are_lowered_in_proportion<E: Number, F: Fn(E) -> E>(
    value: spec_fn(E) -> real,
    policy: KellyPolicy<E>,
    scale: Scale<E>,
    offer: RoundOffer<E>,
    rebate: RebateRule<E>,
    decisions: Seq<CombinedBetDecision<E>>,
    bankroll: E,
    root: F,
    plans: Seq<CombinedBetPlan<E>>,
    limit: real,
    i: int,
)
    requires
        exact(value),
        plan::are_plans(policy, scale, offer, rebate, decisions, bankroll, root, plans),
        limit > 0 as real,
        limit <= value(bankroll) * value(policy.max_fraction),
        limit <= value(policy.max_round_stake),
        limit <= value(policy.table_limit),
        limit <= value(bankroll),
        limit == value(bankroll) * value(policy.max_fraction) || limit == value(
            policy.max_round_stake,
        ) || limit == value(policy.table_limit) || limit == value(bankroll),
        0 <= i < plans.len(),
    ensures
        ({
            let shared = plan::shared(policy, plans, bankroll);
            let all = staked(value, plans, plans.len() as int);
            let before = stake_of(value, plans[i]);
            let after = stake_of(value, shared[i]);
            &&& shared.len() == plans.len()
            &&& shared[i].decision == plans[i].decision
            &&& shared[i].action is Place <==> plans[i].action is Place
            &&& all <= limit ==> after == before
            &&& all > limit ==> after * all == before * limit
            &&& shared[i].action is Place ==> {
                &&& shared[i].quote is Some
                &&& value(shared[i].quote->0.amount) == after
                &&& value(shared[i].quote->0.expected_profit) == after * value(
                    plans[i].quote->0.effective_ev,
                )
                &&& all <= limit ==> value(shared[i].quote->0.applied_fraction) == value(
                    plans[i].quote->0.applied_fraction,
                )
                &&& all > limit ==> value(shared[i].quote->0.applied_fraction) * all == value(
                    plans[i].quote->0.applied_fraction,
                ) * limit
            }
        }),
{
    let n = plans.len() as int;
    let zero = number::small::<E>(0);
    lemma_staked(value, plans, n);
    let total = plan::total_stake(plans, n);
    let all = value(total);
    let wanted = number::product(bankroll, policy.max_fraction);
    let first = order::lower(wanted, policy.max_round_stake);
    let second = order::lower(first, policy.table_limit);
    exact::lemma_extremes(value, wanted, policy.max_round_stake);
    exact::lemma_extremes(value, first, policy.table_limit);
    exact::lemma_extremes(value, second, bankroll);
    let most = plan::round_limit(policy, bankroll);
    assert(value(most) == limit);
    let factor = plan::common_factor(policy, plans, bankroll);
    let f = value(factor);
    assert(order::above(total, most) <==> all > limit);
    assert(order::above(total, zero) <==> all > 0 as real);
    assert(all > limit ==> f * all == limit);
    assert(all <= limit ==> f == 1 as real);
    assert(f > 0 as real) by {
        if all > limit && f <= 0 as real {
            exact::lemma_product_sign(-f, all);
            exact::lemma_opposite(f, all);
        }
    }
    let plan = plans[i];
    assert(plan::is_plan(
        policy,
        scale,
        decisions[i],
        offer.outcomes(rebate, decisions[i].candidate),
        bankroll,
        root,
        plan,
    ));
    lemma_plans_make_bets_that_pay(
        value,
        policy,
        scale,
        decisions[i],
        offer.outcomes(rebate, decisions[i].candidate),
        bankroll,
        root,
        plan,
    );
    if let CombinedBetPlanAction::Place { amount, .. } = plan.action {
        let quote = plan.quote->0;
        let a = value(amount);
        let g = value(quote.applied_fraction);
        let lowered = number::product(quote.amount, factor);
        exact::lemma_product_sign(a, f);
        assert(order::above(lowered, zero) <==> value(lowered) > 0 as real);
        assert(value(lowered) == a * f);
        assert(value(number::product(quote.applied_fraction, factor)) == g * f);
        lemma_in_proportion(a, f, all, limit);
        lemma_in_proportion(g, f, all, limit);
        assert(plan::shared(policy, plans, bankroll)[i] == plan.with_factor(factor));
    } else {
        exact::lemma_opposite(all, limit);
        exact::lemma_opposite(limit, all);
        assert(plan::shared(policy, plans, bankroll)[i] == plan.with_factor(factor));
    }
}

/// A number that is multiplied by a factor, times what the factor is a part of.
proof fn lemma_in_proportion(a: real, f: real, all: real, limit: real)
    ensures
        f == 1 as real ==> a * f == a,
        f * all == limit ==> (a * f) * all == a * limit,
{
    exact::lemma_factors(a, f, all);
    exact::lemma_opposite(a, f);
    if f * all == limit {
        exact::lemma_substitute(f * all, limit, a);
    }
}

/// A side bet with a limit may be made up to the round of its limit, which is the last one that it
/// may be made in; a side bet without one may be made in every round.
pub proof fn lemma_side_bets_stop_at_their_limit(
    limits: SideBetRoundLimits,
    bet: SideBet,
    round_no: u32,
)
    requires
        0 < round_no < u32::MAX,
    ensures
        limits.permits(bet, round_no) && !limits.permits(bet, (round_no + 1) as u32) <==> round_no
            == limits.of(bet),
        limits.of(bet) == 0 ==> limits.permits(bet, round_no),
        limits.of(bet) > 0 ==> limits.permits(bet, 1),
{
}

} // verus!
