//! The exclusive results of a bet, with the number of deals that end in each.
//!
//! Payouts and rebates are numbers of a type `P` that the caller picks; nothing here computes
//! with them.

use vstd::prelude::*;

use crate::baccarat::bet::{MainBet, MainBetRules};
use crate::baccarat::probability::{OutcomeWeights, OutcomeWeightsView};
use crate::baccarat::rebate::RebateRule;
use crate::baccarat::round::RoundOutcome;
use crate::baccarat::side_bet::{Settlement, SideBet, SideBetRules, SideBetWeights};

verus! {

/// One of the exclusive results of a bet: `weight` of `total` deals end in it, with this
/// settlement and this rebate rate.
#[derive(Debug, Clone, Copy, PartialEq, Eq)]
pub struct WeighedResult<P> {
    pub weight: u64,
    pub total: u64,
    pub settlement: Settlement<P>,
    pub rebate: Option<P>,
}

impl<P: Copy> WeighedResult<P> {
    /// A result from its parts.
    pub open spec fn of(
        weight: int,
        total: int,
        settlement: Settlement<P>,
        rebate: Option<P>,
    ) -> WeighedResult<P> {
        WeighedResult { weight: weight as u64, total: total as u64, settlement, rebate }
    }

    /// A result from its parts.
    pub fn new(weight: u64, total: u64, settlement: Settlement<P>, rebate: Option<P>) -> (outcome:
        WeighedResult<P>)
        ensures
            outcome == Self::of(weight as int, total as int, settlement, rebate),
    {
        WeighedResult { weight, total, settlement, rebate }
    }
}

/// The weights of results together.
pub open spec fn weight_of<P>(outcomes: Seq<WeighedResult<P>>) -> nat
    decreases outcomes.len(),
{
    if outcomes.len() == 0 {
        0
    } else {
        weight_of(outcomes.drop_last()) + outcomes.last().weight as nat
    }
}

/// The results of a main bet. A banker win is split by whether the banker has six points.
pub open spec fn main_distribution<P: Copy>(
    weights: OutcomeWeightsView,
    rules: MainBetRules<P>,
    rebate: RebateRule<P>,
    bet: MainBet,
) -> Seq<WeighedResult<P>> {
    let total = weights.total as int;
    let rate = |outcome: RoundOutcome|
        rebate.rate_where(RebateRule::<P>::covers(bet, outcome));
    let player = WeighedResult::of(
        weights.player as int,
        total,
        rules.settled(bet, RoundOutcome::Player, 0),
        rate(RoundOutcome::Player),
    );
    let tie = WeighedResult::of(
        weights.tie as int,
        total,
        rules.settled(bet, RoundOutcome::Tie, 0),
        rate(RoundOutcome::Tie),
    );
    let banker = |weight: int, points: int|
        WeighedResult::of(
            weight,
            total,
            rules.settled(bet, RoundOutcome::Banker, points),
            rate(RoundOutcome::Banker),
        );
    if bet == MainBet::Banker {
        seq![
            player,
            banker(weights.banker - weights.banker_win_on_six, 5),
            banker(weights.banker_win_on_six as int, 6),
            tie,
        ]
    } else {
        seq![player, banker(weights.banker as int, 5), tie]
    }
}

/// Lists the results of a main bet.
pub fn main_bet_results<P: Copy>(
    weights: OutcomeWeights,
    rules: MainBetRules<P>,
    rebate: RebateRule<P>,
    bet: MainBet,
) -> (outcomes: Vec<WeighedResult<P>>)
    ensures
        outcomes@ == main_distribution(weights@, rules, rebate, bet),
{
    let total: u64 = weights.total_weight();
    let banker: u64 = weights.banker_weight();
    let mut outcomes: Vec<WeighedResult<P>> = Vec::new();
    outcomes.push(
        WeighedResult::new(
            weights.player_weight(),
            total,
            rules.settle_with_banker_total(bet, RoundOutcome::Player, 0),
            rebate.rate_for(bet, RoundOutcome::Player),
        ),
    );
    let banker_rebate: Option<P> = rebate.rate_for(bet, RoundOutcome::Banker);
    if bet == MainBet::Banker {
        let six: u64 = weights.banker_win_on_six_weight();
        outcomes.push(
            WeighedResult::new(
                banker - six,
                total,
                rules.settle_with_banker_total(bet, RoundOutcome::Banker, 5),
                banker_rebate,
            ),
        );
        outcomes.push(
            WeighedResult::new(
                six,
                total,
                rules.settle_with_banker_total(bet, RoundOutcome::Banker, 6),
                banker_rebate,
            ),
        );
    } else {
        outcomes.push(
            WeighedResult::new(
                banker,
                total,
                rules.settle_with_banker_total(bet, RoundOutcome::Banker, 5),
                banker_rebate,
            ),
        );
    }
    outcomes.push(
        WeighedResult::new(
            weights.tie_weight(),
            total,
            rules.settle_with_banker_total(bet, RoundOutcome::Tie, 0),
            rebate.rate_for(bet, RoundOutcome::Tie),
        ),
    );
    proof {
        assert(outcomes@ =~= main_distribution(weights@, rules, rebate, bet));
    }
    outcomes
}

/// The results of a side bet: its tiers, its returned stakes where there are any, and its losses.
pub open spec fn side_distribution<P: Copy>(
    weights: SideBetWeights,
    rules: SideBetRules<P>,
    rebate: RebateRule<P>,
    bet: SideBet,
) -> Seq<WeighedResult<P>> {
    let total = weights.denominator() as int;
    let rate = rebate.rate_where(true);
    let push = weights.push(bet) as int;
    let wins = Seq::new(
        bet.tiers() as nat,
        |tier: int|
            WeighedResult::of(
                weights.tier(bet, tier) as int,
                total,
                Settlement::Win(rules.payout_at(bet, tier)),
                rate,
            ),
    );
    let pushes = if push > 0 {
        seq![WeighedResult::of(push, total, Settlement::<P>::Push, rate)]
    } else {
        seq![]
    };
    let losses = WeighedResult::of(
        total - weights.wins(bet) - push,
        total,
        Settlement::<P>::Lose,
        rate,
    );
    (wins + pushes).push(losses)
}

/// The number of different payouts of a side bet.
pub fn tier_count(bet: SideBet) -> (count: u8)
    ensures
        count == bet.tiers(),
{
    match bet {
        SideBet::LuckySeven => 2,
        SideBet::SuperLuckySeven => 3,
        SideBet::LuckySix => 2,
        SideBet::BankerDragonBonus => 6,
        SideBet::PlayerDragonBonus => 6,
        _ => 1,
    }
}

/// Lists the results of a side bet, with the same rebate on each.
pub fn side_bet_results<P: Copy>(
    weights: SideBetWeights,
    rules: SideBetRules<P>,
    rebate: RebateRule<P>,
    bet: SideBet,
) -> (outcomes: Vec<WeighedResult<P>>)
    requires
        weights.wins(bet) + weights.push(bet) <= weights.denominator(),
    ensures
        outcomes@ == side_distribution(weights, rules, rebate, bet),
{
    let total: u64 = weights.total_weight();
    let rate: Option<P> = rebate.rate_for_side_bet();
    let tiers: u8 = tier_count(bet);
    let mut outcomes: Vec<WeighedResult<P>> = Vec::new();
    let mut tier: u8 = 0;
    while tier < tiers
        invariant
            0 <= tier <= tiers,
            tiers == bet.tiers(),
            total == weights.denominator(),
            rate == rebate.rate_where(true),
            outcomes@ == Seq::new(
                tier as nat,
                |i: int|
                    WeighedResult::of(
                        weights.tier(bet, i) as int,
                        weights.denominator() as int,
                        Settlement::Win(rules.payout_at(bet, i)),
                        rate,
                    ),
            ),
        decreases tiers - tier,
    {
        outcomes.push(
            WeighedResult::new(
                weights.tier_weight(bet, tier),
                total,
                Settlement::Win(rules.tier_payout(bet, tier)),
                rate,
            ),
        );
        tier = tier + 1;
    }
    let push: u64 = weights.push_weight(bet);
    if push > 0 {
        outcomes.push(WeighedResult::new(push, total, Settlement::Push, rate));
    }
    let wins: u64 = weights.win_weight(bet);
    outcomes.push(WeighedResult::new(total - wins - push, total, Settlement::Lose, rate));
    proof {
        assert(outcomes@ =~= side_distribution(weights, rules, rebate, bet));
    }
    outcomes
}

/// The results of a main bet make up all deals.
pub proof fn lemma_main_distribution_is_complete<P: Copy>(
    weights: OutcomeWeightsView,
    rules: MainBetRules<P>,
    rebate: RebateRule<P>,
    bet: MainBet,
)
    requires
        weights.wf(),
    ensures
        weight_of(main_distribution(weights, rules, rebate, bet)) == weights.total,
{
    reveal_with_fuel(weight_of, 5);
    let all = main_distribution(weights, rules, rebate, bet);
    let first = all.drop_last();
    let second = first.drop_last();
    let third = second.drop_last();
    assert(all.last() == all[all.len() - 1]);
    assert(first.last() == all[all.len() - 2]);
    assert(second.last() == all[all.len() - 3]);
    if bet == MainBet::Banker {
        assert(third.last() == all[0]);
    }
}

/// The results of a side bet make up all deals.
pub proof fn lemma_side_distribution_is_complete<P: Copy>(
    weights: SideBetWeights,
    rules: SideBetRules<P>,
    rebate: RebateRule<P>,
    bet: SideBet,
)
    requires
        weights.wins(bet) + weights.push(bet) <= weights.denominator() <= u64::MAX,
    ensures
        weight_of(side_distribution(weights, rules, rebate, bet)) == weights.denominator(),
{
    let all = side_distribution(weights, rules, rebate, bet);
    let total = weights.denominator() as int;
    let rate = rebate.rate_where(true);
    let wins = Seq::new(
        bet.tiers() as nat,
        |tier: int|
            WeighedResult::of(
                weights.tier(bet, tier) as int,
                total,
                Settlement::Win(rules.payout_at(bet, tier)),
                rate,
            ),
    );
    let rest = all.drop_last();
    assert(weight_of(wins) == weights.wins(bet)) by {
        reveal_with_fuel(weight_of, 7);
    }
    assert(all.last().weight == total - weights.wins(bet) - weights.push(bet));
    if weights.push(bet) > 0 {
        assert(rest.drop_last() =~= wins);
        assert(rest.last().weight == weights.push(bet));
        assert(weight_of(rest) == weights.wins(bet) + weights.push(bet));
    } else {
        assert(rest =~= wins);
    }
    assert(weight_of(all) == weight_of(rest) + all.last().weight as nat);
}

/// What a result earns on one unit of stake, without the rebate.
pub open spec fn earned(settlement: Settlement<i64>, unit: int) -> int {
    match settlement {
        Settlement::Lose => -unit,
        Settlement::Push => 0,
        Settlement::Win(payout) => payout as int,
    }
}

/// The rebate of a result on one unit of stake.
pub open spec fn rebated(rebate: Option<i64>) -> int {
    match rebate {
        Some(rate) => rate as int,
        None => 0,
    }
}

/// What all deals together earn on one unit of stake each, rebates included.
pub open spec fn earnings(outcomes: Seq<WeighedResult<i64>>, unit: int) -> int
    decreases outcomes.len(),
{
    if outcomes.len() == 0 {
        0
    } else {
        earnings(outcomes.drop_last(), unit) + outcomes.last().weight * (earned(
            outcomes.last().settlement,
            unit,
        ) + rebated(outcomes.last().rebate))
    }
}

/// What the winning deals of a side bet give back, stakes included, among the first tiers.
pub open spec fn returned(
    weights: SideBetWeights,
    rules: SideBetRules<i64>,
    bet: SideBet,
    unit: int,
    tiers: int,
) -> int
    decreases tiers,
{
    if tiers <= 0 {
        0
    } else {
        returned(weights, rules, bet, unit, tiers - 1) + weights.tier(bet, tiers - 1) * (unit
            + rules.payout_at(bet, tiers - 1))
    }
}

proof fn lemma_earnings_push(
    outcomes: Seq<WeighedResult<i64>>,
    outcome: WeighedResult<i64>,
    unit: int,
)
    ensures
        earnings(outcomes.push(outcome), unit) == earnings(outcomes, unit) + outcome.weight * (
        earned(outcome.settlement, unit) + rebated(outcome.rebate)),
{
    assert(outcomes.push(outcome).drop_last() =~= outcomes);
}

proof fn lemma_tier_earnings(
    weights: SideBetWeights,
    rules: SideBetRules<i64>,
    bet: SideBet,
    rate: Option<i64>,
    unit: int,
    tiers: int,
)
    requires
        0 <= tiers <= bet.tiers(),
        weights.wins(bet) <= u64::MAX,
    ensures
        ({
            let wins = Seq::new(
                tiers as nat,
                |tier: int|
                    WeighedResult::of(
                        weights.tier(bet, tier) as int,
                        weights.denominator() as int,
                        Settlement::Win(rules.payout_at(bet, tier)),
                        rate,
                    ),
            );
            earnings(wins, unit) == returned(weights, rules, bet, unit, tiers) + (rebated(rate)
                - unit) * tier_sum(weights, bet, tiers)
        }),
        tier_sum(weights, bet, bet.tiers()) == weights.wins(bet),
    decreases tiers,
{
    reveal_with_fuel(tier_sum, 7);
    let wins = Seq::new(
        tiers as nat,
        |tier: int|
            WeighedResult::of(
                weights.tier(bet, tier) as int,
                weights.denominator() as int,
                Settlement::Win(rules.payout_at(bet, tier)),
                rate,
            ),
    );
    if tiers > 0 {
        lemma_tier_earnings(weights, rules, bet, rate, unit, tiers - 1);
        let before = Seq::new(
            (tiers - 1) as nat,
            |tier: int|
                WeighedResult::of(
                    weights.tier(bet, tier) as int,
                    weights.denominator() as int,
                    Settlement::Win(rules.payout_at(bet, tier)),
                    rate,
                ),
        );
        assert(wins.drop_last() =~= before);
        let weight = weights.tier(bet, tiers - 1) as int;
        let payout = rules.payout_at(bet, tiers - 1) as int;
        assert(wins.last().weight == weight);
        assert(tier_sum(weights, bet, tiers) == tier_sum(weights, bet, tiers - 1) + weight);
        let rest = tier_sum(weights, bet, tiers - 1);
        let back = rebated(rate);
        assert(weight * (payout + back) + (back - unit) * rest == weight * (unit + payout) + (back
            - unit) * (rest + weight)) by (nonlinear_arith);
    }
}

/// The winning deals of a side bet among the first tiers.
pub open spec fn tier_sum(weights: SideBetWeights, bet: SideBet, tiers: int) -> int
    decreases tiers,
{
    if tiers <= 0 {
        0
    } else {
        tier_sum(weights, bet, tiers - 1) + weights.tier(bet, tiers - 1)
    }
}

/// What a side bet earns is what it gives back less the stakes, plus the rebate on every deal.
/// A returned stake is given back and earns nothing.
pub proof fn lemma_side_bet_earnings(
    weights: SideBetWeights,
    rules: SideBetRules<i64>,
    rebate: RebateRule<i64>,
    bet: SideBet,
    unit: int,
)
    requires
        weights.wins(bet) + weights.push(bet) <= weights.denominator() <= u64::MAX,
    ensures
        earnings(side_distribution(weights, rules, rebate, bet), unit) == returned(
            weights,
            rules,
            bet,
            unit,
            bet.tiers(),
        ) + unit * weights.push(bet) - unit * weights.denominator() + rebated(
            rebate.rate_where(true),
        ) * weights.denominator(),
{
    let total = weights.denominator() as int;
    let rate = rebate.rate_where(true);
    let push = weights.push(bet) as int;
    let won = weights.wins(bet) as int;
    let back = rebated(rate);
    let wins = Seq::new(
        bet.tiers() as nat,
        |tier: int|
            WeighedResult::of(
                weights.tier(bet, tier) as int,
                total,
                Settlement::Win(rules.payout_at(bet, tier)),
                rate,
            ),
    );
    lemma_tier_earnings(weights, rules, bet, rate, unit, bet.tiers());
    let given = returned(weights, rules, bet, unit, bet.tiers());
    let losses = WeighedResult::of(total - won - push, total, Settlement::<i64>::Lose, rate);
    let pushes = WeighedResult::of(push, total, Settlement::<i64>::Push, rate);
    if push > 0 {
        lemma_earnings_push(wins, pushes, unit);
        lemma_earnings_push(wins.push(pushes), losses, unit);
        assert(side_distribution(weights, rules, rebate, bet) =~= wins.push(pushes).push(losses));
    } else {
        lemma_earnings_push(wins, losses, unit);
        assert(side_distribution(weights, rules, rebate, bet) =~= wins.push(losses));
    }
    assert((back - unit) * won + push * (0 + back) + (total - won - push) * (-unit + back) == unit
        * push - unit * total + back * total) by (nonlinear_arith);
    assert(push == 0 ==> push * (0 + back) == 0) by (nonlinear_arith);
}

/// What a main bet earns: its payout on the deals that it names, less the stakes of those that
/// it loses, plus the rebate on the deals that the rebate covers. A banker win with six points
/// pays its own payout.
pub proof fn lemma_main_bet_earnings(
    weights: OutcomeWeightsView,
    rules: MainBetRules<i64>,
    rebate: RebateRule<i64>,
    bet: MainBet,
    unit: int,
)
    requires
        weights.wf(),
    ensures
        earnings(main_distribution(weights, rules, rebate, bet), unit) == match bet {
            MainBet::Player => weights.player * rules.player_payout - weights.banker * unit
                + rebated(rebate.rate_where(true)) * (weights.player + weights.banker),
            MainBet::Banker => (weights.banker - weights.banker_win_on_six) * rules.banker_pays(5)
                + weights.banker_win_on_six * rules.banker_pays(6) - weights.player * unit
                + rebated(rebate.rate_where(true)) * (weights.player + weights.banker),
            MainBet::Tie => weights.tie * rules.tie_payout - (weights.player + weights.banker)
                * unit + rebated(rebate.rate_where(true)) * weights.total,
        },
{
    let all = main_distribution(weights, rules, rebate, bet);
    let p = weights.player as int;
    let b = weights.banker as int;
    let t = weights.tie as int;
    let six = weights.banker_win_on_six as int;
    let back = rebated(rebate.rate_where(true));
    assert(rebated(rebate.rate_where(false)) == 0);
    reveal_with_fuel(earnings, 5);
    let first = all.drop_last();
    let second = first.drop_last();
    let third = second.drop_last();
    assert(all.last() == all[all.len() - 1]);
    assert(first.last() == all[all.len() - 2]);
    assert(second.last() == all[all.len() - 3]);
    match bet {
        MainBet::Player => {
            let pay = rules.player_payout as int;
            assert(p * (pay + back) + b * (-unit + back) + t * (0 + 0) == p * pay - b * unit + back
                * (p + b)) by (nonlinear_arith);
        },
        MainBet::Banker => {
            assert(third.last() == all[0]);
            let pay = rules.banker_pays(5) as int;
            let low = rules.banker_pays(6) as int;
            assert(p * (-unit + back) + (b - six) * (pay + back) + six * (low + back) + t * (0 + 0)
                == (b - six) * pay + six * low - p * unit + back * (p + b)) by (nonlinear_arith);
        },
        MainBet::Tie => {
            let pay = rules.tie_payout as int;
            assert(p * (-unit + back) + b * (-unit + back) + t * (pay + back) == t * pay - (p + b)
                * unit + back * (p + b + t)) by (nonlinear_arith);
        },
    }
}

} // verus!
