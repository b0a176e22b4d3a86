//! Expected values: exact weights and payouts turned into numbers.

use vstd::prelude::*;

use crate::baccarat::analysis::{
    BetMetrics, EffectiveBetMetrics, EffectiveMainBets, EffectiveSideBets, MainBetAnalysis,
};
use crate::baccarat::bet::{BankerPayoutRule, MainBet, MainBetRules};
use crate::baccarat::deals;
use crate::baccarat::distribution::tier_count;
use crate::baccarat::point_enumerate::calculate_main_outcomes;
use crate::baccarat::probability::{OutcomeWeights, OutcomeWeightsView, ProbabilityError};
use crate::baccarat::rebate::RebateRule;
use crate::baccarat::round::RoundOutcome;
use crate::baccarat::side_bet::{Settlement, SideBet, SideBetRules, SideBetWeights};
use crate::number;
use crate::number::Number;
use crate::shoe::Shoe;

verus! {

/// The number below zero by one.
pub open spec fn minus_one<E: Number>() -> E {
    number::difference(number::small::<E>(0), number::small::<E>(1))
}

/// The net profit of a settled bet per unit of stake.
pub open spec fn net_profit<E: Number>(settlement: Settlement<E>) -> E {
    match settlement {
        Settlement::Lose => minus_one(),
        Settlement::Push => number::small::<E>(0),
        Settlement::Win(payout) => payout,
    }
}

/// Gives the net profit of a settled bet per unit of stake.
pub fn profit_of<E: Number>(settlement: Settlement<E>) -> (profit: E)
    requires
        number::arithmetic::<E>(),
    ensures
        profit == net_profit(settlement),
{
    match settlement {
        Settlement::Lose => E::from(0u32) - E::from(1u32),
        Settlement::Push => E::from(0u32),
        Settlement::Win(payout) => payout,
    }
}

/// A rebate rate as a number, zero where no rebate is paid.
pub open spec fn rebate_rate<E: Number>(rate: Option<E>) -> E {
    match rate {
        Some(rate) => rate,
        None => number::small::<E>(0),
    }
}

/// Gives a rebate rate as a number, zero where no rebate is paid.
pub fn rate_of<E: Number>(rate: Option<E>) -> (number: E)
    requires
        number::arithmetic::<E>(),
    ensures
        number == rebate_rate(rate),
{
    match rate {
        Some(rate) => rate,
        None => E::from(0u32),
    }
}

impl OutcomeWeights {
    /// The chance that the player wins.
    pub fn player_probability<E: Number>(self) -> (probability: E)
        requires
            number::arithmetic::<E>(),
        ensures
            probability == number::share::<E>(self@.player as int, self@.total as int),
    {
        number::share_of(self.player_weight(), self.total_weight())
    }

    /// The chance that the banker wins.
    pub fn banker_probability<E: Number>(self) -> (probability: E)
        requires
            number::arithmetic::<E>(),
        ensures
            probability == number::share::<E>(self@.banker as int, self@.total as int),
    {
        number::share_of(self.banker_weight(), self.total_weight())
    }

    /// The chance that the banker wins with six points.
    pub fn banker_win_on_six_probability<E: Number>(self) -> (probability: E)
        requires
            number::arithmetic::<E>(),
        ensures
            probability == number::share::<E>(self@.banker_win_on_six as int, self@.total as int),
    {
        number::share_of(self.banker_win_on_six_weight(), self.total_weight())
    }

    /// The chance of a tie.
    pub fn tie_probability<E: Number>(self) -> (probability: E)
        requires
            number::arithmetic::<E>(),
        ensures
            probability == number::share::<E>(self@.tie as int, self@.total as int),
    {
        number::share_of(self.tie_weight(), self.total_weight())
    }
}

impl SideBetWeights {
    /// The chance that a bet wins in any tier. A returned stake is no win.
    pub fn probability<E: Number>(self, bet: SideBet) -> (probability: E)
        requires
            number::arithmetic::<E>(),
            self.wins(bet) <= u64::MAX,
        ensures
            probability == number::share::<E>(self.wins(bet) as int, self.denominator() as int),
    {
        number::share_of(self.win_weight(bet), self.total_weight())
    }
}

/// The expected net profit of the three main bets per unit of stake.
#[derive(Debug, Clone, Copy, PartialEq, Eq)]
pub struct MainBetEv<E> {
    pub player: E,
    pub banker: E,
    pub tie: E,
}

/// The expected net profit of a bet whose payout depends on the outcome alone.
pub open spec fn outcome_ev<E: Number>(
    weights: OutcomeWeightsView,
    rules: MainBetRules<E>,
    bet: MainBet,
) -> E {
    let total = weights.total as int;
    number::sum(
        number::sum(
            number::product(
                number::share::<E>(weights.player as int, total),
                net_profit(rules.settled(bet, RoundOutcome::Player, 0)),
            ),
            number::product(
                number::share::<E>(weights.banker as int, total),
                net_profit(rules.settled(bet, RoundOutcome::Banker, 0)),
            ),
        ),
        number::product(
            number::share::<E>(weights.tie as int, total),
            net_profit(rules.settled(bet, RoundOutcome::Tie, 0)),
        ),
    )
}

/// The expected net profit of the banker bet. The banker wins with six points are kept apart:
/// they may pay less.
pub open spec fn banker_ev<E: Number>(weights: OutcomeWeightsView, rules: MainBetRules<E>) -> E {
    let total = weights.total as int;
    number::sum(
        number::sum(
            number::sum(
                number::product(
                    number::share::<E>(weights.player as int, total),
                    minus_one::<E>(),
                ),
                number::product(
                    number::share::<E>(weights.banker - weights.banker_win_on_six, total),
                    rules.banker_pays(5),
                ),
            ),
            number::product(
                number::share::<E>(weights.banker_win_on_six as int, total),
                rules.banker_pays(6),
            ),
        ),
        number::product(number::share::<E>(weights.tie as int, total), number::small::<E>(0)),
    )
}

impl<E: Number> MainBetEv<E> {
    /// The expected values of a set of weights.
    pub open spec fn of_weights(weights: OutcomeWeightsView, rules: MainBetRules<E>) -> MainBetEv<
        E,
    > {
        MainBetEv {
            player: outcome_ev(weights, rules, MainBet::Player),
            banker: banker_ev(weights, rules),
            tie: outcome_ev(weights, rules, MainBet::Tie),
        }
    }

    /// The expected value of a bet.
    pub open spec fn of(self, bet: MainBet) -> E {
        match bet {
            MainBet::Player => self.player,
            MainBet::Banker => self.banker,
            MainBet::Tie => self.tie,
        }
    }

    /// Computes the expected values of the three main bets.
    pub fn calculate(weights: OutcomeWeights, rules: MainBetRules<E>) -> (ev: MainBetEv<E>)
        requires
            number::arithmetic::<E>(),
        ensures
            ev == MainBetEv::of_weights(weights@, rules),
    {
        let player: E = weights.player_probability();
        let banker: E = weights.banker_probability();
        let tie: E = weights.tie_probability();
        let six: u64 = weights.banker_win_on_six_weight();
        let other: u64 = weights.banker_weight() - six;
        let banker_other: E = number::share_of(other, weights.total_weight());
        let banker_six: E = weights.banker_win_on_six_probability();
        let zero: E = E::from(0u32);
        let loss: E = zero - E::from(1u32);
        MainBetEv {
            player: player * profit_of(rules.settle(MainBet::Player, RoundOutcome::Player)) + banker
                * profit_of(rules.settle(MainBet::Player, RoundOutcome::Banker)) + tie * profit_of(
                rules.settle(MainBet::Player, RoundOutcome::Tie),
            ),
            banker: player * loss + banker_other * rules.banker_payout_for_total(5) + banker_six
                * rules.banker_payout_for_total(6) + tie * zero,
            tie: player * profit_of(rules.settle(MainBet::Tie, RoundOutcome::Player)) + banker
                * profit_of(rules.settle(MainBet::Tie, RoundOutcome::Banker)) + tie * profit_of(
                rules.settle(MainBet::Tie, RoundOutcome::Tie),
            ),
        }
    }

    /// The expected value of the player bet.
    pub fn player_ev(self) -> (ev: E)
        ensures
            ev == self.player,
    {
        self.player
    }

    /// The expected value of the banker bet.
    pub fn banker_ev(self) -> (ev: E)
        ensures
            ev == self.banker,
    {
        self.banker
    }

    /// The expected value of the tie bet.
    pub fn tie_ev(self) -> (ev: E)
        ensures
            ev == self.tie,
    {
        self.tie
    }

    /// The expected value of a bet.
    pub fn ev(self, bet: MainBet) -> (ev: E)
        ensures
            ev == self.of(bet),
    {
        match bet {
            MainBet::Player => self.player,
            MainBet::Banker => self.banker,
            MainBet::Tie => self.tie,
        }
    }

    /// What the house expects to keep of a bet.
    pub fn house_edge(self, bet: MainBet) -> (edge: E)
        requires
            number::arithmetic::<E>(),
        ensures
            edge == number::difference(number::small::<E>(0), self.of(bet)),
    {
        E::from(0u32) - self.ev(bet)
    }

    /// What a bet expects to give back, the stake included.
    pub fn return_to_player(self, bet: MainBet) -> (share: E)
        requires
            number::arithmetic::<E>(),
        ensures
            share == number::sum(number::small::<E>(1), self.of(bet)),
    {
        E::from(1u32) + self.ev(bet)
    }
}

impl<E: Number> BetMetrics<E> {
    /// What the house expects to keep of the bet.
    pub fn house_edge(self) -> (edge: E)
        requires
            number::arithmetic::<E>(),
        ensures
            edge == number::difference(number::small::<E>(0), self.ev),
    {
        E::from(0u32) - self.ev
    }

    /// What the bet expects to give back, the stake included.
    pub fn rtp(self) -> (share: E)
        requires
            number::arithmetic::<E>(),
        ensures
            share == number::sum(number::small::<E>(1), self.ev),
    {
        E::from(1u32) + self.ev
    }
}

impl<E: Number> EffectiveBetMetrics<E> {
    /// What the house expects to keep of the bet after the rebate.
    pub fn house_edge(self) -> (edge: E)
        requires
            number::arithmetic::<E>(),
        ensures
            edge == number::difference(number::small::<E>(0), self.effective_ev),
    {
        E::from(0u32) - self.effective_ev
    }

    /// What the bet expects to give back, the stake and the rebate included.
    pub fn rtp(self) -> (share: E)
        requires
            number::arithmetic::<E>(),
        ensures
            share == number::sum(number::small::<E>(1), self.effective_ev),
    {
        E::from(1u32) + self.effective_ev
    }
}

/// The metrics of the three main bets for a set of weights.
pub open spec fn main_analysis<E: Number>(
    weights: OutcomeWeightsView,
    rules: MainBetRules<E>,
) -> MainBetAnalysis<E> {
    let ev = MainBetEv::of_weights(weights, rules);
    let total = weights.total as int;
    MainBetAnalysis {
        player: BetMetrics {
            probability: number::share(weights.player as int, total),
            ev: ev.player,
        },
        banker: BetMetrics {
            probability: number::share(weights.banker as int, total),
            ev: ev.banker,
        },
        tie: BetMetrics { probability: number::share(weights.tie as int, total), ev: ev.tie },
    }
}

/// The expected rebate of a main bet: the rate of each outcome, weighed by its chance.
pub open spec fn expected_rebate<E: Number>(
    analysis: MainBetAnalysis<E>,
    bet: MainBet,
    rebate: RebateRule<E>,
) -> E {
    let rate = |outcome: RoundOutcome|
        rebate_rate(rebate.rate_where(RebateRule::<E>::covers(bet, outcome)));
    number::sum(
        number::sum(
            number::sum(
                number::small::<E>(0),
                number::product(analysis.player.probability, rate(RoundOutcome::Player)),
            ),
            number::product(analysis.banker.probability, rate(RoundOutcome::Banker)),
        ),
        number::product(analysis.tie.probability, rate(RoundOutcome::Tie)),
    )
}

/// The metrics of a main bet with the rebate taken into account.
pub open spec fn with_rebate<E: Number>(
    analysis: MainBetAnalysis<E>,
    bet: MainBet,
    rebate: RebateRule<E>,
) -> EffectiveBetMetrics<E> {
    let rebate_ev = expected_rebate(analysis, bet, rebate);
    EffectiveBetMetrics {
        probability: analysis.of(bet).probability,
        base_ev: analysis.of(bet).ev,
        rebate_ev,
        effective_ev: number::sum(analysis.of(bet).ev, rebate_ev),
    }
}

/// The metrics of all main bets with the rebate taken into account.
pub open spec fn all_with_rebate<E: Number>(
    analysis: MainBetAnalysis<E>,
    rebate: RebateRule<E>,
) -> EffectiveMainBets<E> {
    EffectiveMainBets {
        player: with_rebate(analysis, MainBet::Player, rebate),
        banker: with_rebate(analysis, MainBet::Banker, rebate),
        tie: with_rebate(analysis, MainBet::Tie, rebate),
    }
}

/// Adds the expected rebate to the metrics of a main bet.
pub fn effective_ev<E: Number>(
    analysis: MainBetAnalysis<E>,
    bet: MainBet,
    rebate: RebateRule<E>,
) -> (metrics: EffectiveBetMetrics<E>)
    requires
        number::arithmetic::<E>(),
    ensures
        metrics == with_rebate(analysis, bet, rebate),
{
    let base: BetMetrics<E> = analysis.metrics(bet);
    let rebate_ev: E = E::from(0u32) + analysis.player.probability * rate_of(
        rebate.rate_for(bet, RoundOutcome::Player),
    ) + analysis.banker.probability * rate_of(rebate.rate_for(bet, RoundOutcome::Banker))
        + analysis.tie.probability * rate_of(rebate.rate_for(bet, RoundOutcome::Tie));
    EffectiveBetMetrics {
        probability: base.probability,
        base_ev: base.ev,
        rebate_ev,
        effective_ev: base.ev + rebate_ev,
    }
}

impl<E: Number> MainBetAnalysis<E> {
    /// Combines the weights of a shoe with payouts.
    pub fn from_weights(weights: OutcomeWeights, rules: MainBetRules<E>) -> (analysis:
        MainBetAnalysis<E>)
        requires
            number::arithmetic::<E>(),
        ensures
            analysis == main_analysis(weights@, rules),
    {
        let ev: MainBetEv<E> = MainBetEv::calculate(weights, rules);
        MainBetAnalysis {
            player: BetMetrics::new(weights.player_probability(), ev.player),
            banker: BetMetrics::new(weights.banker_probability(), ev.banker),
            tie: BetMetrics::new(weights.tie_probability(), ev.tie),
        }
    }

    /// The metrics of a bet with the rebate taken into account.
    pub fn effective_metrics(self, bet: MainBet, rebate: RebateRule<E>) -> (metrics:
        EffectiveBetMetrics<E>)
        requires
            number::arithmetic::<E>(),
        ensures
            metrics == with_rebate(self, bet, rebate),
    {
        effective_ev(self, bet, rebate)
    }

    /// The metrics of all bets with the rebate taken into account.
    pub fn with_rebate(self, rebate: RebateRule<E>) -> (bets: EffectiveMainBets<E>)
        requires
            number::arithmetic::<E>(),
        ensures
            bets == all_with_rebate(self, rebate),
    {
        EffectiveMainBets {
            player: effective_ev(self, MainBet::Player, rebate),
            banker: effective_ev(self, MainBet::Banker, rebate),
            tie: effective_ev(self, MainBet::Tie, rebate),
        }
    }

    /// The main bet with the largest effective value, the earliest where several rank alike.
    pub fn optimal_effective_bet(self, rebate: RebateRule<E>) -> (bet: MainBet)
        requires
            number::arithmetic::<E>(),
        ensures
            bet == all_with_rebate(self, rebate).best(),
    {
        self.with_rebate(rebate).optimal_effective_bet()
    }

    /// The effective value of the optimal bet.
    pub fn optimal_effective_ev(self, rebate: RebateRule<E>) -> (ev: E)
        requires
            number::arithmetic::<E>(),
        ensures
            ev == with_rebate(self, all_with_rebate(self, rebate).best(), rebate).effective_ev,
    {
        self.with_rebate(rebate).optimal_effective_ev()
    }
}

/// Analyses the main bets on the next round of a shoe.
pub fn analyze_main_bets<E: Number>(shoe: &Shoe, rules: MainBetRules<E>) -> (result: Result<
    MainBetAnalysis<E>,
    ProbabilityError,
>)
    requires
        number::arithmetic::<E>(),
    ensures
        match result {
            Ok(analysis) => shoe@.total() >= 6 && analysis == main_analysis(
                deals::main_weights(shoe@),
                rules,
            ),
            Err(error) => shoe@.total() < 6 && error == (ProbabilityError::NotEnoughCards {
                remaining: shoe@.total() as u16,
            }),
        },
{
    match calculate_main_outcomes(shoe) {
        Ok(weights) => Ok(MainBetAnalysis::from_weights(weights, rules)),
        Err(error) => Err(error),
    }
}

/// The chance and the expected net profit of a side bet per unit of stake.
#[derive(Debug, Clone, Copy, PartialEq, Eq)]
pub struct SideBetMetrics<E> {
    pub probability: E,
    pub ev: E,
}

/// What the winning deals among the first tiers of a side bet give back per unit of stake.
pub open spec fn winning_return<E: Number>(
    weights: SideBetWeights,
    rules: SideBetRules<E>,
    bet: SideBet,
    tiers: int,
) -> E
    decreases tiers,
{
    if tiers <= 0 {
        number::small::<E>(0)
    } else {
        number::sum(
            winning_return(weights, rules, bet, tiers - 1),
            number::product(
                number::share::<E>(
                    weights.tier(bet, tiers - 1) as int,
                    weights.denominator() as int,
                ),
                number::sum(number::small::<E>(1), rules.payout_at(bet, tiers - 1)),
            ),
        )
    }
}

/// The expected net profit of a side bet: what it gives back, returned stakes included, less
/// the stake.
pub open spec fn side_ev<E: Number>(
    weights: SideBetWeights,
    rules: SideBetRules<E>,
    bet: SideBet,
) -> E {
    number::difference(
        number::sum(
            winning_return(weights, rules, bet, bet.tiers()),
            number::share::<E>(weights.push(bet) as int, weights.denominator() as int),
        ),
        number::small::<E>(1),
    )
}

impl<E: Number> SideBetMetrics<E> {
    /// The metrics of a side bet.
    pub open spec fn of(weights: SideBetWeights, rules: SideBetRules<E>, bet: SideBet) -> (
        SideBetMetrics<E>) {
        SideBetMetrics {
            probability: number::share::<E>(weights.wins(bet) as int, weights.denominator() as int),
            ev: side_ev(weights, rules, bet),
        }
    }

    /// Computes the metrics of a side bet.
    pub fn calculate(weights: SideBetWeights, rules: SideBetRules<E>, bet: SideBet) -> (metrics:
        SideBetMetrics<E>)
        requires
            number::arithmetic::<E>(),
            weights.wins(bet) <= u64::MAX,
        ensures
            metrics == SideBetMetrics::of(weights, rules, bet),
    {
        let total: u64 = weights.total_weight();
        let tiers: u8 = tier_count(bet);
        let one: E = E::from(1u32);
        let mut returned: E = E::from(0u32);
        let mut tier: u8 = 0;
        while tier < tiers
            invariant
                number::arithmetic::<E>(),
                tier <= tiers,
                tiers == bet.tiers(),
                total == weights.denominator(),
                one == number::small::<E>(1),
                returned == winning_return(weights, rules, bet, tier as int),
            decreases tiers - tier,
        {
            let chance: E = number::share_of(weights.tier_weight(bet, tier), total);
            returned = returned + chance * (one + rules.tier_payout(bet, tier));
            tier = tier + 1;
        }
        let pushed: E = number::share_of(weights.push_weight(bet), total);
        SideBetMetrics { probability: weights.probability(bet), ev: returned + pushed - one }
    }

    /// The chance that the bet wins in any tier.
    pub fn probability(self) -> (probability: E)
        ensures
            probability == self.probability,
    {
        self.probability
    }

    /// The expected net profit per unit of stake.
    pub fn ev(self) -> (ev: E)
        ensures
            ev == self.ev,
    {
        self.ev
    }

    /// What the house expects to keep of the bet.
    pub fn house_edge(self) -> (edge: E)
        requires
            number::arithmetic::<E>(),
        ensures
            edge == number::difference(number::small::<E>(0), self.ev),
    {
        E::from(0u32) - self.ev
    }

    /// What the bet expects to give back, the stake included.
    pub fn rtp(self) -> (share: E)
        requires
            number::arithmetic::<E>(),
        ensures
            share == number::sum(number::small::<E>(1), self.ev),
    {
        E::from(1u32) + self.ev
    }
}

/// The metrics of a side bet with the rebate, which every outcome earns.
pub open spec fn side_with_rebate<E: Number>(
    metrics: SideBetMetrics<E>,
    rebate: RebateRule<E>,
) -> EffectiveBetMetrics<E> {
    let rebate_ev = rebate_rate(rebate.rate_where(true));
    EffectiveBetMetrics {
        probability: metrics.probability,
        base_ev: metrics.ev,
        rebate_ev,
        effective_ev: number::sum(metrics.ev, rebate_ev),
    }
}

/// Whether every side bet wins on no more deals than a weight can count.
pub open spec fn countable(weights: SideBetWeights) -> bool {
    forall|bet: SideBet| #[trigger] weights.wins(bet) <= u64::MAX
}

/// Whether the winning and the returned deals of every side bet are among all deals.
pub open spec fn consistent(weights: SideBetWeights) -> bool {
    forall|bet: SideBet| #[trigger]
        weights.wins(bet) + weights.push(bet) <= weights.denominator()
}

/// The metrics of the side bets without a rebate, in the order of [`SideBet::ALL`].
#[derive(Debug, Clone, Copy, PartialEq, Eq)]
pub struct SideBetAnalysis<E> {
    pub metrics: [SideBetMetrics<E>; 11],
}

/// The metrics of all side bets.
pub open spec fn side_analysis<E: Number>(
    weights: SideBetWeights,
    rules: SideBetRules<E>,
) -> SideBetAnalysis<E> {
    SideBetAnalysis {
        metrics: [
            SideBetMetrics::of(weights, rules, SideBet::AnyPair),
            SideBetMetrics::of(weights, rules, SideBet::BankerPair),
            SideBetMetrics::of(weights, rules, SideBet::PlayerPair),
            SideBetMetrics::of(weights, rules, SideBet::PerfectPair),
            SideBetMetrics::of(weights, rules, SideBet::Big),
            SideBetMetrics::of(weights, rules, SideBet::Small),
            SideBetMetrics::of(weights, rules, SideBet::LuckySeven),
            SideBetMetrics::of(weights, rules, SideBet::SuperLuckySeven),
            SideBetMetrics::of(weights, rules, SideBet::LuckySix),
            SideBetMetrics::of(weights, rules, SideBet::BankerDragonBonus),
            SideBetMetrics::of(weights, rules, SideBet::PlayerDragonBonus),
        ],
    }
}

/// The metrics of all side bets with the rebate.
pub open spec fn all_sides_with_rebate<E: Number>(
    analysis: SideBetAnalysis<E>,
    rebate: RebateRule<E>,
) -> EffectiveSideBets<E> {
    EffectiveSideBets {
        metrics: [
            side_with_rebate(analysis.metrics@[0], rebate),
            side_with_rebate(analysis.metrics@[1], rebate),
            side_with_rebate(analysis.metrics@[2], rebate),
            side_with_rebate(analysis.metrics@[3], rebate),
            side_with_rebate(analysis.metrics@[4], rebate),
            side_with_rebate(analysis.metrics@[5], rebate),
            side_with_rebate(analysis.metrics@[6], rebate),
            side_with_rebate(analysis.metrics@[7], rebate),
            side_with_rebate(analysis.metrics@[8], rebate),
            side_with_rebate(analysis.metrics@[9], rebate),
            side_with_rebate(analysis.metrics@[10], rebate),
        ],
    }
}

fn effective_side_metrics<E: Number>(metrics: SideBetMetrics<E>, rebate: RebateRule<E>) -> (
effective: EffectiveBetMetrics<E>)
    requires
        number::arithmetic::<E>(),
    ensures
        effective == side_with_rebate(metrics, rebate),
{
    let rebate_ev: E = rate_of(rebate.rate_for_side_bet());
    EffectiveBetMetrics {
        probability: metrics.probability,
        base_ev: metrics.ev,
        rebate_ev,
        effective_ev: metrics.ev + rebate_ev,
    }
}

impl<E: Number> SideBetAnalysis<E> {
    /// Computes the metrics of all side bets.
    pub fn calculate(weights: SideBetWeights, rules: SideBetRules<E>) -> (analysis:
        SideBetAnalysis<E>)
        requires
            number::arithmetic::<E>(),
            countable(weights),
        ensures
            analysis == side_analysis(weights, rules),
    {
        SideBetAnalysis {
            metrics: [
                SideBetMetrics::calculate(weights, rules, SideBet::AnyPair),
                SideBetMetrics::calculate(weights, rules, SideBet::BankerPair),
                SideBetMetrics::calculate(weights, rules, SideBet::PlayerPair),
                SideBetMetrics::calculate(weights, rules, SideBet::PerfectPair),
                SideBetMetrics::calculate(weights, rules, SideBet::Big),
                SideBetMetrics::calculate(weights, rules, SideBet::Small),
                SideBetMetrics::calculate(weights, rules, SideBet::LuckySeven),
                SideBetMetrics::calculate(weights, rules, SideBet::SuperLuckySeven),
                SideBetMetrics::calculate(weights, rules, SideBet::LuckySix),
                SideBetMetrics::calculate(weights, rules, SideBet::BankerDragonBonus),
                SideBetMetrics::calculate(weights, rules, SideBet::PlayerDragonBonus),
            ],
        }
    }

    /// The metrics of a bet.
    pub fn metrics(self, bet: SideBet) -> (metrics: SideBetMetrics<E>)
        ensures
            metrics == self.metrics@[bet.position()],
    {
        self.metrics[bet.index()]
    }

    /// The metrics of all bets with the rebate taken into account.
    pub fn with_rebate(self, rebate: RebateRule<E>) -> (bets: EffectiveSideBets<E>)
        requires
            number::arithmetic::<E>(),
        ensures
            bets == all_sides_with_rebate(self, rebate),
    {
        EffectiveSideBets {
            metrics: [
                effective_side_metrics(self.metrics[0], rebate),
                effective_side_metrics(self.metrics[1], rebate),
                effective_side_metrics(self.metrics[2], rebate),
                effective_side_metrics(self.metrics[3], rebate),
                effective_side_metrics(self.metrics[4], rebate),
                effective_side_metrics(self.metrics[5], rebate),
                effective_side_metrics(self.metrics[6], rebate),
                effective_side_metrics(self.metrics[7], rebate),
                effective_side_metrics(self.metrics[8], rebate),
                effective_side_metrics(self.metrics[9], rebate),
                effective_side_metrics(self.metrics[10], rebate),
            ],
        }
    }
}

/// A number of hundredths.
pub open spec fn hundredths<E: Number>(count: u32) -> E {
    number::quotient(number::small::<E>(count as int), number::small::<E>(100))
}

/// Gives a number of hundredths.
pub fn from_hundredths<E: Number>(count: u32) -> (number: E)
    requires
        number::arithmetic::<E>(),
    ensures
        number == hundredths::<E>(count),
{
    E::from(count) / E::from(100u32)
}

impl MainBetRules<u32> {
    /// The payouts per unit of stake of a table in hundredths.
    pub open spec fn in_units<E: Number>(self) -> MainBetRules<E> {
        MainBetRules {
            player_payout: hundredths(self.player_payout),
            banker_rule: match self.banker_rule {
                BankerPayoutRule::Commission { net_payout } => BankerPayoutRule::Commission {
                    net_payout: hundredths(net_payout),
                },
                BankerPayoutRule::NoCommission { normal_net_payout, six_net_payout } => {
                    BankerPayoutRule::NoCommission {
                        normal_net_payout: hundredths(normal_net_payout),
                        six_net_payout: hundredths(six_net_payout),
                    }
                },
            },
            tie_payout: hundredths(self.tie_payout),
        }
    }

    /// Gives the payouts per unit of stake of a table in hundredths.
    pub fn per_unit<E: Number>(self) -> (rules: MainBetRules<E>)
        requires
            number::arithmetic::<E>(),
        ensures
            rules == self.in_units::<E>(),
    {
        MainBetRules {
            player_payout: from_hundredths(self.player_payout),
            banker_rule: match self.banker_rule {
                BankerPayoutRule::Commission { net_payout } => BankerPayoutRule::Commission {
                    net_payout: from_hundredths(net_payout),
                },
                BankerPayoutRule::NoCommission { normal_net_payout, six_net_payout } => {
                    BankerPayoutRule::NoCommission {
                        normal_net_payout: from_hundredths(normal_net_payout),
                        six_net_payout: from_hundredths(six_net_payout),
                    }
                },
            },
            tie_payout: from_hundredths(self.tie_payout),
        }
    }
}

impl SideBetRules<u32> {
    /// The payouts per unit of stake of a table in hundredths.
    pub open spec fn in_units<E: Number>(self) -> SideBetRules<E> {
        SideBetRules {
            any_pair: hundredths(self.any_pair),
            banker_pair: hundredths(self.banker_pair),
            player_pair: hundredths(self.player_pair),
            perfect_pair: hundredths(self.perfect_pair),
            big: hundredths(self.big),
            small: hundredths(self.small),
            lucky_seven: [hundredths(self.lucky_seven@[0]), hundredths(self.lucky_seven@[1])],
            super_lucky_seven: [
                hundredths(self.super_lucky_seven@[0]),
                hundredths(self.super_lucky_seven@[1]),
                hundredths(self.super_lucky_seven@[2]),
            ],
            lucky_six: [hundredths(self.lucky_six@[0]), hundredths(self.lucky_six@[1])],
            dragon_bonus_by_margin: [
                hundredths(self.dragon_bonus_by_margin@[0]),
                hundredths(self.dragon_bonus_by_margin@[1]),
                hundredths(self.dragon_bonus_by_margin@[2]),
                hundredths(self.dragon_bonus_by_margin@[3]),
                hundredths(self.dragon_bonus_by_margin@[4]),
                hundredths(self.dragon_bonus_by_margin@[5]),
            ],
        }
    }

    /// Gives the payouts per unit of stake of a table in hundredths.
    pub fn per_unit<E: Number>(self) -> (rules: SideBetRules<E>)
        requires
            number::arithmetic::<E>(),
        ensures
            rules == self.in_units::<E>(),
    {
        let dragon: [u32; 6] = self.dragon_bonus_by_margin;
        SideBetRules {
            any_pair: from_hundredths(self.any_pair),
            banker_pair: from_hundredths(self.banker_pair),
            player_pair: from_hundredths(self.player_pair),
            perfect_pair: from_hundredths(self.perfect_pair),
            big: from_hundredths(self.big),
            small: from_hundredths(self.small),
            lucky_seven: [
                from_hundredths(self.lucky_seven[0]),
                from_hundredths(self.lucky_seven[1]),
            ],
            super_lucky_seven: [
                from_hundredths(self.super_lucky_seven[0]),
                from_hundredths(self.super_lucky_seven[1]),
                from_hundredths(self.super_lucky_seven[2]),
            ],
            lucky_six: [from_hundredths(self.lucky_six[0]), from_hundredths(self.lucky_six[1])],
            dragon_bonus_by_margin: [
                from_hundredths(dragon[0]),
                from_hundredths(dragon[1]),
                from_hundredths(dragon[2]),
                from_hundredths(dragon[3]),
                from_hundredths(dragon[4]),
                from_hundredths(dragon[5]),
            ],
        }
    }
}

} // verus!
