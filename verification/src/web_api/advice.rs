//! The analysis of a baccarat shoe for a page.

use vstd::prelude::*;

use crate::baccarat::analysis::{
    EffectiveBetMetrics, EffectiveMainBets, EffectiveSideBets, MainBetAnalysis,
};
use crate::baccarat::bet::MainBetRules;
use crate::baccarat::engine;
use crate::baccarat::engine::ReplaySetup;
use crate::baccarat::ev::SideBetAnalysis;
use crate::baccarat::laws;
use crate::baccarat::plan;
use crate::baccarat::plan::{total_stake_of, RoundOffer};
use crate::baccarat::point_enumerate::calculate_main_and_side_outcomes;
use crate::baccarat::probability::OutcomeWeights;
use crate::baccarat::rebate::RebateRule;
use crate::baccarat::replay::SideBetRoundLimits;
use crate::baccarat::risk;
use crate::baccarat::risk::{
    CombinedBetPlan, CombinedBetPlanAction, KellyError, KellyPolicy, StakeSizingStrategy,
};
use crate::baccarat::side_bet;
use crate::baccarat::side_bet::{SideBet, SideBetRules, SideBetWeights};
use crate::baccarat::strategy::BettingPolicy;
use crate::number;
use crate::number::Number;
use crate::order;
use crate::scale::Scale;
use crate::shoe::ShoeView;
use crate::web_api;
use crate::web_api::{
    parse_payout_rule, parse_stake_strategy, read_baccarat_shoe, side_bet_payout_text,
    skip_reason_code, PageError, ShoeInput, StrategySettings,
};

verus! {

/// The payouts of the side bets, as a page names them.
pub const SIDE_BET_RULES: &'static str =
    "pairs_5_11_perfect_25_big_0_5_small_1_5_lucky_6_12_18_lucky_7_6_15_super_30_40_100_dragon_1_2_3_5_10_30_natural_push";

/// What a page shows of a main bet per unit of stake.
#[derive(Debug, Clone, Copy, PartialEq, Eq)]
pub struct BrowserBetMetrics<E> {
    pub probability: E,
    pub base_ev: E,
    pub rebate_ev: E,
    pub effective_ev: E,
    /// What the house expects to keep after the rebate.
    pub house_edge: E,
    /// What the bet expects to give back, the rebate included.
    pub rtp: E,
}

impl<E: Number> BrowserBetMetrics<E> {
    /// What a page shows of metrics.
    pub open spec fn of(metrics: EffectiveBetMetrics<E>) -> BrowserBetMetrics<E> {
        BrowserBetMetrics {
            probability: metrics.probability,
            base_ev: metrics.base_ev,
            rebate_ev: metrics.rebate_ev,
            effective_ev: metrics.effective_ev,
            house_edge: number::difference(number::small::<E>(0), metrics.effective_ev),
            rtp: number::sum(number::small::<E>(1), metrics.effective_ev),
        }
    }

    fn from_metrics(metrics: EffectiveBetMetrics<E>) -> (row: BrowserBetMetrics<E>)
        requires
            number::arithmetic::<E>(),
        ensures
            row == Self::of(metrics),
    {
        BrowserBetMetrics {
            probability: metrics.probability,
            base_ev: metrics.base_ev,
            rebate_ev: metrics.rebate_ev,
            effective_ev: metrics.effective_ev,
            house_edge: metrics.house_edge(),
            rtp: metrics.rtp(),
        }
    }
}

/// What a page shows of the main bets.
#[derive(Debug, Clone, Copy, PartialEq, Eq)]
pub struct BrowserBets<E> {
    pub player: BrowserBetMetrics<E>,
    pub banker: BrowserBetMetrics<E>,
    pub tie: BrowserBetMetrics<E>,
}

/// What a page shows of a side bet per unit of stake.
#[derive(Debug, Clone, Copy, PartialEq, Eq)]
pub struct BrowserSideBetMetrics<E> {
    pub probability: E,
    /// The expected net profit from the payouts, as in `base_ev`.
    pub ev: E,
    pub base_ev: E,
    pub rebate_ev: E,
    pub effective_ev: E,
    /// What the house expects to keep before the rebate.
    pub house_edge: E,
    /// What the bet expects to give back before the rebate.
    pub rtp: E,
    pub effective_house_edge: E,
    pub effective_rtp: E,
    /// How the payouts are shown.
    pub payout: &'static str,
}

impl<E: Number> BrowserSideBetMetrics<E> {
    /// Whether this is what a page shows of the metrics of a bet.
    pub open spec fn shows(self, metrics: EffectiveBetMetrics<E>, bet: SideBet) -> bool {
        let zero = number::small::<E>(0);
        let one = number::small::<E>(1);
        &&& self.probability == metrics.probability
        &&& self.ev == metrics.base_ev
        &&& self.base_ev == metrics.base_ev
        &&& self.rebate_ev == metrics.rebate_ev
        &&& self.effective_ev == metrics.effective_ev
        &&& self.house_edge == number::difference(zero, metrics.base_ev)
        &&& self.rtp == number::sum(one, metrics.base_ev)
        &&& self.effective_house_edge == number::difference(zero, metrics.effective_ev)
        &&& self.effective_rtp == number::sum(one, metrics.effective_ev)
        &&& self.payout@ == web_api::payout_label(bet)
    }

    fn new(metrics: EffectiveBetMetrics<E>, bet: SideBet) -> (row: BrowserSideBetMetrics<E>)
        requires
            number::arithmetic::<E>(),
        ensures
            row.shows(metrics, bet),
    {
        let zero: E = E::from(0u32);
        let one: E = E::from(1u32);
        BrowserSideBetMetrics {
            probability: metrics.probability,
            ev: metrics.base_ev,
            base_ev: metrics.base_ev,
            rebate_ev: metrics.rebate_ev,
            effective_ev: metrics.effective_ev,
            house_edge: zero - metrics.base_ev,
            rtp: one + metrics.base_ev,
            effective_house_edge: metrics.house_edge(),
            effective_rtp: metrics.rtp(),
            payout: side_bet_payout_text(bet),
        }
    }
}

/// What a page shows of a plan.
#[derive(Debug, Clone, Copy, PartialEq, Eq)]
pub struct BrowserRecommendation<E> {
    pub candidate_bet: &'static str,
    /// `main` or `side`.
    pub bet_category: &'static str,
    pub base_ev: E,
    pub rebate_ev: E,
    pub effective_ev: E,
    /// `place` or `skip`.
    pub action: &'static str,
    /// Why no bet is made, where none is.
    pub reason: Option<&'static str>,
    pub bankroll: E,
    pub kelly_fraction: Option<E>,
    pub strategy_fraction: Option<E>,
    pub applied_fraction: Option<E>,
    pub suggested_amount: E,
    pub expected_profit: E,
}

impl<E: Number> BrowserRecommendation<E> {
    /// Whether this is what a page shows of a plan.
    pub open spec fn shows(self, plan: CombinedBetPlan<E>, bankroll: E) -> bool {
        &&& self.candidate_bet@ == plan.decision.candidate.name()
        &&& self.bet_category@ == if plan.decision.candidate is Side {
            "side"@
        } else {
            "main"@
        }
        &&& self.base_ev == plan.decision.base_ev
        &&& self.rebate_ev == plan.decision.rebate_ev
        &&& self.effective_ev == plan.decision.effective_ev
        &&& match plan.action {
            CombinedBetPlanAction::Place { .. } => self.action@ == "place"@ && self.reason is None,
            CombinedBetPlanAction::Skip { reason } => {
                &&& self.action@ == "skip"@
                &&& self.reason matches Some(code)
                &&& code@ == web_api::skip_reason_label(reason)
            },
        }
        &&& self.bankroll == bankroll
        &&& match plan.quote {
            Some(quote) => {
                &&& self.kelly_fraction == Some(quote.kelly_fraction)
                &&& self.strategy_fraction == Some(quote.strategy_fraction)
                &&& self.applied_fraction == Some(quote.applied_fraction)
                &&& self.suggested_amount == quote.amount
                &&& self.expected_profit == quote.expected_profit
            },
            None => {
                &&& self.kelly_fraction is None
                &&& self.strategy_fraction is None
                &&& self.applied_fraction is None
                &&& self.suggested_amount == number::small::<E>(0)
                &&& self.expected_profit == number::small::<E>(0)
            },
        }
    }

    fn new(plan: CombinedBetPlan<E>, bankroll: E) -> (row: BrowserRecommendation<E>)
        requires
            number::arithmetic::<E>(),
        ensures
            row.shows(plan, bankroll),
    {
        let zero: E = E::from(0u32);
        let (action, reason): (&'static str, Option<&'static str>) = match plan.action {
            CombinedBetPlanAction::Place { bet: _, amount: _ } => ("place", None),
            CombinedBetPlanAction::Skip { reason } => ("skip", Some(skip_reason_code(reason))),
        };
        let mut row: BrowserRecommendation<E> = BrowserRecommendation {
            candidate_bet: plan.decision.candidate.as_str(),
            bet_category: if plan.decision.candidate.is_side() {
                "side"
            } else {
                "main"
            },
            base_ev: plan.decision.base_ev,
            rebate_ev: plan.decision.rebate_ev,
            effective_ev: plan.decision.effective_ev,
            action,
            reason,
            bankroll,
            kelly_fraction: None,
            strategy_fraction: None,
            applied_fraction: None,
            suggested_amount: zero,
            expected_profit: zero,
        };
        if let Some(quote) = plan.quote {
            row.kelly_fraction = Some(quote.kelly_fraction);
            row.strategy_fraction = Some(quote.strategy_fraction);
            row.applied_fraction = Some(quote.applied_fraction);
            row.suggested_amount = quote.amount;
            row.expected_profit = quote.expected_profit;
        }
        row
    }
}

/// What a page shows of a shoe.
#[derive(Debug)]
pub struct BrowserAnalysis<E> {
    pub source_mode: String,
    pub decks: u8,
    pub input_card_count: usize,
    pub remaining_card_count: u16,
    pub rebate_rate: E,
    pub payout_rule: &'static str,
    pub stake_strategy: &'static str,
    /// The number that the way to choose stakes is set by, where there is one.
    pub strategy_parameter: Option<E>,
    /// The amount of fixed stakes.
    pub fixed_stake: Option<E>,
    pub minimum_main_bet_ev: E,
    pub minimum_side_bet_ev: E,
    pub side_bet_limit: E,
    pub allow_multiple_bets: bool,
    pub bets: BrowserBets<E>,
    pub side_bet_rules: &'static str,
    /// In the order of `SideBet::ALL`.
    pub side_bets: Vec<BrowserSideBetMetrics<E>>,
    /// The first of the recommendations.
    pub recommendation: BrowserRecommendation<E>,
    pub recommendations: Vec<BrowserRecommendation<E>>,
    /// The stakes of all bets that are made.
    pub total_suggested_amount: E,
}

impl<E: Number> BrowserAnalysis<E> {
    /// Whether this repeats what the page sent.
    pub open spec fn repeats(
        self,
        input: ShoeInput,
        decks: u8,
        payout_code: Seq<char>,
        strategy: StakeSizingStrategy<E>,
        settings: StrategySettings<E>,
    ) -> bool {
        &&& self.source_mode@ == input.source_mode@
        &&& self.decks == decks
        &&& self.input_card_count == input.card_count
        &&& self.remaining_card_count == input.shoe@.total()
        &&& self.rebate_rate == settings.rebate_rate
        &&& self.payout_rule@ == payout_code
        &&& self.stake_strategy@ == strategy.name()
        &&& self.strategy_parameter == match strategy {
            StakeSizingStrategy::FullKelly => None,
            StakeSizingStrategy::HalfKelly => None,
            StakeSizingStrategy::QuarterKelly => None,
            StakeSizingStrategy::CustomKelly { fraction } => Some(fraction),
            StakeSizingStrategy::Fixed { amount } => Some(amount),
            StakeSizingStrategy::FixedBankrollFraction { fraction } => Some(fraction),
            StakeSizingStrategy::TargetExpectedProfit { amount } => Some(amount),
            StakeSizingStrategy::TargetVolatility { fraction } => Some(fraction),
        }
        &&& self.fixed_stake == match strategy {
            StakeSizingStrategy::Fixed { amount } => Some(amount),
            _ => None,
        }
        &&& self.minimum_main_bet_ev == settings.minimum_effective_ev
        &&& self.minimum_side_bet_ev == settings.minimum_side_bet_ev
        &&& self.side_bet_limit == settings.side_bet_limit
        &&& self.allow_multiple_bets == settings.allow_multiple_bets
        &&& self.side_bet_rules@ == SIDE_BET_RULES@
    }

    /// Whether this shows what is offered on a shoe and the plans for its next round.
    pub open spec fn shows(
        self,
        offer: RoundOffer<E>,
        rebate: RebateRule<E>,
        plans: Seq<CombinedBetPlan<E>>,
        bankroll: E,
    ) -> bool {
        &&& self.bets.player == BrowserBetMetrics::of(offer.main_bets(rebate).player)
        &&& self.bets.banker == BrowserBetMetrics::of(offer.main_bets(rebate).banker)
        &&& self.bets.tie == BrowserBetMetrics::of(offer.main_bets(rebate).tie)
        &&& self.side_bets.len() == 11
        &&& forall|i: int|
            0 <= i < 11 ==> (#[trigger] self.side_bets@[i]).shows(
                offer.side_bets(rebate).metrics@[i],
                SideBet::ALL@[i],
            )
        &&& self.recommendations.len() == plans.len()
        &&& forall|i: int|
            0 <= i < plans.len() ==> (#[trigger] self.recommendations@[i]).shows(
                plans[i],
                bankroll,
            )
        &&& plans.len() > 0
        &&& self.recommendation == self.recommendations@[0]
        &&& self.total_suggested_amount == plan::total_stake(plans, plans.len() as int)
    }
}

/// What is said of numbers that a page may not send, if anything is.
pub open spec fn settings_message<E: Number>(
    scale: Scale<E>,
    settings: StrategySettings<E>,
) -> Option<Seq<char>> {
    if !scale.fraction(settings.rebate_rate) {
        Some("返水比例必须是 0% 到 100% 之间的有限数字"@)
    } else if !scale.finite(settings.minimum_effective_ev) {
        Some("最低有效 EV 必须是有限数字"@)
    } else if !scale.finite(settings.minimum_side_bet_ev) {
        Some("边注最低 EV 必须是有限数字"@)
    } else if !scale.positive(settings.bankroll) {
        Some("本金必须是有限正数"@)
    } else {
        None
    }
}

/// What is wrong with the limits on stakes, if anything is.
pub open spec fn limits_error<E: Number>(
    scale: Scale<E>,
    strategy: StakeSizingStrategy<E>,
    settings: StrategySettings<E>,
) -> Option<KellyError<E>> {
    match risk::policy_error(
        scale,
        strategy,
        settings.max_fraction,
        settings.max_round_stake,
        settings.table_limit,
    ) {
        Some(error) => Some(error),
        None => if scale.amount(settings.side_bet_limit) {
            None
        } else {
            Some(KellyError::InvalidSideBetLimit { value: settings.side_bet_limit })
        },
    }
}

/// Whether a setup follows the settings of a page, with no limit on the rounds of side bets.
pub open spec fn follows<E: Number>(
    setup: ReplaySetup<E>,
    rules: MainBetRules<E>,
    strategy: StakeSizingStrategy<E>,
    settings: StrategySettings<E>,
) -> bool {
    &&& setup.rules == rules
    &&& setup.side_rules == side_bet::macau_table().in_units::<E>()
    &&& setup.betting == (BettingPolicy {
        rebate: if order::above(settings.rebate_rate, number::small::<E>(0)) {
            RebateRule::AllExceptMainBetTie { rate: settings.rebate_rate }
        } else {
            RebateRule::NoRebate
        },
        minimum_effective_ev: settings.minimum_effective_ev,
        minimum_side_bet_ev: settings.minimum_side_bet_ev,
    })
    &&& setup.kelly == (KellyPolicy {
        strategy,
        max_fraction: settings.max_fraction,
        max_round_stake: settings.max_round_stake,
        table_limit: settings.table_limit,
        side_bet_limit: settings.side_bet_limit,
    })
    &&& forall|bet: SideBet| #[trigger] setup.limits.of(bet) == 0
    &&& setup.multiple == settings.allow_multiple_bets
}

/// Whether a result shows the weights of a shoe and the plans that a setup makes of them.
pub open spec fn shows_round<E: Number, F: Fn(E) -> E>(
    result: Result<BrowserAnalysis<E>, PageError<E>>,
    setup: ReplaySetup<E>,
    scale: Scale<E>,
    shoe: ShoeView,
    bankroll: E,
    root: F,
) -> bool {
    match result {
        Ok(page) => exists|offer: RoundOffer<E>, plans: Seq<CombinedBetPlan<E>>|
            {
                &&& setup.offers(shoe, offer)
                &&& engine::round_plan_error(
                    setup,
                    scale,
                    offer,
                    setup.allowed(1),
                    bankroll,
                ) is None
                &&& engine::are_round_plans(
                    setup,
                    scale,
                    offer,
                    setup.allowed(1),
                    bankroll,
                    root,
                    plans,
                )
                &&& #[trigger] page.shows(offer, setup.betting.rebate, plans, bankroll)
            },
        Err(PageError::Plan(error)) => exists|offer: RoundOffer<E>|
            #[trigger] setup.offers(shoe, offer) && engine::round_plan_error(
                setup,
                scale,
                offer,
                setup.allowed(1),
                bankroll,
            ) == Some(error),
        _ => false,
    }
}

/// Whether a result is the analysis of what was read.
pub open spec fn answers_shoe<E: Number, F: Fn(E) -> E>(
    result: Result<BrowserAnalysis<E>, PageError<E>>,
    scale: Scale<E>,
    input: Result<ShoeInput, String>,
    decks: u8,
    payout_rule: Seq<char>,
    stake_strategy: Seq<char>,
    settings: StrategySettings<E>,
    root: F,
) -> bool {
    match (
        input,
        web_api::payout_rule_named(payout_rule),
        web_api::strategy_named(stake_strategy, settings.strategy_parameter),
    ) {
        (Err(message), _, _) => result matches Err(error) && error.says(message@),
        (_, None, _) => result matches Err(error) && error.says(
            "庄赔付规则必须是 standard 或 no_commission"@,
        ),
        (_, _, None) => result matches Err(error) && error.says(
            "金额策略必须是 full_kelly、half_kelly、quarter_kelly、custom_kelly、fixed、bankroll_fraction、target_expected_profit 或 target_volatility"@,
        ),
        (Ok(input), Some((table, code)), Some(strategy)) => match limits_error(
            scale,
            strategy,
            settings,
        ) {
            Some(found) => result matches Err(PageError::Policy(error)) && error == found,
            None => {
                &&& result matches Ok(page) ==> page.repeats(input, decks, code, strategy, settings)
                &&& exists|setup: ReplaySetup<E>|
                    #[trigger] follows(setup, table.in_units::<E>(), strategy, settings)
                        && shows_round(
                        result,
                        setup,
                        scale,
                        input.shoe@,
                        settings.bankroll,
                        root,
                    )
            },
        },
    }
}

fn check_settings<E: Number>(scale: Scale<E>, settings: StrategySettings<E>) -> (message: Option<
    String,
>)
    requires
        number::arithmetic::<E>(),
    ensures
        match (message, settings_message(scale, settings)) {
            (Some(text), Some(told)) => text@ == told,
            (None, None) => true,
            _ => false,
        },
{
    if !scale.is_fraction(settings.rebate_rate) {
        Some("返水比例必须是 0% 到 100% 之间的有限数字".to_owned())
    } else if !scale.is_finite(settings.minimum_effective_ev) {
        Some("最低有效 EV 必须是有限数字".to_owned())
    } else if !scale.is_finite(settings.minimum_side_bet_ev) {
        Some("边注最低 EV 必须是有限数字".to_owned())
    } else if !scale.is_positive(settings.bankroll) {
        Some("本金必须是有限正数".to_owned())
    } else {
        None
    }
}

fn stake_limits<E: Number>(
    scale: Scale<E>,
    strategy: StakeSizingStrategy<E>,
    settings: StrategySettings<E>,
) -> (result: Result<KellyPolicy<E>, KellyError<E>>)
    requires
        number::arithmetic::<E>(),
    ensures
        match (result, limits_error(scale, strategy, settings)) {
            (Err(error), Some(found)) => error == found,
            (Ok(policy), None) => policy == (KellyPolicy {
                strategy,
                max_fraction: settings.max_fraction,
                max_round_stake: settings.max_round_stake,
                table_limit: settings.table_limit,
                side_bet_limit: settings.side_bet_limit,
            }),
            _ => false,
        },
{
    match KellyPolicy::with_strategy(
        scale,
        strategy,
        settings.max_fraction,
        settings.max_round_stake,
        settings.table_limit,
    ) {
        Ok(policy) => policy.with_side_bet_limit(scale, settings.side_bet_limit),
        Err(error) => Err(error),
    }
}

fn show_side_bets<E: Number>(analysis: EffectiveSideBets<E>) -> (rows: Vec<BrowserSideBetMetrics<E>>)
    requires
        number::arithmetic::<E>(),
    ensures
        rows.len() == 11,
        forall|i: int|
            0 <= i < 11 ==> (#[trigger] rows@[i]).shows(
                analysis.metrics@[i],
                SideBet::ALL@[i],
            ),
{
    let mut rows: Vec<BrowserSideBetMetrics<E>> = Vec::new();
    let mut i: usize = 0;
    while i < 11
        invariant
            number::arithmetic::<E>(),
            i <= 11,
            rows.len() == i,
            forall|j: int|
                0 <= j < i ==> (#[trigger] rows@[j]).shows(
                    analysis.metrics@[j],
                    SideBet::ALL@[j],
                ),
        decreases 11 - i,
    {
        rows.push(BrowserSideBetMetrics::new(analysis.metrics[i], SideBet::ALL[i]));
        i = i + 1;
    }
    rows
}

fn show_plans<E: Number>(plans: &Vec<CombinedBetPlan<E>>, bankroll: E) -> (rows: Vec<
    BrowserRecommendation<E>,
>)
    requires
        number::arithmetic::<E>(),
    ensures
        rows.len() == plans.len(),
        forall|i: int| 0 <= i < plans.len() ==> (#[trigger] rows@[i]).shows(plans@[i], bankroll),
{
    let mut rows: Vec<BrowserRecommendation<E>> = Vec::new();
    let mut i: usize = 0;
    while i < plans.len()
        invariant
            number::arithmetic::<E>(),
            i <= plans.len(),
            rows.len() == i,
            forall|j: int| 0 <= j < i ==> (#[trigger] rows@[j]).shows(plans@[j], bankroll),
        decreases plans.len() - i,
    {
        rows.push(BrowserRecommendation::new(plans[i], bankroll));
        i = i + 1;
    }
    rows
}

fn analyze_shoe<E: Number, F: Fn(E) -> E>(
    scale: Scale<E>,
    input: ShoeInput,
    decks: u8,
    payout_rule: &'static str,
    strategy: StakeSizingStrategy<E>,
    settings: StrategySettings<E>,
    setup: ReplaySetup<E>,
    root: &F,
) -> (result: Result<BrowserAnalysis<E>, PageError<E>>)
    requires
        number::arithmetic::<E>(),
        forall|x: E| #[trigger] call_requires(*root, (x,)),
        input.shoe@.total() >= 6,
    ensures
        result matches Ok(page) ==> page.repeats(input, decks, payout_rule@, strategy, settings),
        shows_round(result, setup, scale, input.shoe@, settings.bankroll, *root),
{
    let ghost shoe = input.shoe@;
    let remaining_card_count: u16 = input.shoe.total_remaining();
    let (weights, side_weights): (OutcomeWeights, SideBetWeights) =
        match calculate_main_and_side_outcomes(&input.shoe) {
        Ok(weights) => weights,
        Err(error) => {
            assert(false);
            return Err(
                PageError::Message(
                    "概率与 EV 计算失败：".to_owned().concat(error.to_string().as_str()),
                ),
            );
        },
    };
    let ghost offer = RoundOffer {
        main_weights: weights,
        main_rules: setup.rules,
        side_weights,
        side_rules: setup.side_rules,
    };
    proof {
        assert(setup.offers(shoe, offer));
        assert forall|bet: SideBet| #[trigger] side_weights.wins(bet) + side_weights.push(bet)
            <= side_weights.denominator() by {
            laws::lemma_wins_and_pushes_within_all(shoe, side_weights, bet);
        }
        assert forall|bet: SideBet| #[trigger] side_weights.wins(bet) <= u64::MAX by {
            laws::lemma_wins_and_pushes_within_all(shoe, side_weights, bet);
        }
    }
    let rebate: RebateRule<E> = setup.betting.rebate;
    let plans: Vec<CombinedBetPlan<E>> = match setup.plan_round(
        scale,
        weights,
        side_weights,
        1,
        settings.bankroll,
        root,
    ) {
        Ok(plans) => plans,
        Err(error) => {
            return Err(PageError::Plan(error));
        },
    };
    let main: EffectiveMainBets<E> = MainBetAnalysis::from_weights(
        weights,
        setup.rules,
    ).with_rebate(rebate);
    let side: EffectiveSideBets<E> = SideBetAnalysis::calculate(
        side_weights,
        setup.side_rules,
    ).with_rebate(rebate);
    let recommendations: Vec<BrowserRecommendation<E>> = show_plans(&plans, settings.bankroll);
    let page: BrowserAnalysis<E> = BrowserAnalysis {
        source_mode: input.source_mode,
        decks,
        input_card_count: input.card_count,
        remaining_card_count,
        rebate_rate: settings.rebate_rate,
        payout_rule,
        stake_strategy: strategy.as_str(),
        strategy_parameter: strategy.parameter(),
        fixed_stake: strategy.fixed_amount(),
        minimum_main_bet_ev: settings.minimum_effective_ev,
        minimum_side_bet_ev: settings.minimum_side_bet_ev,
        side_bet_limit: settings.side_bet_limit,
        allow_multiple_bets: settings.allow_multiple_bets,
        bets: BrowserBets {
            player: BrowserBetMetrics::from_metrics(main.player),
            banker: BrowserBetMetrics::from_metrics(main.banker),
            tie: BrowserBetMetrics::from_metrics(main.tie),
        },
        side_bet_rules: SIDE_BET_RULES,
        side_bets: show_side_bets(side),
        recommendation: recommendations[0],
        total_suggested_amount: total_stake_of(&plans),
        recommendations,
    };
    proof {
        assert(page.shows(offer, rebate, plans@, settings.bankroll));
    }
    Ok(page)
}

/// Analyses a baccarat shoe for a page and plans the bets on its next round. The numbers are
/// checked first, then the cards are read, then the names of the payouts and of the way to
/// choose stakes, then the limits on stakes are checked. `root` is the square root, which only a
/// volatility target needs.
pub fn analyze_baccarat_strategy<E: Number, F: Fn(E) -> E>(
    scale: Scale<E>,
    source_mode: &str,
    decks: u8,
    cards_text: &str,
    payout_rule: &str,
    stake_strategy: &str,
    settings: StrategySettings<E>,
    root: &F,
) -> (result: Result<BrowserAnalysis<E>, PageError<E>>)
    requires
        number::arithmetic::<E>(),
        forall|x: E| #[trigger] call_requires(*root, (x,)),
    ensures
        match settings_message(scale, settings) {
            Some(message) => result matches Err(error) && error.says(message),
            None => exists|input: Result<ShoeInput, String>|
                #[trigger] web_api::tells_shoe(input, source_mode@, decks, cards_text@)
                    && answers_shoe(
                    result,
                    scale,
                    input,
                    decks,
                    payout_rule@,
                    stake_strategy@,
                    settings,
                    *root,
                ),
        },
{
    if let Some(message) = check_settings(scale, settings) {
        return Err(PageError::Message(message));
    }
    let read: Result<ShoeInput, String> = read_baccarat_shoe(source_mode, decks, cards_text);
    let ghost told = read;
    let input: ShoeInput = match read {
        Ok(input) => input,
        Err(message) => {
            return Err(PageError::Message(message));
        },
    };
    let (table, code): (MainBetRules<u32>, &'static str) = match parse_payout_rule(payout_rule) {
        Ok(named) => named,
        Err(message) => {
            return Err(PageError::Message(message));
        },
    };
    let strategy: StakeSizingStrategy<E> = match parse_stake_strategy(
        stake_strategy,
        settings.strategy_parameter,
    ) {
        Ok(strategy) => strategy,
        Err(message) => {
            return Err(PageError::Message(message));
        },
    };
    let kelly: KellyPolicy<E> = match stake_limits(scale, strategy, settings) {
        Ok(kelly) => kelly,
        Err(error) => {
            return Err(PageError::Policy(error));
        },
    };
    let rebate: RebateRule<E> = if order::is_above(settings.rebate_rate, E::from(0u32)) {
        RebateRule::AllExceptMainBetTie { rate: settings.rebate_rate }
    } else {
        RebateRule::NoRebate
    };
    let setup: ReplaySetup<E> = ReplaySetup {
        rules: table.per_unit::<E>(),
        side_rules: SideBetRules::default().per_unit::<E>(),
        betting: BettingPolicy::with_side_bet_minimum(
            rebate,
            settings.minimum_effective_ev,
            settings.minimum_side_bet_ev,
        ),
        kelly,
        limits: SideBetRoundLimits::unlimited(),
        multiple: settings.allow_multiple_bets,
    };
    proof {
        assert(follows(setup, table.in_units::<E>(), strategy, settings));
    }
    analyze_shoe(scale, input, decks, code, strategy, settings, setup, root)
}

/// Analyses a baccarat shoe for a page that only asks for a rebate: standard payouts and full
/// Kelly stakes.
pub fn analyze_baccarat<E: Number, F: Fn(E) -> E>(
    scale: Scale<E>,
    source_mode: &str,
    decks: u8,
    cards_text: &str,
    rebate_rate: E,
    root: &F,
) -> (result: Result<BrowserAnalysis<E>, PageError<E>>)
    requires
        number::arithmetic::<E>(),
        forall|x: E| #[trigger] call_requires(*root, (x,)),
    ensures
        ({
            let settings = StrategySettings::plain(rebate_rate);
            match settings_message(scale, settings) {
                Some(message) => result matches Err(error) && error.says(message),
                None => exists|input: Result<ShoeInput, String>|
                    #[trigger] web_api::tells_shoe(input, source_mode@, decks, cards_text@)
                        && answers_shoe(
                        result,
                        scale,
                        input,
                        decks,
                        "standard"@,
                        "full_kelly"@,
                        settings,
                        *root,
                    ),
            }
        }),
{
    analyze_baccarat_strategy(
        scale,
        source_mode,
        decks,
        cards_text,
        "standard",
        "full_kelly",
        StrategySettings::with_rebate(rebate_rate),
        root,
    )
}

} // verus!
