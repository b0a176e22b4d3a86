//! Plans: from the weights of a shoe to the bets that are made and their stakes.

use vstd::prelude::*;

use crate::baccarat::analysis::{EffectiveMainBets, EffectiveSideBets, MainBetAnalysis};
use crate::baccarat::bet::{MainBet, MainBetRules};
use crate::baccarat::distribution;
use crate::baccarat::ev;
use crate::baccarat::ev::SideBetAnalysis;
use crate::baccarat::kelly;
use crate::baccarat::kelly::KellyOutcome;
use crate::baccarat::probability::OutcomeWeights;
use crate::baccarat::rebate::RebateRule;
use crate::baccarat::risk::{
    BetPlan, BetPlanAction, BetPlanSkipReason, CombinedBetPlan, CombinedBetPlanAction, KellyError,
    KellyPolicy, KellyQuote,
};
use crate::baccarat::side_bet::{SideBetRules, SideBetWeights};
use crate::baccarat::strategy;
use crate::baccarat::strategy::{
    BetAction, BetDecision, BetTarget, BettingPolicy, CandidateMetrics, CombinedBetAction,
    CombinedBetDecision,
};
use crate::number;
use crate::number::Number;
use crate::order;
use crate::scale::Scale;

verus! {

/// What can be bet on in a round: the weights of the shoe and the payouts of the table.
#[derive(Debug, Clone, Copy, PartialEq, Eq)]
pub struct RoundOffer<E> {
    pub main_weights: OutcomeWeights,
    pub main_rules: MainBetRules<E>,
    pub side_weights: SideBetWeights,
    pub side_rules: SideBetRules<E>,
}

impl<E: Number> RoundOffer<E> {
    /// The main bets with the rebate taken into account.
    pub open spec fn main_bets(self, rebate: RebateRule<E>) -> EffectiveMainBets<E> {
        ev::all_with_rebate(ev::main_analysis(self.main_weights@, self.main_rules), rebate)
    }

    /// The side bets with the rebate taken into account.
    pub open spec fn side_bets(self, rebate: RebateRule<E>) -> EffectiveSideBets<E> {
        ev::all_sides_with_rebate(ev::side_analysis(self.side_weights, self.side_rules), rebate)
    }

    /// The bets that may be made.
    pub open spec fn candidates(self, policy: BettingPolicy<E>, allowed: Seq<bool>) -> Seq<
        CandidateMetrics<E>,
    > {
        policy.candidates(self.main_bets(policy.rebate), self.side_bets(policy.rebate), allowed)
    }

    /// The results of a bet.
    pub open spec fn outcomes(self, rebate: RebateRule<E>, target: BetTarget) -> Seq<
        KellyOutcome<E>,
    > {
        match target {
            BetTarget::Main(bet) => kelly::as_outcomes(
                distribution::main_distribution(
                    self.main_weights@,
                    self.main_rules,
                    rebate,
                    bet,
                ),
            ),
            BetTarget::Side(bet) => kelly::as_outcomes(
                distribution::side_distribution(self.side_weights, self.side_rules, rebate, bet),
            ),
        }
    }

    fn quote<F: Fn(E) -> E>(
        &self,
        policy: KellyPolicy<E>,
        scale: Scale<E>,
        rebate: RebateRule<E>,
        target: BetTarget,
        bankroll: E,
        root: &F,
    ) -> (result: Result<KellyQuote<E>, KellyError<E>>)
        requires
            number::arithmetic::<E>(),
            ev::consistent(self.side_weights),
            forall|x: E| #[trigger] call_requires(*root, (x,)),
        ensures
            match result {
                Ok(quote) => kelly::quote_error(
                    scale,
                    self.outcomes(rebate, target),
                    bankroll,
                ) is None && kelly::is_quote(
                    policy,
                    scale,
                    target,
                    self.outcomes(rebate, target),
                    bankroll,
                    *root,
                    quote,
                ),
                Err(error) => kelly::quote_error(scale, self.outcomes(rebate, target), bankroll)
                    == Some(error),
            },
    {
        match target {
            BetTarget::Main(bet) => policy.quote(
                scale,
                self.main_weights,
                self.main_rules,
                rebate,
                bet,
                bankroll,
                root,
            ),
            BetTarget::Side(bet) => policy.quote_side_with_rebate(
                scale,
                self.side_weights,
                self.side_rules,
                rebate,
                bet,
                bankroll,
                root,
            ),
        }
    }

    fn analyze(&self) -> (analyses: (MainBetAnalysis<E>, SideBetAnalysis<E>))
        requires
            number::arithmetic::<E>(),
            ev::consistent(self.side_weights),
        ensures
            analyses.0 == ev::main_analysis(self.main_weights@, self.main_rules),
            analyses.1 == ev::side_analysis(self.side_weights, self.side_rules),
    {
        let total: u64 = self.side_weights.total_weight();
        proof {
            assert forall|bet| #[trigger] self.side_weights.wins(bet) <= u64::MAX by {
                assert(self.side_weights.wins(bet) + self.side_weights.push(bet) <= total);
            }
        }
        let analysis: MainBetAnalysis<E> = MainBetAnalysis::from_weights(
            self.main_weights,
            self.main_rules,
        );
        let side: SideBetAnalysis<E> = SideBetAnalysis::calculate(
            self.side_weights,
            self.side_rules,
        );
        (analysis, side)
    }
}

/// Whether a plan for a main bet follows from a decision and a right quote.
pub open spec fn is_main_plan<E: Number, F: Fn(E) -> E>(
    policy: KellyPolicy<E>,
    scale: Scale<E>,
    decision: BetDecision<E>,
    outcomes: Seq<KellyOutcome<E>>,
    bankroll: E,
    root: F,
    plan: BetPlan<E>,
) -> bool {
    match decision.action {
        BetAction::Skip { reason } => plan == (BetPlan {
            decision,
            quote: None,
            action: BetPlanAction::Skip { reason: BetPlanSkipReason::Strategy(reason) },
        }),
        BetAction::Place { bet } => plan.quote matches Some(quote) && kelly::is_quote(
            policy,
            scale,
            BetTarget::Main(bet),
            outcomes,
            bankroll,
            root,
            quote,
        ) && plan == BetPlan::planned(decision, policy.strategy, quote, number::small::<E>(0)),
    }
}

/// Whether a plan for one of all bets follows from a decision and a right quote.
pub open spec fn is_plan<E: Number, F: Fn(E) -> E>(
    policy: KellyPolicy<E>,
    scale: Scale<E>,
    decision: CombinedBetDecision<E>,
    outcomes: Seq<KellyOutcome<E>>,
    bankroll: E,
    root: F,
    plan: CombinedBetPlan<E>,
) -> bool {
    match decision.action {
        CombinedBetAction::Skip { reason } => plan == (CombinedBetPlan {
            decision,
            quote: None,
            action: CombinedBetPlanAction::Skip { reason: BetPlanSkipReason::Strategy(reason) },
        }),
        CombinedBetAction::Place { bet } => plan.quote matches Some(quote) && kelly::is_quote(
            policy,
            scale,
            bet,
            outcomes,
            bankroll,
            root,
            quote,
        ) && plan == CombinedBetPlan::planned(
            decision,
            policy.strategy,
            quote,
            number::small::<E>(0),
        ),
    }
}

/// What keeps the plan of a decision from being made, if anything does.
pub open spec fn plan_error<E: Number>(
    scale: Scale<E>,
    offer: RoundOffer<E>,
    rebate: RebateRule<E>,
    decision: CombinedBetDecision<E>,
    bankroll: E,
) -> Option<KellyError<E>> {
    if !scale.positive(bankroll) {
        Some(KellyError::InvalidBankroll { value: bankroll })
    } else {
        match decision.action {
            CombinedBetAction::Skip { .. } => None,
            CombinedBetAction::Place { bet } => kelly::quote_error(
                scale,
                offer.outcomes(rebate, bet),
                bankroll,
            ),
        }
    }
}

/// What keeps the plan of a decision between the main bets from being made, if anything does.
pub open spec fn main_plan_error<E: Number>(
    scale: Scale<E>,
    decision: BetDecision<E>,
    outcomes: Seq<KellyOutcome<E>>,
    bankroll: E,
) -> Option<KellyError<E>> {
    if !scale.positive(bankroll) {
        Some(KellyError::InvalidBankroll { value: bankroll })
    } else {
        match decision.action {
            BetAction::Skip { .. } => None,
            BetAction::Place { .. } => kelly::quote_error(scale, outcomes, bankroll),
        }
    }
}

impl<E: Number> KellyPolicy<E> {
    /// Decides between the main bets and quotes the stake of the bet that is made.
    pub fn plan<F: Fn(E) -> E>(
        self,
        scale: Scale<E>,
        betting_policy: &BettingPolicy<E>,
        weights: OutcomeWeights,
        rules: MainBetRules<E>,
        bankroll: E,
        root: &F,
    ) -> (result: Result<BetPlan<E>, KellyError<E>>)
        requires
            number::arithmetic::<E>(),
            forall|x: E| #[trigger] call_requires(*root, (x,)),
        ensures
            ({
                let rebate = betting_policy.rebate;
                let decision = betting_policy.main_decision(
                    ev::all_with_rebate(ev::main_analysis(weights@, rules), rebate),
                );
                let outcomes = kelly::as_outcomes(
                    distribution::main_distribution(weights@, rules, rebate, decision.candidate),
                );
                match result {
                    Ok(plan) => main_plan_error(scale, decision, outcomes, bankroll) is None
                        && is_main_plan(self, scale, decision, outcomes, bankroll, *root, plan),
                    Err(error) => main_plan_error(scale, decision, outcomes, bankroll) == Some(
                        error,
                    ),
                }
            }),
    {
        if !scale.is_positive(bankroll) {
            return Err(KellyError::InvalidBankroll { value: bankroll });
        }
        let analysis: MainBetAnalysis<E> = MainBetAnalysis::from_weights(weights, rules);
        let decision: BetDecision<E> = betting_policy.decide(analysis);
        match decision.action {
            BetAction::Skip { reason } => Ok(
                BetPlan {
                    decision,
                    quote: None,
                    action: BetPlanAction::Skip { reason: BetPlanSkipReason::Strategy(reason) },
                },
            ),
            BetAction::Place { bet } => {
                match self.quote(
                    scale,
                    weights,
                    rules,
                    betting_policy.rebate,
                    bet,
                    bankroll,
                    root,
                ) {
                    Ok(quote) => Ok(
                        BetPlan::from_decision(decision, self.strategy, quote, E::from(0u32)),
                    ),
                    Err(error) => Err(error),
                }
            },
        }
    }

    fn plan_decision<F: Fn(E) -> E>(
        self,
        scale: Scale<E>,
        offer: &RoundOffer<E>,
        rebate: RebateRule<E>,
        decision: CombinedBetDecision<E>,
        bankroll: E,
        root: &F,
    ) -> (result: Result<CombinedBetPlan<E>, KellyError<E>>)
        requires
            number::arithmetic::<E>(),
            ev::consistent(offer.side_weights),
            forall|x: E| #[trigger] call_requires(*root, (x,)),
            decision.action matches CombinedBetAction::Place { bet } ==> bet == decision.candidate,
        ensures
            match result {
                Ok(plan) => plan_error(scale, *offer, rebate, decision, bankroll) is None
                    && is_plan(
                    self,
                    scale,
                    decision,
                    offer.outcomes(rebate, decision.candidate),
                    bankroll,
                    *root,
                    plan,
                ),
                Err(error) => plan_error(scale, *offer, rebate, decision, bankroll) == Some(error),
            },
    {
        if !scale.is_positive(bankroll) {
            return Err(KellyError::InvalidBankroll { value: bankroll });
        }
        match decision.action {
            CombinedBetAction::Skip { reason } => Ok(
                CombinedBetPlan {
                    decision,
                    quote: None,
                    action: CombinedBetPlanAction::Skip {
                        reason: BetPlanSkipReason::Strategy(reason),
                    },
                },
            ),
            CombinedBetAction::Place { bet } => {
                match offer.quote(self, scale, rebate, bet, bankroll, root) {
                    Ok(quote) => Ok(
                        CombinedBetPlan::from_decision(
                            decision,
                            self.strategy,
                            quote,
                            E::from(0u32),
                        ),
                    ),
                    Err(error) => Err(error),
                }
            },
        }
    }

    /// Decides between all bets and quotes the stake of the bet that is made.
    pub fn plan_all<F: Fn(E) -> E>(
        self,
        scale: Scale<E>,
        betting_policy: &BettingPolicy<E>,
        main_weights: OutcomeWeights,
        main_rules: MainBetRules<E>,
        side_weights: SideBetWeights,
        side_rules: SideBetRules<E>,
        bankroll: E,
        root: &F,
    ) -> (result: Result<CombinedBetPlan<E>, KellyError<E>>)
        requires
            number::arithmetic::<E>(),
            ev::consistent(side_weights),
            forall|x: E| #[trigger] call_requires(*root, (x,)),
        ensures
            ({
                let offer = RoundOffer { main_weights, main_rules, side_weights, side_rules };
                let decision = strategy::decided(
                    offer.candidates(*betting_policy, Seq::new(11, |i: int| true)),
                );
                let rebate = betting_policy.rebate;
                match result {
                    Ok(plan) => plan_error(scale, offer, rebate, decision, bankroll) is None
                        && is_plan(
                        self,
                        scale,
                        decision,
                        offer.outcomes(rebate, decision.candidate),
                        bankroll,
                        *root,
                        plan,
                    ),
                    Err(error) => plan_error(scale, offer, rebate, decision, bankroll) == Some(
                        error,
                    ),
                }
            }),
    {
        let allowed: [bool; 11] = [true; 11];
        proof {
            assert(allowed@ =~= Seq::new(11, |i: int| true));
        }
        self.plan_all_with_side_bet_filter(
            scale,
            betting_policy,
            main_weights,
            main_rules,
            side_weights,
            side_rules,
            bankroll,
            allowed,
            root,
        )
    }

    /// Decides between the main bets and the allowed side bets, given in the order of
    /// `SideBet::ALL`, and quotes the stake of the bet that is made.
    pub fn plan_all_with_side_bet_filter<F: Fn(E) -> E>(
        self,
        scale: Scale<E>,
        betting_policy: &BettingPolicy<E>,
        main_weights: OutcomeWeights,
        main_rules: MainBetRules<E>,
        side_weights: SideBetWeights,
        side_rules: SideBetRules<E>,
        bankroll: E,
        allowed: [bool; 11],
        root: &F,
    ) -> (result: Result<CombinedBetPlan<E>, KellyError<E>>)
        requires
            number::arithmetic::<E>(),
            ev::consistent(side_weights),
            forall|x: E| #[trigger] call_requires(*root, (x,)),
        ensures
            ({
                let offer = RoundOffer { main_weights, main_rules, side_weights, side_rules };
                let decision = strategy::decided(offer.candidates(*betting_policy, allowed@));
                let rebate = betting_policy.rebate;
                match result {
                    Ok(plan) => plan_error(scale, offer, rebate, decision, bankroll) is None
                        && is_plan(
                        self,
                        scale,
                        decision,
                        offer.outcomes(rebate, decision.candidate),
                        bankroll,
                        *root,
                        plan,
                    ),
                    Err(error) => plan_error(scale, offer, rebate, decision, bankroll) == Some(
                        error,
                    ),
                }
            }),
    {
        let offer: RoundOffer<E> = RoundOffer {
            main_weights,
            main_rules,
            side_weights,
            side_rules,
        };
        let rebate: RebateRule<E> = betting_policy.rebate;
        let (main, side): (MainBetAnalysis<E>, SideBetAnalysis<E>) = offer.analyze();
        let decision: CombinedBetDecision<E> = betting_policy.decide_all_with_side_bet_filter(
            main,
            side,
            allowed,
        );
        self.plan_decision(scale, &offer, rebate, decision, bankroll, root)
    }
}

/// The stakes of the bets that the first plans make, together.
pub open spec fn total_stake<E: Number>(plans: Seq<CombinedBetPlan<E>>, count: int) -> E
    decreases count,
{
    if count <= 0 {
        number::small::<E>(0)
    } else {
        match plans[count - 1].action {
            CombinedBetPlanAction::Place { amount, .. } => number::sum(
                total_stake(plans, count - 1),
                amount,
            ),
            CombinedBetPlanAction::Skip { .. } => total_stake(plans, count - 1),
        }
    }
}

/// Adds up the stakes of the bets that plans make.
pub fn total_stake_of<E: Number>(plans: &Vec<CombinedBetPlan<E>>) -> (total: E)
    requires
        number::arithmetic::<E>(),
    ensures
        total == total_stake(plans@, plans@.len() as int),
{
    let mut total: E = E::from(0u32);
    let mut i: usize = 0;
    while i < plans.len()
        invariant
            number::arithmetic::<E>(),
            i <= plans.len(),
            total == total_stake(plans@, i as int),
        decreases plans.len() - i,
    {
        if let CombinedBetPlanAction::Place { bet: _, amount } = plans[i].action {
            total = total + amount;
        }
        i = i + 1;
    }
    total
}

impl<E: Number> KellyQuote<E> {
    /// The quote with its stake multiplied by a number.
    pub open spec fn scaled(self, factor: E) -> KellyQuote<E> {
        let amount = number::product(self.amount, factor);
        KellyQuote {
            applied_fraction: number::product(self.applied_fraction, factor),
            amount,
            expected_profit: number::product(amount, self.effective_ev),
            ..self
        }
    }

    fn scaled_amount(self, factor: E) -> (quote: KellyQuote<E>)
        requires
            number::arithmetic::<E>(),
        ensures
            quote == self.scaled(factor),
    {
        let amount: E = self.amount * factor;
        KellyQuote {
            bet: self.bet,
            effective_ev: self.effective_ev,
            kelly_fraction: self.kelly_fraction,
            strategy_fraction: self.strategy_fraction,
            applied_fraction: self.applied_fraction * factor,
            amount,
            expected_profit: amount * self.effective_ev,
        }
    }
}

impl<E: Number> CombinedBetPlan<E> {
    /// The plan with its stake multiplied by a number.
    pub open spec fn with_factor(self, factor: E) -> CombinedBetPlan<E> {
        match self.quote {
            Some(quote) => self.with_stake(quote.scaled(factor), number::small::<E>(0)),
            None => self,
        }
    }

    fn scale_amount(self, factor: E) -> (plan: CombinedBetPlan<E>)
        requires
            number::arithmetic::<E>(),
        ensures
            plan == self.with_factor(factor),
    {
        let mut plan: CombinedBetPlan<E> = self;
        if let Some(quote) = self.quote {
            plan.rescale(quote.scaled_amount(factor), E::from(0u32));
        }
        plan
    }
}

/// What the stakes of a round may come to together.
pub open spec fn round_limit<E: Number>(policy: KellyPolicy<E>, bankroll: E) -> E {
    policy.capped(
        BetTarget::Main(MainBet::Player),
        number::product(bankroll, policy.max_fraction),
        bankroll,
    )
}

/// The number that all stakes of a round are multiplied by so that they share its limit.
pub open spec fn common_factor<E: Number>(
    policy: KellyPolicy<E>,
    plans: Seq<CombinedBetPlan<E>>,
    bankroll: E,
) -> E {
    let total = total_stake(plans, plans.len() as int);
    let limit = round_limit(policy, bankroll);
    if order::above(total, limit) && order::above(total, number::small::<E>(0)) {
        number::quotient(limit, total)
    } else {
        number::small::<E>(1)
    }
}

/// The plans with stakes that share the limit of the round.
pub open spec fn shared<E: Number>(
    policy: KellyPolicy<E>,
    plans: Seq<CombinedBetPlan<E>>,
    bankroll: E,
) -> Seq<CombinedBetPlan<E>> {
    let factor = common_factor(policy, plans, bankroll);
    plans.map_values(|plan: CombinedBetPlan<E>| plan.with_factor(factor))
}

/// Whether every plan follows from its decision and a right quote.
pub open spec fn are_plans<E: Number, F: Fn(E) -> E>(
    policy: KellyPolicy<E>,
    scale: Scale<E>,
    offer: RoundOffer<E>,
    rebate: RebateRule<E>,
    decisions: Seq<CombinedBetDecision<E>>,
    bankroll: E,
    root: F,
    plans: Seq<CombinedBetPlan<E>>,
) -> bool {
    &&& plans.len() == decisions.len()
    &&& forall|i: int|
        #![trigger plans[i]]
        0 <= i < plans.len() ==> is_plan(
            policy,
            scale,
            decisions[i],
            offer.outcomes(rebate, decisions[i].candidate),
            bankroll,
            root,
            plans[i],
        )
}

/// The decisions to make every eligible bet.
pub open spec fn eligible_decisions<E: Number>(
    offer: RoundOffer<E>,
    policy: BettingPolicy<E>,
    allowed: Seq<bool>,
) -> Seq<CombinedBetDecision<E>> {
    let candidates = offer.candidates(policy, allowed);
    strategy::ranking(candidates, candidates.len() as int).map_values(
        |i: int| candidates[i].placed(),
    )
}

/// What keeps the plans of the first decisions from being made, if anything does: what comes
/// first.
pub open spec fn first_plan_error<E: Number>(
    scale: Scale<E>,
    offer: RoundOffer<E>,
    rebate: RebateRule<E>,
    decisions: Seq<CombinedBetDecision<E>>,
    bankroll: E,
    count: int,
) -> Option<KellyError<E>>
    decreases count,
{
    if !scale.positive(bankroll) {
        Some(KellyError::InvalidBankroll { value: bankroll })
    } else if count <= 0 {
        None
    } else {
        let before = first_plan_error(scale, offer, rebate, decisions, bankroll, count - 1);
        if before is Some {
            before
        } else {
            plan_error(scale, offer, rebate, decisions[count - 1], bankroll)
        }
    }
}

proof fn lemma_first_error_stays<E: Number>(
    scale: Scale<E>,
    offer: RoundOffer<E>,
    rebate: RebateRule<E>,
    decisions: Seq<CombinedBetDecision<E>>,
    bankroll: E,
    early: int,
    late: int,
)
    requires
        0 <= early <= late,
        first_plan_error(scale, offer, rebate, decisions, bankroll, early) is Some,
    ensures
        first_plan_error(scale, offer, rebate, decisions, bankroll, late) == first_plan_error(
            scale,
            offer,
            rebate,
            decisions,
            bankroll,
            early,
        ),
    decreases late - early,
{
    if early < late {
        lemma_first_error_stays(scale, offer, rebate, decisions, bankroll, early, late - 1);
    }
}

/// Whether a plan that makes a bet has a stake above zero, which its quote names.
pub open spec fn has_stake<E: Number>(plan: CombinedBetPlan<E>) -> bool {
    match plan.action {
        CombinedBetPlanAction::Place { amount, .. } => plan.quote matches Some(quote)
            && quote.amount == amount && order::above(amount, number::small::<E>(0)),
        CombinedBetPlanAction::Skip { .. } => true,
    }
}

/// Multiplying the stakes multiplies what they come to together; a factor that is not above zero
/// leaves no stake.
proof fn lemma_scaled_total<E: Number>(plans: Seq<CombinedBetPlan<E>>, factor: E, count: int)
    requires
        number::exact::<E>(),
        0 <= count <= plans.len(),
        forall|i: int| 0 <= i < plans.len() ==> has_stake(#[trigger] plans[i]),
    ensures
        ({
            let scaled = plans.map_values(|plan: CombinedBetPlan<E>| plan.with_factor(factor));
            let zero = number::small::<E>(0);
            total_stake(scaled, count) == if order::above(factor, zero) {
                number::product(total_stake(plans, count), factor)
            } else {
                zero
            }
        }),
    decreases count,
{
    if count > 0 {
        lemma_scaled_total(plans, factor, count - 1);
        let scaled = plans.map_values(|plan: CombinedBetPlan<E>| plan.with_factor(factor));
        let plan = plans[count - 1];
        assert(has_stake(plan));
        assert(scaled[count - 1] == plan.with_factor(factor));
        if let CombinedBetPlanAction::Place { amount, .. } = plan.action {
            let before = total_stake(plans, count - 1);
            assert(number::product(number::sum(before, amount), factor) == number::sum(
                number::product(before, factor),
                number::product(amount, factor),
            ));
            assert(order::above(number::product(amount, factor), number::small::<E>(0))
                <==> order::above(factor, number::small::<E>(0)));
        }
    }
}

/// Where numbers are exact, the stakes of the bets of a round come to no more together than its
/// limit, as long as that is not below zero.
pub proof fn lemma_stakes_share_the_limit<E: Number, F: Fn(E) -> E>(
    policy: KellyPolicy<E>,
    scale: Scale<E>,
    offer: RoundOffer<E>,
    rebate: RebateRule<E>,
    decisions: Seq<CombinedBetDecision<E>>,
    bankroll: E,
    root: F,
    plans: Seq<CombinedBetPlan<E>>,
)
    requires
        number::exact::<E>(),
        are_plans(policy, scale, offer, rebate, decisions, bankroll, root, plans),
        !order::above(number::small::<E>(0), round_limit(policy, bankroll)),
    ensures
        !order::above(
            total_stake(shared(policy, plans, bankroll), plans.len() as int),
            round_limit(policy, bankroll),
        ),
{
    let zero = number::small::<E>(0);
    let one = number::small::<E>(1);
    let limit = round_limit(policy, bankroll);
    let total = total_stake(plans, plans.len() as int);
    let factor = common_factor(policy, plans, bankroll);
    assert forall|i: int| 0 <= i < plans.len() implies has_stake(#[trigger] plans[i]) by {
        assert(is_plan(
            policy,
            scale,
            decisions[i],
            offer.outcomes(rebate, decisions[i].candidate),
            bankroll,
            root,
            plans[i],
        ));
    }
    lemma_scaled_total(plans, factor, plans.len() as int);
    if order::above(total, limit) {
        if !order::above(total, zero) {
            assert(!order::above(total, zero) && !order::above(zero, limit));
        }
        assert(number::product(total, number::quotient(limit, total)) == limit);
        assert(order::above(limit, limit) ==> !order::above(limit, limit));
    } else {
        assert(number::product(total, one) == total);
    }
}

impl<E: Number> KellyPolicy<E> {
    /// Multiplies the stakes of a round by one number so that they share its limit.
    fn share_limit(self, plans: Vec<CombinedBetPlan<E>>, bankroll: E) -> (result: Vec<
        CombinedBetPlan<E>,
    >)
        requires
            number::arithmetic::<E>(),
        ensures
            result@ == shared(self, plans@, bankroll),
    {
        let total: E = total_stake_of(&plans);
        let limit: E = self.cap(
            BetTarget::Main(MainBet::Player),
            bankroll * self.max_fraction,
            bankroll,
        );
        let factor: E = if order::is_above(total, limit) && order::is_above(total, E::from(0u32)) {
            limit / total
        } else {
            E::from(1u32)
        };
        let mut result: Vec<CombinedBetPlan<E>> = Vec::new();
        let mut i: usize = 0;
        while i < plans.len()
            invariant
                number::arithmetic::<E>(),
                i <= plans.len(),
                factor == common_factor(self, plans@, bankroll),
                result@ == Seq::new(i as nat, |j: int| plans@[j].with_factor(factor)),
            decreases plans.len() - i,
        {
            result.push(plans[i].scale_amount(factor));
            i = i + 1;
        }
        proof {
            assert(result@ =~= shared(self, plans@, bankroll));
        }
        result
    }

    /// Quotes a stake for every eligible bet and lets the stakes share the limit of the round.
    pub fn plan_all_multiple_with_side_bet_filter<F: Fn(E) -> E>(
        self,
        scale: Scale<E>,
        betting_policy: &BettingPolicy<E>,
        main_weights: OutcomeWeights,
        main_rules: MainBetRules<E>,
        side_weights: SideBetWeights,
        side_rules: SideBetRules<E>,
        bankroll: E,
        allowed: [bool; 11],
        root: &F,
    ) -> (result: Result<Vec<CombinedBetPlan<E>>, KellyError<E>>)
        requires
            number::arithmetic::<E>(),
            ev::consistent(side_weights),
            forall|x: E| #[trigger] call_requires(*root, (x,)),
        ensures
            ({
                let offer = RoundOffer { main_weights, main_rules, side_weights, side_rules };
                let rebate = betting_policy.rebate;
                let decisions = eligible_decisions(offer, *betting_policy, allowed@);
                let error = first_plan_error(
                    scale,
                    offer,
                    rebate,
                    decisions,
                    bankroll,
                    decisions.len() as int,
                );
                match result {
                    Ok(plans) => error is None && exists|quoted: Seq<CombinedBetPlan<E>>|
                        are_plans(
                            self,
                            scale,
                            offer,
                            rebate,
                            decisions,
                            bankroll,
                            *root,
                            quoted,
                        ) && plans@ == #[trigger] shared(self, quoted, bankroll),
                    Err(found) => error == Some(found),
                }
            }),
    {
        let offer: RoundOffer<E> = RoundOffer {
            main_weights,
            main_rules,
            side_weights,
            side_rules,
        };
        let rebate: RebateRule<E> = betting_policy.rebate;
        let ghost expected = eligible_decisions(offer, *betting_policy, allowed@);
        if !scale.is_positive(bankroll) {
            proof {
                lemma_first_error_stays(
                    scale,
                    offer,
                    rebate,
                    expected,
                    bankroll,
                    0,
                    expected.len() as int,
                );
            }
            return Err(KellyError::InvalidBankroll { value: bankroll });
        }
        let (main, side): (MainBetAnalysis<E>, SideBetAnalysis<E>) = offer.analyze();
        let decisions: Vec<CombinedBetDecision<E>> =
            betting_policy.eligible_all_with_side_bet_filter(main, side, allowed);
        proof {
            assert(decisions@ =~= expected);
        }
        let mut plans: Vec<CombinedBetPlan<E>> = Vec::new();
        let mut i: usize = 0;
        while i < decisions.len()
            invariant
                number::arithmetic::<E>(),
                ev::consistent(offer.side_weights),
                forall|x: E| #[trigger] call_requires(*root, (x,)),
                scale.positive(bankroll),
                i <= decisions.len(),
                decisions@ == expected,
                expected == eligible_decisions(offer, *betting_policy, allowed@),
                offer == (RoundOffer { main_weights, main_rules, side_weights, side_rules }),
                rebate == betting_policy.rebate,
                first_plan_error(scale, offer, rebate, expected, bankroll, i as int) is None,
                plans.len() == i,
                forall|j: int|
                    #![trigger plans@[j]]
                    0 <= j < i ==> is_plan(
                        self,
                        scale,
                        expected[j],
                        offer.outcomes(rebate, expected[j].candidate),
                        bankroll,
                        *root,
                        plans@[j],
                    ),
            decreases decisions.len() - i,
        {
            let decision: CombinedBetDecision<E> = decisions[i];
            match self.plan_decision(scale, &offer, rebate, decision, bankroll, root) {
                Ok(plan) => {
                    plans.push(plan);
                },
                Err(error) => {
                    proof {
                        lemma_first_error_stays(
                            scale,
                            offer,
                            rebate,
                            expected,
                            bankroll,
                            i + 1,
                            expected.len() as int,
                        );
                    }
                    return Err(error);
                },
            }
            i = i + 1;
        }
        proof {
            assert(are_plans(
                self,
                scale,
                offer,
                rebate,
                expected,
                bankroll,
                *root,
                plans@,
            ));
        }
        let ghost quoted = plans@;
        let result: Vec<CombinedBetPlan<E>> = self.share_limit(plans, bankroll);
        proof {
            assert(result@ == shared(self, quoted, bankroll));
        }
        Ok(result)
    }
}

} // verus!
