//! A decision as plain data for other programs.

use vstd::prelude::*;

use crate::baccarat::analysis::{EffectiveBetMetrics, EffectiveMainBets, MainBetAnalysis};
use crate::baccarat::bet::MainBetRules;
use crate::baccarat::deals;
use crate::baccarat::distribution;
use crate::baccarat::ev;
use crate::baccarat::kelly;
use crate::baccarat::plan;
use crate::baccarat::point_enumerate::calculate_main_outcomes;
use crate::baccarat::probability::{OutcomeWeights, OutcomeWeightsView, ProbabilityError};
use crate::baccarat::risk::{BetPlan, BetPlanAction, KellyError, KellyPolicy};
use crate::baccarat::strategy::BettingPolicy;
use crate::number;
use crate::number::Number;
use crate::scale::Scale;
use crate::shoe::Shoe;
use crate::web_api;
use crate::web_api::skip_reason_code;

verus! {

/// The version of the layout of a snapshot.
pub const DECISION_SNAPSHOT_SCHEMA_VERSION: u16 = 1;

/// The version of this library.
pub const ENGINE_VERSION: &'static str = "0.1.0";

/// The metrics of one bet per unit of stake.
#[derive(Debug, Clone, Copy, PartialEq, Eq)]
pub struct BetSnapshot<E> {
    pub probability: E,
    pub base_ev: E,
    pub rebate_ev: E,
    pub effective_ev: E,
}

impl<E: Copy> BetSnapshot<E> {
    /// The metrics of a bet.
    pub open spec fn of(metrics: EffectiveBetMetrics<E>) -> BetSnapshot<E> {
        BetSnapshot {
            probability: metrics.probability,
            base_ev: metrics.base_ev,
            rebate_ev: metrics.rebate_ev,
            effective_ev: metrics.effective_ev,
        }
    }

    fn from_metrics(metrics: EffectiveBetMetrics<E>) -> (snapshot: BetSnapshot<E>)
        ensures
            snapshot == Self::of(metrics),
    {
        BetSnapshot {
            probability: metrics.probability,
            base_ev: metrics.base_ev,
            rebate_ev: metrics.rebate_ev,
            effective_ev: metrics.effective_ev,
        }
    }
}

/// What to do, by stable names.
#[derive(Debug, Clone, Copy, PartialEq, Eq)]
pub enum ActionSnapshot<E> {
    Place { bet: &'static str, amount: E },
    Skip { reason: &'static str },
}

impl<E: Copy> ActionSnapshot<E> {
    /// Whether this tells what a plan does.
    pub open spec fn tells(self, action: BetPlanAction<E>) -> bool {
        match (self, action) {
            (
                ActionSnapshot::Place { bet: name, amount: stake },
                BetPlanAction::Place { bet, amount },
            ) => name@ == bet.name() && stake == amount,
            (ActionSnapshot::Skip { reason: name }, BetPlanAction::Skip { reason }) => name@
                == web_api::skip_reason_label(reason),
            _ => false,
        }
    }

    fn new(action: BetPlanAction<E>) -> (snapshot: ActionSnapshot<E>)
        ensures
            snapshot.tells(action),
    {
        match action {
            BetPlanAction::Place { bet, amount } => ActionSnapshot::Place {
                bet: bet.as_str(),
                amount,
            },
            BetPlanAction::Skip { reason } => ActionSnapshot::Skip {
                reason: skip_reason_code(reason),
            },
        }
    }
}

/// An analysis before a round, with the decision and the stake.
#[derive(Debug, Clone, Copy, PartialEq, Eq)]
pub struct DecisionSnapshot<E> {
    pub schema_version: u16,
    pub engine_version: &'static str,
    pub player: BetSnapshot<E>,
    pub banker: BetSnapshot<E>,
    pub tie: BetSnapshot<E>,
    /// The bet with the largest effective value, whether it is made or not.
    pub candidate_bet: &'static str,
    pub action: ActionSnapshot<E>,
    pub bankroll: E,
    /// None where the decision was against betting.
    pub kelly_fraction: Option<E>,
    /// None where the decision was against betting.
    pub applied_fraction: Option<E>,
    /// The stake; zero where no bet is made.
    pub suggested_amount: E,
    /// The expected net profit of the stake; zero where no bet is made.
    pub expected_profit: E,
}

impl<E: Number> DecisionSnapshot<E> {
    /// Whether the snapshot shows three bets and a plan.
    pub open spec fn shows(self, bets: EffectiveMainBets<E>, plan: BetPlan<E>, bankroll: E) -> bool {
        let made = plan.action is Place;
        &&& self.schema_version == DECISION_SNAPSHOT_SCHEMA_VERSION
        &&& self.engine_version@ == ENGINE_VERSION@
        &&& self.player == BetSnapshot::of(bets.player)
        &&& self.banker == BetSnapshot::of(bets.banker)
        &&& self.tie == BetSnapshot::of(bets.tie)
        &&& self.candidate_bet@ == plan.decision.candidate.name()
        &&& self.action.tells(plan.action)
        &&& self.bankroll == bankroll
        &&& match plan.quote {
            Some(quote) => {
                &&& self.kelly_fraction == Some(quote.kelly_fraction)
                &&& self.applied_fraction == Some(quote.applied_fraction)
                &&& self.suggested_amount == if made {
                    quote.amount
                } else {
                    number::small::<E>(0)
                }
                &&& self.expected_profit == if made {
                    quote.expected_profit
                } else {
                    number::small::<E>(0)
                }
            },
            None => {
                &&& self.kelly_fraction is None
                &&& self.applied_fraction is None
                &&& self.suggested_amount == number::small::<E>(0)
                &&& self.expected_profit == number::small::<E>(0)
            },
        }
    }
}

/// Why a snapshot cannot be made.
#[derive(Debug, Clone, Copy, PartialEq, Eq)]
pub enum SnapshotError<E> {
    /// The weights of the shoe cannot be computed.
    Probability(ProbabilityError),
    /// The stake cannot be computed.
    Kelly(KellyError<E>),
}

/// The snapshot of known weights, or why there is none.
pub open spec fn is_snapshot<E: Number, F: Fn(E) -> E>(
    scale: Scale<E>,
    weights: OutcomeWeightsView,
    rules: MainBetRules<E>,
    betting: BettingPolicy<E>,
    kelly: KellyPolicy<E>,
    bankroll: E,
    root: F,
    result: Result<DecisionSnapshot<E>, SnapshotError<E>>,
) -> bool {
    let bets = ev::all_with_rebate(ev::main_analysis(weights, rules), betting.rebate);
    let decision = betting.main_decision(bets);
    let outcomes = kelly::as_outcomes(
        distribution::main_distribution(weights, rules, betting.rebate, decision.candidate),
    );
    match result {
        Ok(snapshot) => {
            &&& plan::main_plan_error(scale, decision, outcomes, bankroll) is None
            &&& exists|plan: BetPlan<E>|
                plan::is_main_plan(kelly, scale, decision, outcomes, bankroll, root, plan)
                    && #[trigger] snapshot.shows(bets, plan, bankroll)
        },
        Err(SnapshotError::Kelly(error)) => plan::main_plan_error(
            scale,
            decision,
            outcomes,
            bankroll,
        ) == Some(error),
        Err(SnapshotError::Probability(_)) => false,
    }
}

/// Makes the snapshot of known weights.
pub fn decision_snapshot_from_weights<E: Number, F: Fn(E) -> E>(
    scale: Scale<E>,
    weights: OutcomeWeights,
    rules: MainBetRules<E>,
    betting_policy: &BettingPolicy<E>,
    kelly_policy: KellyPolicy<E>,
    bankroll: E,
    root: &F,
) -> (result: Result<DecisionSnapshot<E>, SnapshotError<E>>)
    requires
        number::arithmetic::<E>(),
        forall|x: E| #[trigger] call_requires(*root, (x,)),
    ensures
        is_snapshot(
            scale,
            weights@,
            rules,
            *betting_policy,
            kelly_policy,
            bankroll,
            *root,
            result,
        ),
{
    let analysis: MainBetAnalysis<E> = MainBetAnalysis::from_weights(weights, rules);
    let bets: EffectiveMainBets<E> = analysis.with_rebate(betting_policy.rebate);
    let plan: BetPlan<E> = match kelly_policy.plan(
        scale,
        betting_policy,
        weights,
        rules,
        bankroll,
        root,
    ) {
        Ok(plan) => plan,
        Err(error) => {
            return Err(SnapshotError::Kelly(error));
        },
    };
    let zero: E = E::from(0u32);
    let made: bool = match plan.action {
        BetPlanAction::Place { bet: _, amount: _ } => true,
        BetPlanAction::Skip { reason: _ } => false,
    };
    let (kelly_fraction, applied_fraction, amount, profit): (Option<E>, Option<E>, E, E) =
        match plan.quote {
        Some(quote) => (
            Some(quote.kelly_fraction),
            Some(quote.applied_fraction),
            quote.amount,
            quote.expected_profit,
        ),
        None => (None, None, zero, zero),
    };
    let snapshot: DecisionSnapshot<E> = DecisionSnapshot {
        schema_version: DECISION_SNAPSHOT_SCHEMA_VERSION,
        engine_version: ENGINE_VERSION,
        player: BetSnapshot::from_metrics(bets.player),
        banker: BetSnapshot::from_metrics(bets.banker),
        tie: BetSnapshot::from_metrics(bets.tie),
        candidate_bet: plan.decision.candidate.as_str(),
        action: ActionSnapshot::new(plan.action),
        bankroll,
        kelly_fraction,
        applied_fraction,
        suggested_amount: if made {
            amount
        } else {
            zero
        },
        expected_profit: if made {
            profit
        } else {
            zero
        },
    };
    proof {
        assert(snapshot.shows(bets, plan, bankroll));
    }
    Ok(snapshot)
}

/// Makes the snapshot of a shoe.
pub fn analyze_snapshot<E: Number, F: Fn(E) -> E>(
    scale: Scale<E>,
    shoe: &Shoe,
    rules: MainBetRules<E>,
    betting_policy: &BettingPolicy<E>,
    kelly_policy: KellyPolicy<E>,
    bankroll: E,
    root: &F,
) -> (result: Result<DecisionSnapshot<E>, SnapshotError<E>>)
    requires
        number::arithmetic::<E>(),
        forall|x: E| #[trigger] call_requires(*root, (x,)),
    ensures
        if shoe@.total() < 6 {
            result == Err::<DecisionSnapshot<E>, SnapshotError<E>>(
                SnapshotError::Probability(
                    ProbabilityError::NotEnoughCards { remaining: shoe@.total() as u16 },
                ),
            )
        } else {
            is_snapshot(
                scale,
                deals::main_weights(shoe@),
                rules,
                *betting_policy,
                kelly_policy,
                bankroll,
                *root,
                result,
            )
        },
{
    match calculate_main_outcomes(shoe) {
        Ok(weights) => decision_snapshot_from_weights(
            scale,
            weights,
            rules,
            betting_policy,
            kelly_policy,
            bankroll,
            root,
        ),
        Err(error) => Err(SnapshotError::Probability(error)),
    }
}

} // verus!
