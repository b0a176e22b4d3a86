//! Laws of what pages and snapshots show, where numbers are exact.

use vstd::prelude::*;

use crate::baccarat::analysis::{EffectiveBetMetrics, EffectiveMainBets};
use crate::baccarat::kelly::KellyOutcome;
use crate::baccarat::placing;
use crate::baccarat::plan;
use crate::baccarat::risk::{BetPlan, KellyPolicy};
use crate::baccarat::side_bet::SideBet;
use crate::baccarat::snapshot::{ActionSnapshot, DecisionSnapshot};
use crate::baccarat::strategy::BetDecision;
use crate::blackjack::{BlackjackAction, BlackjackRules};
use crate::exact;
use crate::exact::exact;
use crate::number::Number;
use crate::scale::Scale;
use crate::web_api::advice::{BrowserBetMetrics, BrowserSideBetMetrics};
use crate::web_api::blackjack_page::BrowserBlackjackAnalysis;
use crate::web_api::BlackjackInput;

verus! {

/// What the house keeps of a main bet and what the bet gives back make up the stake; the bet gives
/// back the stake and its worth.
pub proof fn lemma_edge_and_return_make_up_the_stake<E: Number>(
    value: spec_fn(E) -> real,
    metrics: EffectiveBetMetrics<E>,
)
    requires
        exact(value),
    ensures
        ({
            let row = BrowserBetMetrics::of(metrics);
            &&& value(row.house_edge) + value(row.rtp) == 1 as real
            &&& value(row.rtp) - 1 as real == value(metrics.effective_ev)
            &&& row.probability == metrics.probability
            &&& row.base_ev == metrics.base_ev
            &&& row.rebate_ev == metrics.rebate_ev
            &&& row.effective_ev == metrics.effective_ev
        }),
{
}

/// What the house keeps of a side bet and what the bet gives back make up the stake, before the
/// rebate and after it.
pub proof fn lemma_side_edge_and_return_make_up_the_stake<E: Number>(
    value: spec_fn(E) -> real,
    row: BrowserSideBetMetrics<E>,
    metrics: EffectiveBetMetrics<E>,
    bet: SideBet,
)
    requires
        exact(value),
        row.shows(metrics, bet),
    ensures
        value(row.house_edge) + value(row.rtp) == 1 as real,
        value(row.rtp) - 1 as real == value(metrics.base_ev),
        value(row.effective_house_edge) + value(row.effective_rtp) == 1 as real,
        value(row.effective_rtp) - 1 as real == value(metrics.effective_ev),
        row.ev == metrics.base_ev,
        row.probability == metrics.probability,
{
}

/// A page asks for one stake more where the hand is to be doubled or split, and for none
/// otherwise.
pub proof fn lemma_doubling_and_splitting_ask_for_a_stake<E: Number>(
    value: spec_fn(E) -> real,
    page: BrowserBlackjackAnalysis<E>,
    input: BlackjackInput,
    decks: u8,
    rules: BlackjackRules<E>,
    stake: E,
)
    requires
        exact(value),
        page.shows(input, decks, rules, stake),
    ensures
        value(page.suggested_additional_stake) == if page.analysis.optimal_action
            == BlackjackAction::Double || page.analysis.optimal_action == BlackjackAction::Split {
            value(stake)
        } else {
            0 as real
        },
        page.current_base_stake == stake,
{
    exact::lemma_opposite(value(stake), value(stake));
}

/// A snapshot suggests a stake exactly when it places a bet, and then that stake; where it places
/// none it expects no profit.
pub proof fn lemma_a_snapshot_suggests_what_it_places<E: Number, F: Fn(E) -> E>(
    value: spec_fn(E) -> real,
    snapshot: DecisionSnapshot<E>,
    bets: EffectiveMainBets<E>,
    policy: KellyPolicy<E>,
    scale: Scale<E>,
    decision: BetDecision<E>,
    outcomes: Seq<KellyOutcome<E>>,
    bankroll: E,
    root: F,
    plan: BetPlan<E>,
)
    requires
        exact(value),
        plan::is_main_plan(policy, scale, decision, outcomes, bankroll, root, plan),
        snapshot.shows(bets, plan, bankroll),
    ensures
        snapshot.action is Place <==> value(snapshot.suggested_amount) > 0 as real,
        snapshot.action matches ActionSnapshot::Place { amount, .. } ==> snapshot.suggested_amount
            == amount && plan.quote is Some && snapshot.expected_profit
            == plan.quote->0.expected_profit,
        snapshot.action is Skip ==> value(snapshot.suggested_amount) == 0 as real && value(
            snapshot.expected_profit,
        ) == 0 as real,
{
    placing::lemma_main_plans_make_bets_that_pay(
        value,
        policy,
        scale,
        decision,
        outcomes,
        bankroll,
        root,
        plan,
    );
}

} // verus!
