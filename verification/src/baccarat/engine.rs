//! The replay of recorded rounds with a running bankroll.

use vstd::prelude::*;

use crate::baccarat::account;
use crate::baccarat::account::{settle_plan, PlacedBet, ReplayAccount};
use crate::baccarat::analysis::EffectiveSideBets;
use crate::baccarat::bet::MainBetRules;
use crate::baccarat::deals;
use crate::baccarat::ev;
use crate::baccarat::laws;
use crate::baccarat::ledger::CsvBetBreakdown;
use crate::baccarat::load::LoadedRounds;
use crate::baccarat::machine;
use crate::baccarat::machine::{PreparedRound, ReplayMachine};
use crate::baccarat::plan;
use crate::baccarat::plan::RoundOffer;
use crate::baccarat::probability::{OutcomeWeights, ProbabilityError};
use crate::baccarat::rebate::RebateRule;
use crate::baccarat::records;
use crate::baccarat::records::{CsvQualityReport, CsvReplayError, LoadedRound};
use crate::baccarat::replay;
use crate::baccarat::replay::{
    format_hand_cards, outcome_name, CsvBetCounts, CsvReplayConfig, SideBetRoundLimits,
};
use crate::baccarat::risk::{CombinedBetPlan, CombinedBetPlanAction, KellyError, KellyPolicy};
use crate::baccarat::round;
use crate::baccarat::round::RoundResult;
use crate::baccarat::schedule;
use crate::baccarat::schedule::Schedule;
use crate::baccarat::side_bet;
use crate::baccarat::side_bet::{Settlement, SideBet, SideBetRules, SideBetWeights};
use crate::baccarat::strategy;
use crate::baccarat::strategy::{BetTarget, BettingPolicy};
use crate::card::Card;
use crate::number;
use crate::number::Number;
use crate::order;
use crate::scale::Scale;
use crate::shoe;
use crate::shoe::{ShoeError, ShoeView, MAX_DECKS, MIN_DECKS};

verus! {

/// What stays the same in all rounds of a replay.
#[derive(Debug, Clone, Copy, PartialEq, Eq)]
pub struct ReplaySetup<E> {
    pub rules: MainBetRules<E>,
    pub side_rules: SideBetRules<E>,
    pub betting: BettingPolicy<E>,
    pub kelly: KellyPolicy<E>,
    pub limits: SideBetRoundLimits,
    pub multiple: bool,
}

impl<E: Number> ReplaySetup<E> {
    /// The setup of a replay with given settings.
    pub open spec fn of(config: CsvReplayConfig<E>) -> ReplaySetup<E> {
        ReplaySetup {
            rules: config.rules,
            side_rules: side_bet::macau_table().in_units::<E>(),
            betting: BettingPolicy {
                rebate: if order::above(config.rebate_rate, number::small::<E>(0)) {
                    RebateRule::AllExceptMainBetTie { rate: config.rebate_rate }
                } else {
                    RebateRule::NoRebate
                },
                minimum_effective_ev: config.minimum_effective_ev,
                minimum_side_bet_ev: config.minimum_side_bet_ev,
            },
            kelly: config.kelly,
            limits: config.side_bet_round_limits,
            multiple: config.allow_multiple_bets,
        }
    }

    /// The setup of a replay with given settings.
    pub fn new(config: CsvReplayConfig<E>) -> (setup: ReplaySetup<E>)
        requires
            number::arithmetic::<E>(),
        ensures
            setup == Self::of(config),
    {
        ReplaySetup {
            rules: config.rules,
            side_rules: SideBetRules::macau_lucky_seven().per_unit::<E>(),
            betting: BettingPolicy::with_side_bet_minimum(
                config.rebate(E::from(0u32)),
                config.minimum_effective_ev,
                config.minimum_side_bet_ev,
            ),
            kelly: config.kelly,
            limits: config.side_bet_round_limits,
            multiple: config.allow_multiple_bets,
        }
    }

    /// Which side bets may be made in a round.
    pub open spec fn allowed(self, round_no: u32) -> Seq<bool> {
        Seq::new(11, |i: int| self.limits.permits(SideBet::ALL@[i], round_no))
    }

    /// Whether an offer is that of a shoe.
    pub open spec fn offers(self, shoe: ShoeView, offer: RoundOffer<E>) -> bool {
        &&& offer.main_rules == self.rules
        &&& offer.side_rules == self.side_rules
        &&& offer.main_weights@ == deals::main_weights(shoe)
        &&& deals::are_side_weights(offer.side_weights, shoe)
    }
}

/// Whether plans are the ones that an offer leads to: one for every eligible bet where several
/// bets may be made and there is one, and the single best one otherwise.
pub open spec fn are_round_plans<E: Number, F: Fn(E) -> E>(
    setup: ReplaySetup<E>,
    scale: Scale<E>,
    offer: RoundOffer<E>,
    allowed: Seq<bool>,
    bankroll: E,
    root: F,
    plans: Seq<CombinedBetPlan<E>>,
) -> bool {
    let rebate = setup.betting.rebate;
    let eligible = plan::eligible_decisions(offer, setup.betting, allowed);
    let single = strategy::decided(offer.candidates(setup.betting, allowed));
    if setup.multiple && eligible.len() > 0 {
        exists|quoted: Seq<CombinedBetPlan<E>>|
            plan::are_plans(
                setup.kelly,
                scale,
                offer,
                rebate,
                eligible,
                bankroll,
                root,
                quoted,
            ) && plans == #[trigger] plan::shared(setup.kelly, quoted, bankroll)
    } else {
        plans.len() == 1 && plan::is_plan(
            setup.kelly,
            scale,
            single,
            offer.outcomes(rebate, single.candidate),
            bankroll,
            root,
            plans[0],
        )
    }
}

/// What keeps the plans of a round from being made, if anything does.
pub open spec fn round_plan_error<E: Number>(
    setup: ReplaySetup<E>,
    scale: Scale<E>,
    offer: RoundOffer<E>,
    allowed: Seq<bool>,
    bankroll: E,
) -> Option<KellyError<E>> {
    let rebate = setup.betting.rebate;
    let eligible = plan::eligible_decisions(offer, setup.betting, allowed);
    let single = strategy::decided(offer.candidates(setup.betting, allowed));
    let several = plan::first_plan_error(
        scale,
        offer,
        rebate,
        eligible,
        bankroll,
        eligible.len() as int,
    );
    if setup.multiple && (several is Some || eligible.len() > 0) {
        several
    } else {
        plan::plan_error(scale, offer, rebate, single, bankroll)
    }
}

proof fn lemma_few_candidates<E: Number>(
    policy: BettingPolicy<E>,
    offer: RoundOffer<E>,
    allowed: Seq<bool>,
)
    ensures
        plan::eligible_decisions(offer, policy, allowed).len() <= 14,
{
    let candidates = offer.candidates(policy, allowed);
    lemma_side_candidates(offer.side_bets(policy.rebate), allowed, policy.minimum_side_bet_ev, 11);
    strategy::lemma_ranking_holds_the_eligible(candidates, candidates.len() as int);
}

proof fn lemma_side_candidates<E: Number>(
    side: EffectiveSideBets<E>,
    allowed: Seq<bool>,
    minimum: E,
    count: int,
)
    requires
        0 <= count,
    ensures
        strategy::side_candidates(side, allowed, minimum, count).len() <= count,
    decreases count,
{
    if count > 0 {
        lemma_side_candidates(side, allowed, minimum, count - 1);
    }
}

impl<E: Number> ReplaySetup<E> {
    /// Makes the plans of a round.
    pub fn plan_round<F: Fn(E) -> E>(
        &self,
        scale: Scale<E>,
        weights: OutcomeWeights,
        side_weights: SideBetWeights,
        round_no: u32,
        bankroll: E,
        root: &F,
    ) -> (result: Result<Vec<CombinedBetPlan<E>>, KellyError<E>>)
        requires
            number::arithmetic::<E>(),
            ev::consistent(side_weights),
            forall|x: E| #[trigger] call_requires(*root, (x,)),
        ensures
            ({
                let offer = RoundOffer {
                    main_weights: weights,
                    main_rules: self.rules,
                    side_weights,
                    side_rules: self.side_rules,
                };
                let allowed = self.allowed(round_no);
                match result {
                    Ok(plans) => {
                        &&& 0 < plans.len() <= 14
                        &&& round_plan_error(*self, scale, offer, allowed, bankroll) is None
                        &&& are_round_plans(
                            *self,
                            scale,
                            offer,
                            allowed,
                            bankroll,
                            *root,
                            plans@,
                        )
                    },
                    Err(error) => round_plan_error(*self, scale, offer, allowed, bankroll) == Some(
                        error,
                    ),
                }
            }),
    {
        let allowed: [bool; 11] = self.limits.allowed_in_round(round_no);
        let ghost offer = RoundOffer {
            main_weights: weights,
            main_rules: self.rules,
            side_weights,
            side_rules: self.side_rules,
        };
        proof {
            assert(allowed@ =~= self.allowed(round_no));
            lemma_few_candidates(self.betting, offer, allowed@);
        }
        if self.multiple {
            match self.kelly.plan_all_multiple_with_side_bet_filter(
                scale,
                &self.betting,
                weights,
                self.rules,
                side_weights,
                self.side_rules,
                bankroll,
                allowed,
                root,
            ) {
                Ok(plans) => {
                    if plans.len() > 0 {
                        return Ok(plans);
                    }
                },
                Err(error) => {
                    return Err(error);
                },
            }
        }
        match self.kelly.plan_all_with_side_bet_filter(
            scale,
            &self.betting,
            weights,
            self.rules,
            side_weights,
            self.side_rules,
            bankroll,
            allowed,
            root,
        ) {
            Ok(plan) => {
                let mut plans: Vec<CombinedBetPlan<E>> = Vec::new();
                plans.push(plan);
                Ok(plans)
            },
            Err(error) => Err(error),
        }
    }
}

/// The rounds that are replayed, in order, and their shoes.
pub struct Course {
    pub rounds: Seq<LoadedRound>,
    pub order: Seq<usize>,
    pub slots: Seq<usize>,
    pub decks: nat,
}

impl Course {
    /// The row of a round.
    pub open spec fn row(self, k: int) -> LoadedRound {
        self.rounds[self.order[k] as int]
    }

    /// The cards of a round.
    pub open spec fn cards(self, k: int) -> Seq<Card> {
        machine::cards_of(self.row(k))
    }

    /// The shoe before a round.
    pub open spec fn shoe(self, k: int) -> ShoeView {
        machine::shoe_before(
            self.decks,
            self.rounds,
            self.order,
            self.slots,
            k,
            self.slots[k] as int,
        )
    }

    /// Whether this is the course of a replay of judged rows.
    pub open spec fn replays(self, rounds: Seq<LoadedRound>, decks: nat) -> bool {
        &&& self.rounds == rounds
        &&& self.decks == decks
        &&& exists|order: Schedule| #[trigger]
            order.fits(rounds) && self.order == order.order@ && self.slots == order.slots@
    }

    /// Whether one of the first rounds had a shoe with these cards.
    pub open spec fn met(self, counts: Seq<nat>, n: int) -> bool {
        exists|k: int| 0 <= k < n && #[trigger] self.shoe(k).counts == counts
    }

    /// How often the weights of the first rounds were found and how often they were computed.
    pub open spec fn lookups(self, n: int) -> (nat, nat)
        decreases n,
    {
        if n <= 0 {
            (0, 0)
        } else {
            let before = self.lookups(n - 1);
            if self.met(self.shoe(n - 1).counts, n - 1) {
                (before.0 + 1, before.1)
            } else {
                (before.0, before.1 + 1)
            }
        }
    }
}

/// The bet that a plan makes on dealt cards, and how it ends; none where it makes none.
pub open spec fn made<E: Number>(
    setup: ReplaySetup<E>,
    cards: Seq<Card>,
    plan: CombinedBetPlan<E>,
) -> Option<PlacedBet<E>> {
    match plan.action {
        CombinedBetPlanAction::Place { bet, .. } => {
            let settled = machine::settled(
                bet,
                setup.rules,
                setup.side_rules,
                setup.betting.rebate,
                cards,
            );
            account::placed_by(plan, settled.0, settled.1)
        },
        CombinedBetPlanAction::Skip { .. } => None,
    }
}

/// The bets that the first plans of a round make.
pub open spec fn all_made<E: Number>(
    setup: ReplaySetup<E>,
    cards: Seq<Card>,
    plans: Seq<CombinedBetPlan<E>>,
    n: int,
) -> Seq<PlacedBet<E>>
    decreases n,
{
    if n <= 0 {
        Seq::empty()
    } else {
        let before = all_made(setup, cards, plans, n - 1);
        match made(setup, cards, plans[n - 1]) {
            Some(placed) => before.push(placed),
            None => before,
        }
    }
}

/// The books with the first plans of a round.
pub open spec fn booked<E: Number>(
    setup: ReplaySetup<E>,
    cards: Seq<Card>,
    plans: Seq<CombinedBetPlan<E>>,
    account: ReplayAccount<E>,
    n: int,
) -> ReplayAccount<E>
    decreases n,
{
    if n <= 0 {
        account
    } else {
        booked(setup, cards, plans, account, n - 1).with_plan(made(setup, cards, plans[n - 1]))
    }
}

/// The stakes of the first bets together.
pub open spec fn stake_sum<E: Number>(bets: Seq<PlacedBet<E>>) -> E
    decreases bets.len(),
{
    if bets.len() == 0 {
        number::small::<E>(0)
    } else {
        number::sum(stake_sum(bets.drop_last()), bets.last().amount)
    }
}

/// The profits of the first bets together.
pub open spec fn profit_sum<E: Number>(bets: Seq<PlacedBet<E>>) -> E
    decreases bets.len(),
{
    if bets.len() == 0 {
        number::small::<E>(0)
    } else {
        number::sum(profit_sum(bets.drop_last()), bets.last().actual_profit)
    }
}

/// The books after a round.
#[verifier::opaque]
pub open spec fn after_round<E: Number>(
    setup: ReplaySetup<E>,
    cards: Seq<Card>,
    plans: Seq<CombinedBetPlan<E>>,
    account: ReplayAccount<E>,
) -> ReplayAccount<E> {
    let n = plans.len() as int;
    let bets = all_made(setup, cards, plans, n);
    booked(
        setup,
        cards,
        plans,
        account.with_candidate(plans[0].decision),
        n,
    ).after_round(stake_sum(bets), profit_sum(bets))
}

/// The books after the first rounds, with the plans of each.
pub open spec fn account_after<E: Number>(
    setup: ReplaySetup<E>,
    course: Course,
    initial: E,
    run: Seq<Seq<CombinedBetPlan<E>>>,
    n: int,
) -> ReplayAccount<E>
    decreases n,
{
    if n <= 0 {
        ReplayAccount::start(initial)
    } else {
        after_round(
            setup,
            course.cards(n - 1),
            run[n - 1],
            account_after(setup, course, initial, run, n - 1),
        )
    }
}

/// Whether plans are the ones of a round, given its shoe and the bankroll before it.
#[verifier::opaque]
pub open spec fn planned<E: Number, F: Fn(E) -> E>(
    setup: ReplaySetup<E>,
    scale: Scale<E>,
    shoe: ShoeView,
    round_no: u32,
    bankroll: E,
    root: F,
    plans: Seq<CombinedBetPlan<E>>,
) -> bool {
    &&& plans.len() > 0
    &&& shoe.total() >= 6
    &&& exists|offer: RoundOffer<E>|
        {
            &&& #[trigger] setup.offers(shoe, offer)
            &&& round_plan_error(setup, scale, offer, setup.allowed(round_no), bankroll) is None
            &&& are_round_plans(
                setup,
                scale,
                offer,
                setup.allowed(round_no),
                bankroll,
                root,
                plans,
            )
        }
}

/// Whether the plans of a round can be made, given its shoe and the bankroll before it.
pub open spec fn can_be_planned<E: Number>(
    setup: ReplaySetup<E>,
    scale: Scale<E>,
    shoe: ShoeView,
    round_no: u32,
    bankroll: E,
) -> bool {
    &&& shoe.total() >= 6
    &&& exists|offer: RoundOffer<E>| #[trigger]
        setup.offers(shoe, offer) && round_plan_error(
            setup,
            scale,
            offer,
            setup.allowed(round_no),
            bankroll,
        ) is None
}

/// Whether a round of a run was planned by the shoe before it and the bankroll after the round
/// before it, and its cards were left in the shoe.
#[verifier::opaque]
pub open spec fn is_step<E: Number, F: Fn(E) -> E>(
    setup: ReplaySetup<E>,
    scale: Scale<E>,
    course: Course,
    initial: E,
    root: F,
    run: Seq<Seq<CombinedBetPlan<E>>>,
    k: int,
) -> bool {
    &&& course.shoe(k).holds(course.cards(k))
    &&& planned(
        setup,
        scale,
        course.shoe(k),
        course.row(k).round_no,
        account_after(setup, course, initial, run, k).bankroll.current,
        root,
        run[k],
    )
}

/// Whether the first rounds were played with these plans.
pub open spec fn is_run<E: Number, F: Fn(E) -> E>(
    setup: ReplaySetup<E>,
    scale: Scale<E>,
    course: Course,
    initial: E,
    root: F,
    run: Seq<Seq<CombinedBetPlan<E>>>,
) -> bool {
    &&& run.len() <= course.order.len()
    &&& forall|k: int|
        0 <= k < run.len() ==> #[trigger] is_step(setup, scale, course, initial, root, run, k)
}

/// A bet in a report: the round it was made in, how it ended, and the bankroll after the round.
pub struct BetRecord<E> {
    pub round: int,
    pub placed: PlacedBet<E>,
    pub bankroll_after: E,
}

/// The records of the first bets of a round.
pub open spec fn round_records<E: Number>(
    bets: Seq<PlacedBet<E>>,
    round: int,
    bankroll_after: E,
) -> Seq<BetRecord<E>> {
    bets.map_values(|placed: PlacedBet<E>| BetRecord { round, placed, bankroll_after })
}

/// The records of all bets of the first rounds.
pub open spec fn all_records<E: Number>(
    setup: ReplaySetup<E>,
    course: Course,
    initial: E,
    run: Seq<Seq<CombinedBetPlan<E>>>,
    n: int,
) -> Seq<BetRecord<E>>
    decreases n,
{
    if n <= 0 {
        Seq::empty()
    } else {
        all_records(setup, course, initial, run, n - 1) + round_records(
            all_made(setup, course.cards(n - 1), run[n - 1], run[n - 1].len() as int),
            n - 1,
            account_after(setup, course, initial, run, n).bankroll.current,
        )
    }
}

proof fn lemma_more_rounds_change_nothing<E: Number>(
    setup: ReplaySetup<E>,
    course: Course,
    initial: E,
    run: Seq<Seq<CombinedBetPlan<E>>>,
    plans: Seq<CombinedBetPlan<E>>,
    n: int,
)
    requires
        0 <= n <= run.len(),
    ensures
        account_after(setup, course, initial, run.push(plans), n) == account_after(
            setup,
            course,
            initial,
            run,
            n,
        ),
        all_records(setup, course, initial, run.push(plans), n) == all_records(
            setup,
            course,
            initial,
            run,
            n,
        ),
    decreases n,
{
    if n > 0 {
        lemma_more_rounds_change_nothing(setup, course, initial, run, plans, n - 1);
        assert(run.push(plans)[n - 1] == run[n - 1]);
    }
}

/// A bet that was made, as it is reported.
#[derive(Debug, Clone)]
pub struct CsvBetDetail<E> {
    pub started_at: String,
    pub table_id: u64,
    pub session_id: u64,
    pub round_no: u32,
    pub bet: &'static str,
    pub outcome: &'static str,
    pub player_cards: String,
    pub banker_cards: String,
    pub player_total: u8,
    pub banker_total: u8,
    /// How the bet ended, by its payout alone.
    pub result: &'static str,
    pub effective_ev: E,
    pub kelly_fraction: E,
    pub strategy_fraction: E,
    pub applied_fraction: E,
    pub amount: E,
    pub expected_profit: E,
    pub base_game_profit: E,
    pub rebate_income: E,
    pub actual_profit: E,
    /// The bankroll after all bets of the round.
    pub bankroll_after: E,
}

impl<E: Number> CsvBetDetail<E> {
    /// Whether the detail reports a bet on a round.
    pub open spec fn reports(
        self,
        row: LoadedRound,
        cards: Seq<Card>,
        placed: PlacedBet<E>,
        bankroll_after: E,
    ) -> bool {
        &&& self.started_at@ == row.started_at@
        &&& (self.table_id, self.session_id, self.round_no) == row.place()
        &&& self.bet@ == placed.bet.name()
        &&& self.outcome@ == replay::outcome_label(records::winner_of(cards))
        &&& self.player_cards@ == replay::hand_label(round::player_hand_of(cards))
        &&& self.banker_cards@ == replay::hand_label(round::banker_hand_of(cards))
        &&& self.player_total == round::player_hand_of(cards).points()
        &&& self.banker_total == round::banker_hand_of(cards).points()
        &&& self.result@ == placed.result.name()
        &&& self.effective_ev == placed.effective_ev
        &&& self.kelly_fraction == placed.quote.kelly_fraction
        &&& self.strategy_fraction == placed.quote.strategy_fraction
        &&& self.applied_fraction == placed.quote.applied_fraction
        &&& self.amount == placed.amount
        &&& self.expected_profit == placed.quote.expected_profit
        &&& self.base_game_profit == placed.base_game_profit
        &&& self.rebate_income == placed.rebate_income
        &&& self.actual_profit == placed.actual_profit
        &&& self.bankroll_after == bankroll_after
    }

    fn new(
        row: &LoadedRound,
        result: RoundResult,
        placed: PlacedBet<E>,
        bankroll_after: E,
        Ghost(cards): Ghost<Seq<Card>>,
    ) -> (detail: CsvBetDetail<E>)
        requires
            result.player() == round::player_hand_of(cards),
            result.banker() == round::banker_hand_of(cards),
        ensures
            detail.reports(*row, cards, placed, bankroll_after),
    {
        CsvBetDetail {
            started_at: row.started_at.clone(),
            table_id: row.table_id,
            session_id: row.session_id,
            round_no: row.round_no,
            bet: placed.bet.as_str(),
            outcome: outcome_name(result.outcome()),
            player_cards: format_hand_cards(result.player_hand()),
            banker_cards: format_hand_cards(result.banker_hand()),
            player_total: result.player_hand().total(),
            banker_total: result.banker_hand().total(),
            result: placed.result.as_str(),
            effective_ev: placed.effective_ev,
            kelly_fraction: placed.quote.kelly_fraction,
            strategy_fraction: placed.quote.strategy_fraction,
            applied_fraction: placed.quote.applied_fraction,
            amount: placed.amount,
            expected_profit: placed.quote.expected_profit,
            base_game_profit: placed.base_game_profit,
            rebate_income: placed.rebate_income,
            actual_profit: placed.actual_profit,
            bankroll_after,
        }
    }
}

/// What a replay comes to.
#[derive(Debug, Clone, Copy, PartialEq, Eq)]
pub struct CsvReplaySummary<E> {
    pub replayed_sessions: u64,
    pub replayed_rounds: u64,
    pub probability_cache_hits: u64,
    pub probability_cache_misses: u64,
    pub candidate_bets: CsvBetCounts,
    pub placed_bets: CsvBetCounts,
    pub bet_breakdown: CsvBetBreakdown<E>,
    pub placed_bet_count: u64,
    pub skipped_bets: u64,
    pub wins: u64,
    pub losses: u64,
    pub pushes: u64,
    /// The part of the bets that won; none where no bet was made.
    pub hit_rate: Option<E>,
    /// The mean effective value of the best bets; none where no round was played.
    pub average_candidate_effective_ev: Option<E>,
    pub minimum_candidate_effective_ev: Option<E>,
    pub maximum_candidate_effective_ev: Option<E>,
    pub total_stake: E,
    pub total_expected_profit: E,
    pub base_game_profit: E,
    pub rebate_income: E,
    pub total_profit: E,
    pub initial_bankroll: E,
    pub final_bankroll: E,
    pub maximum_bankroll: E,
    /// The highest bankroll less the first one.
    pub maximum_profit: E,
    pub minimum_bankroll: E,
    pub return_on_initial: E,
    pub maximum_drawdown: E,
    pub maximum_drawdown_rate: E,
    pub maximum_single_stake: E,
    pub maximum_round_stake: E,
}

impl<E: Number> CsvReplaySummary<E> {
    /// The summary of the books after a number of rounds.
    pub open spec fn of(
        account: ReplayAccount<E>,
        sessions: nat,
        rounds: nat,
        lookups: (nat, nat),
    ) -> CsvReplaySummary<E> {
        let bankroll = account.bankroll;
        let profit = number::difference(bankroll.current, bankroll.initial);
        CsvReplaySummary {
            replayed_sessions: sessions as u64,
            replayed_rounds: rounds as u64,
            probability_cache_hits: lookups.0 as u64,
            probability_cache_misses: lookups.1 as u64,
            candidate_bets: account.tally.candidate_bets,
            placed_bets: account.tally.placed_bets,
            bet_breakdown: account.breakdown,
            placed_bet_count: account.tally.placed_bet_count,
            skipped_bets: account.tally.skipped_bets,
            wins: account.tally.wins,
            losses: account.tally.losses,
            pushes: account.tally.pushes,
            hit_rate: if account.tally.placed_bet_count > 0 {
                Some(
                    number::share(
                        account.tally.wins as int,
                        account.tally.placed_bet_count as int,
                    ),
                )
            } else {
                None
            },
            average_candidate_effective_ev: if rounds > 0 {
                Some(number::quotient(account.effective_ev_sum, number::whole(rounds as int)))
            } else {
                None
            },
            minimum_candidate_effective_ev: account.minimum_candidate_effective_ev,
            maximum_candidate_effective_ev: account.maximum_candidate_effective_ev,
            total_stake: account.total_stake,
            total_expected_profit: account.total_expected_profit,
            base_game_profit: account.base_game_profit,
            rebate_income: account.rebate_income,
            total_profit: profit,
            initial_bankroll: bankroll.initial,
            final_bankroll: bankroll.current,
            maximum_bankroll: bankroll.maximum,
            maximum_profit: number::difference(bankroll.maximum, bankroll.initial),
            minimum_bankroll: bankroll.minimum,
            return_on_initial: number::quotient(profit, bankroll.initial),
            maximum_drawdown: bankroll.maximum_drawdown,
            maximum_drawdown_rate: bankroll.maximum_drawdown_rate,
            maximum_single_stake: bankroll.maximum_single_stake,
            maximum_round_stake: bankroll.maximum_round_stake,
        }
    }

    /// Sums up the books after a number of rounds.
    pub fn new(account: ReplayAccount<E>, sessions: u64, rounds: u64, hits: u64, misses: u64) -> (
    summary: CsvReplaySummary<E>)
        requires
            number::arithmetic::<E>(),
        ensures
            summary == Self::of(account, sessions as nat, rounds as nat, (hits as nat, misses as nat)),
    {
        let profit: E = account.bankroll.current - account.bankroll.initial;
        CsvReplaySummary {
            replayed_sessions: sessions,
            replayed_rounds: rounds,
            probability_cache_hits: hits,
            probability_cache_misses: misses,
            candidate_bets: account.tally.candidate_bets,
            placed_bets: account.tally.placed_bets,
            bet_breakdown: account.breakdown,
            placed_bet_count: account.tally.placed_bet_count,
            skipped_bets: account.tally.skipped_bets,
            wins: account.tally.wins,
            losses: account.tally.losses,
            pushes: account.tally.pushes,
            hit_rate: if account.tally.placed_bet_count > 0 {
                Some(number::share_of(account.tally.wins, account.tally.placed_bet_count))
            } else {
                None
            },
            average_candidate_effective_ev: if rounds > 0 {
                Some(account.effective_ev_sum / number::number_of::<E>(rounds))
            } else {
                None
            },
            minimum_candidate_effective_ev: account.minimum_candidate_effective_ev,
            maximum_candidate_effective_ev: account.maximum_candidate_effective_ev,
            total_stake: account.total_stake,
            total_expected_profit: account.total_expected_profit,
            base_game_profit: account.base_game_profit,
            rebate_income: account.rebate_income,
            total_profit: profit,
            initial_bankroll: account.bankroll.initial,
            final_bankroll: account.bankroll.current,
            maximum_bankroll: account.bankroll.maximum,
            maximum_profit: account.bankroll.maximum - account.bankroll.initial,
            minimum_bankroll: account.bankroll.minimum,
            return_on_initial: profit / account.bankroll.initial,
            maximum_drawdown: account.bankroll.maximum_drawdown,
            maximum_drawdown_rate: account.bankroll.maximum_drawdown_rate,
            maximum_single_stake: account.bankroll.maximum_single_stake,
            maximum_round_stake: account.bankroll.maximum_round_stake,
        }
    }
}

/// What came of a replay.
#[derive(Debug)]
pub struct ReplayOutcome<E> {
    pub quality: CsvQualityReport,
    pub summary: CsvReplaySummary<E>,
    /// Every bet that was made.
    pub bets: Vec<CsvBetDetail<E>>,
}

/// Why a replay stops.
#[derive(Debug)]
pub enum ReplayStop<E> {
    /// The settings or the rows do not allow it.
    Replay(CsvReplayError),
    /// A stake cannot be computed.
    Stakes(KellyError<E>),
}

/// Whether a report is that of a whole replay.
pub open spec fn is_report<E: Number>(
    report: ReplayOutcome<E>,
    setup: ReplaySetup<E>,
    course: Course,
    initial: E,
    run: Seq<Seq<CombinedBetPlan<E>>>,
) -> bool {
    let n = course.order.len() as int;
    let records = all_records(setup, course, initial, run, n);
    &&& run.len() == n
    &&& report.summary == CsvReplaySummary::of(
        account_after(setup, course, initial, run, n),
        schedule::sessions(course.rounds).filter(
            |s: (u64, u64)| schedule::observable(course.rounds, s),
        ).len(),
        n as nat,
        course.lookups(n),
    )
    &&& lists(report.bets@, course, records)
    &&& schedule::counts_sessions(report.quality, course.rounds)
}

/// Whether a replay has to stop at the round after a run.
pub open spec fn stops_at<E: Number>(
    stop: ReplayStop<E>,
    setup: ReplaySetup<E>,
    scale: Scale<E>,
    course: Course,
    initial: E,
    run: Seq<Seq<CombinedBetPlan<E>>>,
) -> bool {
    let n = run.len() as int;
    &&& n < course.order.len()
    &&& match stop {
        ReplayStop::Stakes(error) => {
            &&& course.shoe(n).total() >= 6
            &&& exists|offer: RoundOffer<E>| #[trigger]
                setup.offers(course.shoe(n), offer) && round_plan_error(
                    setup,
                    scale,
                    offer,
                    setup.allowed(course.row(n).round_no),
                    account_after(setup, course, initial, run, n).bankroll.current,
                ) == Some(error)
        },
        ReplayStop::Replay(
            CsvReplayError::Probability { table_id, session_id, round_no, message },
        ) => {
            &&& course.shoe(n).total() < 6
            &&& (table_id, session_id, round_no) == course.row(n).place()
            &&& message@ == (ProbabilityError::NotEnoughCards {
                remaining: course.shoe(n).total() as u16,
            }).message()
        },
        ReplayStop::Replay(
            CsvReplayError::ShoeState { table_id, session_id, round_no, message },
        ) => {
            &&& can_be_planned(
                setup,
                scale,
                course.shoe(n),
                course.row(n).round_no,
                account_after(setup, course, initial, run, n).bankroll.current,
            )
            &&& !course.shoe(n).holds(course.cards(n))
            &&& (table_id, session_id, round_no) == course.row(n).place()
            &&& exists|error: ShoeError| #[trigger]
                course.shoe(n).refuses_removal(course.cards(n), error) && message@
                    == error.message()
        },
        ReplayStop::Replay(_) => false,
    }
}

/// Whether a result is that of replaying judged rows: all rounds are played and reported, or the
/// replay stops at the first round that cannot be played.
pub open spec fn is_outcome<E: Number, F: Fn(E) -> E>(
    result: Result<ReplayOutcome<E>, ReplayStop<E>>,
    rounds: Seq<LoadedRound>,
    judgement: CsvQualityReport,
    config: CsvReplayConfig<E>,
    scale: Scale<E>,
    root: F,
) -> bool {
    let setup = ReplaySetup::of(config);
    let initial = config.initial_bankroll;
    match result {
        Ok(report) => {
            &&& MIN_DECKS <= config.decks <= MAX_DECKS
            &&& exists|course: Course, run: Seq<Seq<CombinedBetPlan<E>>>|
                {
                    &&& course.replays(rounds, config.decks as nat)
                    &&& #[trigger] is_run(setup, scale, course, initial, root, run)
                    &&& is_report(report, setup, course, initial, run)
                }
            &&& report.quality.valid_card_rows == judgement.valid_card_rows
            &&& report.quality.empty_card_rows == judgement.empty_card_rows
            &&& report.quality.invalid_card_rows == judgement.invalid_card_rows
            &&& report.quality.outcome_mismatch_rows == judgement.outcome_mismatch_rows
        },
        Err(ReplayStop::Replay(CsvReplayError::Configuration(text))) => {
            &&& !(MIN_DECKS <= config.decks <= MAX_DECKS)
            &&& text@ == (ShoeError::InvalidDeckCount { decks: config.decks }).message()
        },
        Err(stop) => {
            &&& MIN_DECKS <= config.decks <= MAX_DECKS
            &&& exists|course: Course, run: Seq<Seq<CombinedBetPlan<E>>>|
                {
                    &&& course.replays(rounds, config.decks as nat)
                    &&& #[trigger] is_run(setup, scale, course, initial, root, run)
                    &&& stops_at(stop, setup, scale, course, initial, run)
                }
        },
    }
}

impl<E: Number> ReplaySetup<E> {
    /// Settles the plans of the round that has been begun and puts them in the books.
    fn settle_round(
        &self,
        machine: &ReplayMachine,
        plans: &Vec<CombinedBetPlan<E>>,
        account: &mut ReplayAccount<E>,
        Ghost(limit): Ghost<int>,
    ) -> (bets: Vec<PlacedBet<E>>)
        requires
            number::arithmetic::<E>(),
            machine.wf(),
            machine.in_round(),
            0 < plans.len() <= 14,
            old(account).within(limit),
            limit + 15 < u64::MAX,
        ensures
            ({
                let cards = machine::cards_of(machine.next_row());
                &&& *final(account) == after_round(*self, cards, plans@, *old(account))
                &&& bets@ == all_made(*self, cards, plans@, plans@.len() as int)
            }),
            final(account).within(limit + 15),
    {
        let ghost cards = machine::cards_of(machine.next_row());
        let ghost opened = account.with_candidate(plans@[0].decision);
        proof {
            account::lemma_candidate_stays_within(*account, plans@[0].decision, limit);
        }
        account.note_candidate(plans[0].decision);
        let mut bets: Vec<PlacedBet<E>> = Vec::new();
        let mut stake: E = E::from(0u32);
        let mut profit: E = E::from(0u32);
        let mut i: usize = 0;
        while i < plans.len()
            invariant
                number::arithmetic::<E>(),
                machine.wf(),
                machine.in_round(),
                0 < plans.len() <= 14,
                i <= plans.len(),
                limit + 15 < u64::MAX,
                cards == machine::cards_of(machine.next_row()),
                account.within(limit + 1 + i),
                *account == booked(*self, cards, plans@, opened, i as int),
                bets@ == all_made(*self, cards, plans@, i as int),
                stake == stake_sum(bets@),
                profit == profit_sum(bets@),
            decreases plans.len() - i,
        {
            let plan: CombinedBetPlan<E> = plans[i];
            let placed: Option<PlacedBet<E>> = match plan.action {
                CombinedBetPlanAction::Place { bet, amount: _ } => {
                    let (settlement, rate): (Settlement<E>, Option<E>) = machine.settle(
                        bet,
                        self.rules,
                        self.side_rules,
                        self.betting.rebate,
                    );
                    settle_plan(plan, settlement, rate)
                },
                CombinedBetPlanAction::Skip { reason: _ } => None,
            };
            proof {
                account::lemma_plan_stays_within(*account, placed, limit + 1 + i);
            }
            account.note_plan(placed);
            if let Some(bet) = placed {
                let ghost before = bets@;
                bets.push(bet);
                stake = stake + bet.amount;
                profit = profit + bet.actual_profit;
                proof {
                    assert(bets@.drop_last() =~= before);
                }
            }
            i = i + 1;
        }
        account.close_round(stake, profit);
        proof {
            reveal(after_round);
        }
        bets
    }
}

proof fn lemma_no_more_rounds_than_rows(order: Schedule, rounds: Seq<LoadedRound>)
    requires
        order.fits(rounds),
    ensures
        order.order.len() <= rounds.len(),
{
    let list = order.order@;
    let positions = list.map_values(|i: usize| i as int);
    assert(positions.no_duplicates()) by {
        assert forall|a: int, b: int|
            0 <= a < positions.len() && 0 <= b < positions.len() && a != b implies positions[a]
            != positions[b] by {
            assert(list[a] != list[b]);
        }
    }
    positions.unique_seq_to_set();
    let all = vstd::set_lib::set_int_range(0, rounds.len() as int);
    vstd::set_lib::lemma_int_range(0, rounds.len() as int);
    assert forall|x: int| positions.to_set().contains(x) implies all.contains(x) by {
        let k = choose|k: int| 0 <= k < positions.len() && positions[k] == x;
        assert(list[k] < rounds.len());
    }
    vstd::set_lib::lemma_len_subset(positions.to_set(), all);
}

/// A replay plays no more rounds than there are rows.
pub proof fn lemma_course_is_short(course: Course, rounds: Seq<LoadedRound>, decks: nat)
    requires
        course.replays(rounds, decks),
    ensures
        course.order.len() <= rounds.len(),
{
    let order = choose|order: Schedule| #[trigger]
        order.fits(rounds) && course.order == order.order@ && course.slots == order.slots@;
    lemma_no_more_rounds_than_rows(order, rounds);
}

/// Whether details report recorded bets, one for one.
pub open spec fn lists<E: Number>(
    bets: Seq<CsvBetDetail<E>>,
    course: Course,
    records: Seq<BetRecord<E>>,
) -> bool {
    &&& bets.len() == records.len()
    &&& forall|j: int|
        #![trigger bets[j]]
        0 <= j < records.len() ==> bets[j].reports(
            course.row(records[j].round),
            course.cards(records[j].round),
            records[j].placed,
            records[j].bankroll_after,
        )
}

/// Whether a replay knows the weights of the shoes of the first rounds, and no others.
spec fn remembers(machine: ReplayMachine, course: Course, n: int) -> bool {
    &&& machine.lookups() == course.lookups(n)
    &&& forall|counts: Seq<nat>| #[trigger] machine.knows(counts) <==> course.met(counts, n)
}

/// Whether a replay stands between two rounds of a course.
spec fn stands_at(machine: ReplayMachine, course: Course, n: int) -> bool {
    &&& machine.wf()
    &&& !machine.in_round()
    &&& machine.rounds() == course.rounds
    &&& machine.order() == course.order
    &&& machine.slots() == course.slots
    &&& machine.deck_count() == course.decks
    &&& machine.played() == n
    &&& remembers(machine, course, n)
}

proof fn lemma_remembers_one_more(
    before: ReplayMachine,
    after: ReplayMachine,
    course: Course,
    n: int,
)
    requires
        0 <= n,
        remembers(before, course, n),
        after.lookups() == if before.knows(course.shoe(n).counts) {
            (before.lookups().0 + 1, before.lookups().1)
        } else {
            (before.lookups().0, before.lookups().1 + 1)
        },
        forall|counts: Seq<nat>| #[trigger]
            after.knows(counts) <==> before.knows(counts) || counts == course.shoe(n).counts,
    ensures
        remembers(after, course, n + 1),
{
    assert(before.knows(course.shoe(n).counts) <==> course.met(course.shoe(n).counts, n));
    assert forall|counts: Seq<nat>| #[trigger]
        after.knows(counts) <==> course.met(counts, n + 1) by {
        assert(before.knows(counts) <==> course.met(counts, n));
        if course.met(counts, n) {
            let k = choose|k: int| 0 <= k < n && #[trigger] course.shoe(k).counts == counts;
            assert(0 <= k < n + 1 && course.shoe(k).counts == counts);
        }
        if course.met(counts, n + 1) {
            let k = choose|k: int| 0 <= k < n + 1 && #[trigger] course.shoe(k).counts == counts;
            if k < n {
                assert(course.met(counts, n));
            }
        }
    }
}

proof fn lemma_planned<E: Number, F: Fn(E) -> E>(
    setup: ReplaySetup<E>,
    scale: Scale<E>,
    shoe: ShoeView,
    round_no: u32,
    bankroll: E,
    root: F,
    plans: Seq<CombinedBetPlan<E>>,
    offer: RoundOffer<E>,
)
    requires
        plans.len() > 0,
        shoe.total() >= 6,
        setup.offers(shoe, offer),
        round_plan_error(setup, scale, offer, setup.allowed(round_no), bankroll) is None,
        are_round_plans(setup, scale, offer, setup.allowed(round_no), bankroll, root, plans),
    ensures
        planned(setup, scale, shoe, round_no, bankroll, root, plans),
{
    reveal(planned);
}

proof fn lemma_step_stays<E: Number, F: Fn(E) -> E>(
    setup: ReplaySetup<E>,
    scale: Scale<E>,
    course: Course,
    initial: E,
    root: F,
    run: Seq<Seq<CombinedBetPlan<E>>>,
    plans: Seq<CombinedBetPlan<E>>,
    k: int,
)
    requires
        0 <= k < run.len(),
        is_step(setup, scale, course, initial, root, run, k),
    ensures
        is_step(setup, scale, course, initial, root, run.push(plans), k),
{
    reveal(is_step);
    lemma_more_rounds_change_nothing(setup, course, initial, run, plans, k);
    assert(run.push(plans)[k] == run[k]);
}

proof fn lemma_step_comes<E: Number, F: Fn(E) -> E>(
    setup: ReplaySetup<E>,
    scale: Scale<E>,
    course: Course,
    initial: E,
    root: F,
    run: Seq<Seq<CombinedBetPlan<E>>>,
    plans: Seq<CombinedBetPlan<E>>,
    n: int,
)
    requires
        n == run.len(),
        course.shoe(n).holds(course.cards(n)),
        planned(
            setup,
            scale,
            course.shoe(n),
            course.row(n).round_no,
            account_after(setup, course, initial, run, n).bankroll.current,
            root,
            plans,
        ),
    ensures
        is_step(setup, scale, course, initial, root, run.push(plans), n),
{
    reveal(is_step);
    lemma_more_rounds_change_nothing(setup, course, initial, run, plans, n);
    assert(run.push(plans)[n] == plans);
}

proof fn lemma_run_grows<E: Number, F: Fn(E) -> E>(
    setup: ReplaySetup<E>,
    scale: Scale<E>,
    course: Course,
    initial: E,
    root: F,
    run: Seq<Seq<CombinedBetPlan<E>>>,
    plans: Seq<CombinedBetPlan<E>>,
)
    requires
        is_run(setup, scale, course, initial, root, run),
        run.len() < course.order.len(),
        is_step(setup, scale, course, initial, root, run.push(plans), run.len() as int),
    ensures
        is_run(setup, scale, course, initial, root, run.push(plans)),
{
    let longer = run.push(plans);
    assert forall|k: int| 0 <= k < longer.len() implies #[trigger] is_step(
        setup,
        scale,
        course,
        initial,
        root,
        longer,
        k,
    ) by {
        if k < run.len() {
            lemma_step_stays(setup, scale, course, initial, root, run, plans, k);
        }
    }
}

proof fn lemma_books_grow<E: Number>(
    setup: ReplaySetup<E>,
    course: Course,
    initial: E,
    run: Seq<Seq<CombinedBetPlan<E>>>,
    plans: Seq<CombinedBetPlan<E>>,
    n: int,
)
    requires
        n == run.len(),
    ensures
        ({
            let longer = run.push(plans);
            let account = after_round(
                setup,
                course.cards(n),
                plans,
                account_after(setup, course, initial, run, n),
            );
            &&& account_after(setup, course, initial, longer, n + 1) == account
            &&& all_records(setup, course, initial, longer, n + 1) == all_records(
                setup,
                course,
                initial,
                run,
                n,
            ) + round_records(
                all_made(setup, course.cards(n), plans, plans.len() as int),
                n,
                account.bankroll.current,
            )
        }),
{
    let longer = run.push(plans);
    lemma_more_rounds_change_nothing(setup, course, initial, run, plans, n);
    assert(longer[n] == plans);
}

fn report_bets<E: Number>(
    row: &LoadedRound,
    result: RoundResult,
    placed: &Vec<PlacedBet<E>>,
    bankroll_after: E,
    bets: &mut Vec<CsvBetDetail<E>>,
    Ghost(course): Ghost<Course>,
    Ghost(n): Ghost<int>,
    Ghost(known): Ghost<Seq<BetRecord<E>>>,
)
    requires
        *row == course.row(n),
        result.player() == round::player_hand_of(course.cards(n)),
        result.banker() == round::banker_hand_of(course.cards(n)),
        lists(old(bets)@, course, known),
    ensures
        lists(final(bets)@, course, known + round_records(placed@, n, bankroll_after)),
{
    let ghost all = known + round_records(placed@, n, bankroll_after);
    let mut i: usize = 0;
    while i < placed.len()
        invariant
            i <= placed.len(),
            all == known + round_records(placed@, n, bankroll_after),
            *row == course.row(n),
            result.player() == round::player_hand_of(course.cards(n)),
            result.banker() == round::banker_hand_of(course.cards(n)),
            bets.len() == known.len() + i,
            forall|j: int|
                #![trigger bets@[j]]
                0 <= j < bets.len() ==> bets@[j].reports(
                    course.row(all[j].round),
                    course.cards(all[j].round),
                    all[j].placed,
                    all[j].bankroll_after,
                ),
        decreases placed.len() - i,
    {
        let detail: CsvBetDetail<E> = CsvBetDetail::new(
            row,
            result,
            placed[i],
            bankroll_after,
            Ghost(course.cards(n)),
        );
        proof {
            assert(all[bets@.len() as int] == round_records(placed@, n, bankroll_after)[i as int]);
        }
        bets.push(detail);
        i = i + 1;
    }
}

/// Replays judged rows with a running bankroll: each round is planned by the weights of its shoe
/// before it and the bankroll after the round before it, settled by its cards, and only then are
/// its cards taken out of the shoe. `root` is the square root, which only a volatility target
/// needs.
#[verifier::rlimit(60)]
pub fn replay_rounds<E: Number, F: Fn(E) -> E>(
    loaded: LoadedRounds,
    config: CsvReplayConfig<E>,
    scale: Scale<E>,
    root: &F,
) -> (result: Result<ReplayOutcome<E>, ReplayStop<E>>)
    requires
        number::arithmetic::<E>(),
        loaded.list().len() * 15 + 15 < u64::MAX,
        forall|x: E| #[trigger] call_requires(*root, (x,)),
    ensures
        is_outcome(result, loaded.list(), loaded.judgement(), config, scale, *root),
{
    let ghost list = loaded.list();
    let ghost judged = loaded.judgement();
    let setup: ReplaySetup<E> = ReplaySetup::new(config);
    let initial: E = config.initial_bankroll;
    let mut machine: ReplayMachine = match ReplayMachine::new(loaded, config.decks) {
        Ok(machine) => machine,
        Err(error) => {
            return Err(ReplayStop::Replay(CsvReplayError::Configuration(error.to_string())));
        },
    };
    let ghost first = machine;
    let ghost course = Course {
        rounds: list,
        order: machine.order(),
        slots: machine.slots(),
        decks: config.decks as nat,
    };
    let ghost mut run: Seq<Seq<CombinedBetPlan<E>>> = Seq::empty();
    proof {
        let order = choose|order: Schedule|
            {
                &&& #[trigger] order.fits(list)
                &&& machine.order() == order.order@
                &&& machine.slots() == order.slots@
                &&& machine.shoe_count() == order.session_count
            };
        lemma_no_more_rounds_than_rows(order, list);
        assert(course.replays(list, config.decks as nat));
    }
    let mut account: ReplayAccount<E> = ReplayAccount::new(initial);
    let mut bets: Vec<CsvBetDetail<E>> = Vec::new();
    loop
        invariant
            number::arithmetic::<E>(),
            forall|x: E| #[trigger] call_requires(*root, (x,)),
            MIN_DECKS <= config.decks <= MAX_DECKS,
            setup == ReplaySetup::of(config),
            initial == config.initial_bankroll,
            course.replays(list, config.decks as nat),
            course.order.len() <= list.len(),
            list.len() * 15 + 15 < u64::MAX,
            course.rounds == list,
            list == loaded.list(),
            stands_at(machine, course, run.len() as int),
            machine.same_replay(first),
            is_run(setup, scale, course, initial, *root, run),
            account == account_after(setup, course, initial, run, run.len() as int),
            account.within(15 * (run.len() as int)),
            lists(bets@, course, all_records(setup, course, initial, run, run.len() as int)),
        ensures
            run.len() == course.order.len(),
        decreases course.order.len() - run.len(),
    {
        let ghost n = run.len() as int;
        let ghost before = machine;
        let prepared: PreparedRound = match machine.begin_round() {
            Ok(Some(prepared)) => prepared,
            Ok(None) => {
                break;
            },
            Err(error) => {
                let stop: ReplayStop<E> = ReplayStop::Replay(error);
                proof {
                    assert(before.next_shoe() == course.shoe(n));
                    assert(stops_at(stop, setup, scale, course, initial, run));
                }
                return Err(stop);
            },
        };
        let round_no: u32 = machine.round(prepared.row).round_no;
        proof {
            assert(before.next_shoe() == course.shoe(n));
            assert(before.next_row() == course.row(n));
            assert forall|bet: SideBet| #[trigger]
                prepared.side_weights.wins(bet) + prepared.side_weights.push(bet)
                <= prepared.side_weights.denominator() by {
                laws::lemma_wins_and_pushes_within_all(
                    course.shoe(n),
                    prepared.side_weights,
                    bet,
                );
            }
        }
        let ghost offer = RoundOffer {
            main_weights: prepared.weights,
            main_rules: setup.rules,
            side_weights: prepared.side_weights,
            side_rules: setup.side_rules,
        };
        let bankroll: E = account.bankroll.current;
        proof {
            assert(setup.offers(course.shoe(n), offer));
        }
        let plans: Vec<CombinedBetPlan<E>> = match setup.plan_round(
            scale,
            prepared.weights,
            prepared.side_weights,
            round_no,
            bankroll,
            root,
        ) {
            Ok(plans) => plans,
            Err(error) => {
                let stop: ReplayStop<E> = ReplayStop::Stakes(error);
                proof {
                    assert(stops_at(stop, setup, scale, course, initial, run));
                }
                return Err(stop);
            },
        };
        let placed: Vec<PlacedBet<E>> = setup.settle_round(
            &machine,
            &plans,
            &mut account,
            Ghost(15 * n),
        );
        let result: RoundResult = machine.result();
        match machine.finish_round() {
            Ok(_) => {},
            Err(error) => {
                let stop: ReplayStop<E> = ReplayStop::Replay(error);
                proof {
                    assert(can_be_planned(setup, scale, course.shoe(n), round_no, bankroll));
                    assert(stops_at(stop, setup, scale, course, initial, run));
                }
                return Err(stop);
            },
        }
        proof {
            lemma_planned(
                setup,
                scale,
                course.shoe(n),
                round_no,
                bankroll,
                *root,
                plans@,
                offer,
            );
            lemma_step_comes(setup, scale, course, initial, *root, run, plans@, n);
            lemma_run_grows(setup, scale, course, initial, *root, run, plans@);
            lemma_books_grow(setup, course, initial, run, plans@, n);
            lemma_remembers_one_more(before, machine, course, n);
        }
        report_bets(
            machine.round(prepared.row),
            result,
            &placed,
            account.bankroll.current,
            &mut bets,
            Ghost(course),
            Ghost(n),
            Ghost(all_records(setup, course, initial, run, n)),
        );
        proof {
            run = run.push(plans@);
        }
    }
    let summary: CsvReplaySummary<E> = CsvReplaySummary::new(
        account,
        machine.replayed_sessions() as u64,
        machine.replayed_rounds() as u64,
        machine.probability_cache_hits(),
        machine.probability_cache_misses(),
    );
    let report: ReplayOutcome<E> = ReplayOutcome { quality: machine.quality(), summary, bets };
    proof {
        assert(is_report(report, setup, course, initial, run));
        assert(is_run(setup, scale, course, initial, *root, run));
    }
    Ok(report)
}

proof fn lemma_planned_is_short<E: Number, F: Fn(E) -> E>(
    setup: ReplaySetup<E>,
    scale: Scale<E>,
    shoe: ShoeView,
    round_no: u32,
    bankroll: E,
    root: F,
    plans: Seq<CombinedBetPlan<E>>,
)
    requires
        planned(setup, scale, shoe, round_no, bankroll, root, plans),
    ensures
        0 < plans.len() <= 14,
{
    reveal(planned);
    let offer = choose|offer: RoundOffer<E>| #[trigger]
        setup.offers(shoe, offer) && are_round_plans(
            setup,
            scale,
            offer,
            setup.allowed(round_no),
            bankroll,
            root,
            plans,
        );
    lemma_few_candidates(setup.betting, offer, setup.allowed(round_no));
}

/// A round of a run has at least one plan and no more than there are bets.
pub proof fn lemma_rounds_have_few_plans<E: Number, F: Fn(E) -> E>(
    setup: ReplaySetup<E>,
    scale: Scale<E>,
    course: Course,
    initial: E,
    root: F,
    run: Seq<Seq<CombinedBetPlan<E>>>,
    k: int,
)
    requires
        is_run(setup, scale, course, initial, root, run),
        0 <= k < run.len(),
    ensures
        0 < run[k].len() <= 14,
{
    assert(is_step(setup, scale, course, initial, root, run, k));
    reveal(is_step);
    lemma_planned_is_short(
        setup,
        scale,
        course.shoe(k),
        course.row(k).round_no,
        account_after(setup, course, initial, run, k).bankroll.current,
        root,
        run[k],
    );
}

proof fn lemma_books_count_the_bets<E: Number>(
    setup: ReplaySetup<E>,
    cards: Seq<Card>,
    plans: Seq<CombinedBetPlan<E>>,
    account: ReplayAccount<E>,
    limit: int,
    n: int,
)
    requires
        0 <= n,
        0 <= limit,
        account.within(limit),
        limit + n < u64::MAX,
        account::count_sum(account.breakdown.items(), 14) == account.tally.placed_bet_count,
    ensures
        booked(setup, cards, plans, account, n).within(limit + n),
        account::count_sum(booked(setup, cards, plans, account, n).breakdown.items(), 14)
            == booked(setup, cards, plans, account, n).tally.placed_bet_count,
        booked(setup, cards, plans, account, n).tally.placed_bet_count
            == account.tally.placed_bet_count + all_made(setup, cards, plans, n).len(),
    decreases n,
{
    if n > 0 {
        lemma_books_count_the_bets(setup, cards, plans, account, limit, n - 1);
        account::lemma_plan_stays_within(
            booked(setup, cards, plans, account, n - 1),
            made(setup, cards, plans[n - 1]),
            limit + n - 1,
        );
        account::lemma_breakdown_counts_every_bet(
            booked(setup, cards, plans, account, n - 1),
            made(setup, cards, plans[n - 1]),
            limit + n - 1,
        );
    }
}

/// After any number of rounds the books are consistent, by bet and by result, the kinds of bets
/// together count every bet, and every bet that they count is reported.
pub proof fn lemma_every_bet_is_reported<E: Number, F: Fn(E) -> E>(
    setup: ReplaySetup<E>,
    scale: Scale<E>,
    course: Course,
    initial: E,
    root: F,
    run: Seq<Seq<CombinedBetPlan<E>>>,
    n: int,
)
    requires
        is_run(setup, scale, course, initial, root, run),
        0 <= n <= run.len(),
        15 * n + 15 < u64::MAX,
    ensures
        account_after(setup, course, initial, run, n).tally.placed_bet_count == all_records(
            setup,
            course,
            initial,
            run,
            n,
        ).len(),
        account_after(setup, course, initial, run, n).tally.reconciles(),
        account::count_sum(account_after(setup, course, initial, run, n).breakdown.items(), 14)
            == account_after(setup, course, initial, run, n).tally.placed_bet_count,
        account_after(setup, course, initial, run, n).within(15 * n),
    decreases n,
{
    if n > 0 {
        lemma_every_bet_is_reported(setup, scale, course, initial, root, run, n - 1);
        let before = account_after(setup, course, initial, run, n - 1);
        let plans = run[n - 1];
        lemma_rounds_have_few_plans(setup, scale, course, initial, root, run, n - 1);
        account::lemma_candidate_stays_within(before, plans[0].decision, 15 * (n - 1));
        lemma_books_count_the_bets(
            setup,
            course.cards(n - 1),
            plans,
            before.with_candidate(plans[0].decision),
            15 * (n - 1) + 1,
            plans.len() as int,
        );
        reveal(after_round);
    } else {
        let zero = number::small::<E>(0);
        assert forall|bet: BetTarget| #[trigger]
            ReplayAccount::start(initial).breakdown.of(bet).count <= 0 by {
            assert(CsvBetBreakdown::nothing(zero).of(bet).count == 0);
        }
        reveal_with_fuel(account::count_sum, 15);
    }
}

} // verus!
