//! The replay of one day: every round is planned with the same bankroll, for the main bets alone.

use vstd::prelude::*;

use crate::baccarat::bet;
use crate::baccarat::bet::{MainBet, MainBetRules};
use crate::baccarat::deals;
use crate::baccarat::distribution;
use crate::baccarat::ev;
use crate::baccarat::kelly;
use crate::baccarat::kelly::KellyOutcome;
use crate::baccarat::load;
use crate::baccarat::load::LoadedRounds;
use crate::baccarat::machine;
use crate::baccarat::plan;
use crate::baccarat::point_cache;
use crate::baccarat::point_cache::PointCache;
use crate::baccarat::probability::{OutcomeWeights, ProbabilityError};
use crate::baccarat::rebate::RebateRule;
use crate::baccarat::records;
use crate::baccarat::records::{CsvQualityReport, CsvReplayError, LoadedRound};
use crate::baccarat::risk;
use crate::baccarat::risk::{BetPlan, BetPlanAction, KellyError, KellyPolicy, StakeSizingStrategy};
use crate::baccarat::round::RoundOutcome;
use crate::baccarat::schedule;
use crate::baccarat::schedule::Schedule;
use crate::baccarat::side_bet::Settlement;
use crate::baccarat::strategy::{BetDecision, BettingPolicy};
use crate::card::Card;
use crate::number;
use crate::number::Number;
use crate::order;
use crate::scale::Scale;
use crate::shoe;
use crate::shoe::{Shoe, ShoeError, ShoeView};
use crate::sorting;
use crate::sorting::Sortable;

verus! {

/// The settings of the replay of a day.
#[derive(Debug, Clone, Copy, PartialEq, Eq)]
pub struct DayConfig<E> {
    pub rebate_rate: E,
    pub minimum_ev: E,
    pub bankroll: E,
    pub max_fraction: E,
    pub max_round_stake: E,
    pub table_limit: E,
}

impl<E: Number> DayConfig<E> {
    /// The payouts: those with commission.
    pub open spec fn payouts(self) -> MainBetRules<E> {
        bet::standard_table().in_units::<E>()
    }

    /// The rebate: none at a rate of zero.
    pub open spec fn rebate_rule(self) -> RebateRule<E> {
        if order::above(self.rebate_rate, number::small::<E>(0)) {
            RebateRule::AllExceptMainBetTie { rate: self.rebate_rate }
        } else {
            RebateRule::NoRebate
        }
    }

    /// How the bets are chosen.
    pub open spec fn betting(self) -> BettingPolicy<E> {
        BettingPolicy {
            rebate: self.rebate_rule(),
            minimum_effective_ev: self.minimum_ev,
            minimum_side_bet_ev: self.minimum_ev,
        }
    }

    /// How stakes are chosen and limited: full Kelly stakes.
    pub open spec fn stakes(self) -> KellyPolicy<E> {
        KellyPolicy {
            strategy: StakeSizingStrategy::FullKelly,
            max_fraction: self.max_fraction,
            max_round_stake: self.max_round_stake,
            table_limit: self.table_limit,
            side_bet_limit: self.max_round_stake,
        }
    }

    /// What is wrong with the limits on stakes, if anything is.
    pub open spec fn refused(self, scale: Scale<E>) -> Option<KellyError<E>> {
        risk::policy_error(
            scale,
            StakeSizingStrategy::FullKelly,
            self.max_fraction,
            self.max_round_stake,
            self.table_limit,
        )
    }

    /// The decision before a round of a shoe.
    pub open spec fn decision(self, shoe: ShoeView) -> BetDecision<E> {
        self.betting().main_decision(
            ev::all_with_rebate(
                ev::main_analysis(deals::main_weights(shoe), self.payouts()),
                self.rebate_rule(),
            ),
        )
    }

    /// The results of the bet that is decided on.
    pub open spec fn outcomes(self, shoe: ShoeView) -> Seq<KellyOutcome<E>> {
        kelly::as_outcomes(
            distribution::main_distribution(
                deals::main_weights(shoe),
                self.payouts(),
                self.rebate_rule(),
                self.decision(shoe).candidate,
            ),
        )
    }

    /// What keeps the plan for a round of a shoe from being made, if anything does.
    #[verifier::opaque]
    pub open spec fn plan_error(self, scale: Scale<E>, shoe: ShoeView) -> Option<KellyError<E>> {
        plan::main_plan_error(scale, self.decision(shoe), self.outcomes(shoe), self.bankroll)
    }

    /// Whether a plan is the one for a round of a shoe.
    #[verifier::opaque]
    pub open spec fn plans<F: Fn(E) -> E>(
        self,
        scale: Scale<E>,
        shoe: ShoeView,
        root: F,
        plan: BetPlan<E>,
    ) -> bool {
        &&& self.plan_error(scale, shoe) is None
        &&& plan::is_main_plan(
            self.stakes(),
            scale,
            self.decision(shoe),
            self.outcomes(shoe),
            self.bankroll,
            root,
            plan,
        )
    }
}

proof fn lemma_planned_without_error<E: Number, F: Fn(E) -> E>(
    config: DayConfig<E>,
    scale: Scale<E>,
    shoe: ShoeView,
    root: F,
    plan: BetPlan<E>,
)
    requires
        config.plans(scale, shoe, root, plan),
    ensures
        config.plan_error(scale, shoe) is None,
{
    reveal(DayConfig::plans);
}

/// What a day's replay plans its rounds by.
struct DayPlanner<E> {
    rules: MainBetRules<E>,
    rebate: RebateRule<E>,
    betting: BettingPolicy<E>,
    kelly: KellyPolicy<E>,
    bankroll: E,
}

impl<E: Number> DayPlanner<E> {
    spec fn follows(self, config: DayConfig<E>) -> bool {
        &&& self.rules == config.payouts()
        &&& self.rebate == config.rebate_rule()
        &&& self.betting == config.betting()
        &&& self.kelly == config.stakes()
        &&& self.bankroll == config.bankroll
    }

    fn new(config: DayConfig<E>, scale: Scale<E>) -> (result: Result<DayPlanner<E>, KellyError<E>>)
        requires
            number::arithmetic::<E>(),
        ensures
            match (result, config.refused(scale)) {
                (Ok(planner), None) => planner.follows(config),
                (Err(error), Some(found)) => error == found,
                _ => false,
            },
    {
        let rebate: RebateRule<E> = if order::is_above(config.rebate_rate, E::from(0u32)) {
            RebateRule::AllExceptMainBetTie { rate: config.rebate_rate }
        } else {
            RebateRule::NoRebate
        };
        match KellyPolicy::new(
            scale,
            config.max_fraction,
            config.max_round_stake,
            config.table_limit,
        ) {
            Ok(kelly) => Ok(
                DayPlanner {
                    rules: MainBetRules::standard().per_unit::<E>(),
                    rebate,
                    betting: BettingPolicy::new(rebate, config.minimum_ev),
                    kelly,
                    bankroll: config.bankroll,
                },
            ),
            Err(error) => Err(error),
        }
    }

    fn plan<F: Fn(E) -> E>(
        &self,
        scale: Scale<E>,
        weights: OutcomeWeights,
        root: &F,
        Ghost(config): Ghost<DayConfig<E>>,
        Ghost(shoe): Ghost<ShoeView>,
    ) -> (result: Result<BetPlan<E>, KellyError<E>>)
        requires
            number::arithmetic::<E>(),
            self.follows(config),
            weights@ == deals::main_weights(shoe),
            forall|x: E| #[trigger] call_requires(*root, (x,)),
        ensures
            match result {
                Ok(plan) => config.plans(scale, shoe, *root, plan),
                Err(error) => config.plan_error(scale, shoe) == Some(error),
            },
    {
        proof {
            reveal(DayConfig::plans);
            reveal(DayConfig::plan_error);
        }
        self.kelly.plan(scale, &self.betting, weights, self.rules, self.bankroll, root)
    }
}

/// How many bets were counted on each main bet.
#[derive(Debug, Clone, Copy, PartialEq, Eq)]
pub struct BetCounts {
    pub player: u64,
    pub banker: u64,
    pub tie: u64,
}

impl BetCounts {
    /// The counts with one more bet.
    pub open spec fn with(self, bet: MainBet) -> BetCounts {
        match bet {
            MainBet::Player => BetCounts { player: (self.player + 1) as u64, ..self },
            MainBet::Banker => BetCounts { banker: (self.banker + 1) as u64, ..self },
            MainBet::Tie => BetCounts { tie: (self.tie + 1) as u64, ..self },
        }
    }

    /// All bets that were counted.
    pub open spec fn all(self) -> int {
        self.player + self.banker + self.tie
    }

    /// Counts one more bet.
    pub fn increment(&mut self, bet: MainBet)
        requires
            old(self).all() < u64::MAX,
        ensures
            *final(self) == old(self).with(bet),
            final(self).all() == old(self).all() + 1,
    {
        match bet {
            MainBet::Player => {
                self.player = self.player + 1;
            },
            MainBet::Banker => {
                self.banker = self.banker + 1;
            },
            MainBet::Tie => {
                self.tie = self.tie + 1;
            },
        }
    }
}

/// Whether a bet names the outcome of a round.
pub open spec fn names(bet: MainBet, outcome: RoundOutcome) -> bool {
    match (bet, outcome) {
        (MainBet::Player, RoundOutcome::Player) => true,
        (MainBet::Banker, RoundOutcome::Banker) => true,
        (MainBet::Tie, RoundOutcome::Tie) => true,
        _ => false,
    }
}

/// Tells whether a bet names the outcome of a round.
pub fn bet_matches_outcome(bet: MainBet, outcome: RoundOutcome) -> (result: bool)
    ensures
        result == names(bet, outcome),
{
    match (bet, outcome) {
        (MainBet::Player, RoundOutcome::Player) => true,
        (MainBet::Banker, RoundOutcome::Banker) => true,
        (MainBet::Tie, RoundOutcome::Tie) => true,
        _ => false,
    }
}

/// What the replay of a day has counted and summed up.
#[derive(Debug, Clone, Copy, PartialEq, Eq)]
pub struct DayBooks<E> {
    pub candidate_bets: BetCounts,
    pub placed_bets: BetCounts,
    pub skipped_bets: u64,
    pub placed_bet_wins: u64,
    /// The effective values of the best bets of the rounds, together.
    pub effective_ev_sum: E,
    pub minimum_candidate_effective_ev: Option<E>,
    pub maximum_candidate_effective_ev: Option<E>,
    pub total_suggested_stake: E,
    pub total_expected_profit: E,
    pub hypothetical_actual_profit: E,
}

impl<E: Number> DayBooks<E> {
    /// The books before the first round.
    pub open spec fn start() -> DayBooks<E> {
        let none = BetCounts { player: 0, banker: 0, tie: 0 };
        let zero = number::small::<E>(0);
        DayBooks {
            candidate_bets: none,
            placed_bets: none,
            skipped_bets: 0,
            placed_bet_wins: 0,
            effective_ev_sum: zero,
            minimum_candidate_effective_ev: None,
            maximum_candidate_effective_ev: None,
            total_suggested_stake: zero,
            total_expected_profit: zero,
            hypothetical_actual_profit: zero,
        }
    }

    /// What a bet earns per unit of stake, the rebate included.
    pub open spec fn earned(config: DayConfig<E>, bet: MainBet, outcome: RoundOutcome) -> E {
        number::sum(
            ev::net_profit(config.payouts().settled(bet, outcome, 0)),
            ev::rebate_rate(
                config.rebate_rule().rate_where(RebateRule::<E>::covers(bet, outcome)),
            ),
        )
    }

    /// The books with the plan of one more round and its outcome.
    #[verifier::opaque]
    pub open spec fn with_round(
        self,
        config: DayConfig<E>,
        plan: BetPlan<E>,
        outcome: RoundOutcome,
    ) -> DayBooks<E> {
        let ev = plan.decision.effective_ev;
        let noted = DayBooks {
            candidate_bets: self.candidate_bets.with(plan.decision.candidate),
            effective_ev_sum: number::sum(self.effective_ev_sum, ev),
            minimum_candidate_effective_ev: match self.minimum_candidate_effective_ev {
                Some(least) => Some(order::lower(least, ev)),
                None => Some(ev),
            },
            maximum_candidate_effective_ev: match self.maximum_candidate_effective_ev {
                Some(most) => Some(order::higher(most, ev)),
                None => Some(ev),
            },
            ..self
        };
        match plan.action {
            BetPlanAction::Place { bet, amount } => DayBooks {
                placed_bets: self.placed_bets.with(bet),
                placed_bet_wins: (self.placed_bet_wins + if names(bet, outcome) {
                    1int
                } else {
                    0int
                }) as u64,
                total_suggested_stake: number::sum(self.total_suggested_stake, amount),
                total_expected_profit: number::sum(
                    self.total_expected_profit,
                    number::product(amount, ev),
                ),
                hypothetical_actual_profit: number::sum(
                    self.hypothetical_actual_profit,
                    number::product(amount, Self::earned(config, bet, outcome)),
                ),
                ..noted
            },
            BetPlanAction::Skip { .. } => DayBooks {
                skipped_bets: (self.skipped_bets + 1) as u64,
                ..noted
            },
        }
    }

    /// The books of a number of rounds: every round has one best bet, which is made or skipped,
    /// and only a bet that is made can win.
    pub open spec fn covers(self, rounds: int) -> bool {
        &&& self.candidate_bets.all() == rounds
        &&& self.placed_bets.all() + self.skipped_bets == rounds
        &&& self.placed_bet_wins <= self.placed_bets.all()
    }

    /// Opens the books.
    pub fn new() -> (books: DayBooks<E>)
        requires
            number::arithmetic::<E>(),
        ensures
            books == Self::start(),
            books.covers(0),
    {
        let none: BetCounts = BetCounts { player: 0, banker: 0, tie: 0 };
        let zero: E = E::from(0u32);
        DayBooks {
            candidate_bets: none,
            placed_bets: none,
            skipped_bets: 0,
            placed_bet_wins: 0,
            effective_ev_sum: zero,
            minimum_candidate_effective_ev: None,
            maximum_candidate_effective_ev: None,
            total_suggested_stake: zero,
            total_expected_profit: zero,
            hypothetical_actual_profit: zero,
        }
    }

    /// Puts the plan of a round and its outcome in the books.
    fn note_round(
        &mut self,
        planner: &DayPlanner<E>,
        plan: BetPlan<E>,
        outcome: RoundOutcome,
        Ghost(config): Ghost<DayConfig<E>>,
        Ghost(rounds): Ghost<int>,
    )
        requires
            number::arithmetic::<E>(),
            planner.follows(config),
            old(self).covers(rounds),
            rounds < u64::MAX,
        ensures
            *final(self) == old(self).with_round(config, plan, outcome),
            final(self).covers(rounds + 1),
    {
        proof {
            reveal(DayBooks::with_round);
        }
        let ev: E = plan.decision.effective_ev;
        self.candidate_bets.increment(plan.decision.candidate);
        self.effective_ev_sum = self.effective_ev_sum + ev;
        self.minimum_candidate_effective_ev = match self.minimum_candidate_effective_ev {
            Some(least) => Some(order::lower_of(least, ev)),
            None => Some(ev),
        };
        self.maximum_candidate_effective_ev = match self.maximum_candidate_effective_ev {
            Some(most) => Some(order::higher_of(most, ev)),
            None => Some(ev),
        };
        match plan.action {
            BetPlanAction::Place { bet, amount } => {
                self.placed_bets.increment(bet);
                if bet_matches_outcome(bet, outcome) {
                    self.placed_bet_wins = self.placed_bet_wins + 1;
                }
                let settlement: Settlement<E> = planner.rules.settle(bet, outcome);
                assert(settlement == planner.rules.settled(bet, outcome, 0));
                let earned: E = ev::profit_of(settlement) + ev::rate_of(
                    planner.rebate.rate_for(bet, outcome),
                );
                self.total_suggested_stake = self.total_suggested_stake + amount;
                self.total_expected_profit = self.total_expected_profit + amount * ev;
                self.hypothetical_actual_profit = self.hypothetical_actual_profit + amount * earned;
            },
            BetPlanAction::Skip { reason: _ } => {
                self.skipped_bets = self.skipped_bets + 1;
            },
        }
    }
}

/// Whether rows are those of the observable shoes, in the order of tables, shoes and rounds.
pub open spec fn is_day_order(order: Seq<usize>, rounds: Seq<LoadedRound>) -> bool {
    &&& order.no_duplicates()
    &&& forall|k: int| 0 <= k < order.len() ==> #[trigger] order[k] < rounds.len()
    &&& forall|i: usize| #[trigger]
        order.contains(i) <==> i < rounds.len() && schedule::observable(
            rounds,
            rounds[i as int].session(),
        )
    &&& forall|a: int, b: int|
        #![trigger order[a], order[b]]
        0 <= a < b < order.len() ==> rounds[order[a] as int].place().at_most(
            rounds[order[b] as int].place(),
        )
}

/// The rounds of a day in the order in which they are replayed.
pub struct DayCourse {
    pub rounds: Seq<LoadedRound>,
    pub order: Seq<usize>,
}

impl DayCourse {
    /// The row of a round.
    pub open spec fn row(self, k: int) -> LoadedRound {
        self.rounds[self.order[k] as int]
    }

    /// The cards of a round.
    pub open spec fn cards(self, k: int) -> Seq<Card> {
        machine::cards_of(self.row(k))
    }

    /// Whether a round is the first of its shoe.
    pub open spec fn opens_shoe(self, k: int) -> bool {
        k <= 0 || self.row(k - 1).session() != self.row(k).session()
    }

    /// The shoe before a round: full before the first of its rounds, without the cards of the
    /// earlier ones later.
    pub open spec fn shoe(self, k: int) -> ShoeView
        decreases k,
    {
        if self.opens_shoe(k) {
            shoe::full_shoe(8)
        } else {
            self.shoe(k - 1).without_all(self.cards(k - 1))
        }
    }

    /// Whether one of the first rounds had a shoe with as many cards of each point value.
    pub open spec fn met(self, stock: Seq<nat>, n: int) -> bool {
        exists|k: int| 0 <= k < n && #[trigger] deals::point_stock(self.shoe(k)) == stock
    }

    /// How often the weights of the first rounds were found and how often they were computed.
    pub open spec fn lookups(self, n: int) -> (nat, nat)
        decreases n,
    {
        if n <= 0 {
            (0, 0)
        } else {
            let before = self.lookups(n - 1);
            if self.met(deals::point_stock(self.shoe(n - 1)), n - 1) {
                (before.0 + 1, before.1)
            } else {
                (before.0, before.1 + 1)
            }
        }
    }
}

/// The books after the first rounds.
pub open spec fn books_after<E: Number>(
    config: DayConfig<E>,
    course: DayCourse,
    run: Seq<BetPlan<E>>,
    n: int,
) -> DayBooks<E>
    decreases n,
{
    if n <= 0 {
        DayBooks::start()
    } else {
        books_after(config, course, run, n - 1).with_round(
            config,
            run[n - 1],
            records::winner_of(course.cards(n - 1)),
        )
    }
}

/// Whether the first rounds of a day were planned by the shoes before them, and their cards were
/// left in these shoes.
pub open spec fn is_day_run<E: Number, F: Fn(E) -> E>(
    config: DayConfig<E>,
    scale: Scale<E>,
    course: DayCourse,
    root: F,
    run: Seq<BetPlan<E>>,
) -> bool {
    &&& run.len() <= course.order.len()
    &&& forall|k: int|
        #![trigger run[k]]
        0 <= k < run.len() ==> {
            &&& course.shoe(k).total() >= 6
            &&& course.shoe(k).holds(course.cards(k))
            &&& config.plans(scale, course.shoe(k), root, run[k])
        }
}

/// What came of the replay of a day.
#[derive(Debug, Clone, Copy, PartialEq, Eq)]
pub struct DayReport<E> {
    pub quality: CsvQualityReport,
    pub replayed_sessions: u64,
    pub replayed_rounds: u64,
    pub probability_cache_hits: u64,
    pub probability_cache_misses: u64,
    pub books: DayBooks<E>,
    /// The part of the bets that won; none where no bet was made.
    pub placed_bet_hit_rate: Option<E>,
    /// The mean effective value of the best bets; none where no round was played.
    pub average_candidate_effective_ev: Option<E>,
}

/// Why the replay of a day stops.
#[derive(Debug)]
pub enum DayStop<E> {
    /// A round cannot be played.
    Replay(CsvReplayError),
    /// The limits on stakes are refused or a stake cannot be computed.
    Stakes(KellyError<E>),
}

/// Whether a report is that of all rounds of a day.
pub open spec fn is_day_report<E: Number>(
    report: DayReport<E>,
    config: DayConfig<E>,
    course: DayCourse,
    run: Seq<BetPlan<E>>,
) -> bool {
    let n = course.order.len() as int;
    let books = books_after(config, course, run, n);
    let placed = books.placed_bets.all();
    &&& run.len() == n
    &&& report.books == books
    &&& report.replayed_rounds == n
    &&& report.replayed_sessions == schedule::sessions(course.rounds).filter(
        |s: (u64, u64)| schedule::observable(course.rounds, s),
    ).len()
    &&& (report.probability_cache_hits as nat, report.probability_cache_misses as nat)
        == course.lookups(n)
    &&& report.placed_bet_hit_rate == if placed > 0 {
        Some(number::share::<E>(books.placed_bet_wins as int, placed))
    } else {
        None
    }
    &&& report.average_candidate_effective_ev == if n > 0 {
        Some(number::quotient(books.effective_ev_sum, number::whole::<E>(n)))
    } else {
        None
    }
    &&& schedule::counts_sessions(report.quality, course.rounds)
}

/// Whether the replay of a day has to stop at the round after a run.
pub open spec fn day_stops_at<E: Number>(
    stop: DayStop<E>,
    config: DayConfig<E>,
    scale: Scale<E>,
    course: DayCourse,
    n: int,
) -> bool {
    &&& n < course.order.len()
    &&& match stop {
        DayStop::Stakes(error) => {
            &&& course.shoe(n).total() >= 6
            &&& config.plan_error(scale, course.shoe(n)) == Some(error)
        },
        DayStop::Replay(
            CsvReplayError::Probability { table_id, session_id, round_no, message },
        ) => {
            &&& course.shoe(n).total() < 6
            &&& (table_id, session_id, round_no) == course.row(n).place()
            &&& message@ == (ProbabilityError::NotEnoughCards {
                remaining: course.shoe(n).total() as u16,
            }).message()
        },
        DayStop::Replay(
            CsvReplayError::ShoeState { table_id, session_id, round_no, message },
        ) => {
            &&& course.shoe(n).total() >= 6
            &&& config.plan_error(scale, course.shoe(n)) is None
            &&& (table_id, session_id, round_no) == course.row(n).place()
            &&& exists|error: ShoeError|
                #[trigger] course.shoe(n).refuses_removal(course.cards(n), error) && message@
                    == error.message()
        },
        DayStop::Replay(_) => false,
    }
}

/// Whether a result is that of replaying the rows of a day.
pub open spec fn is_day<E: Number, F: Fn(E) -> E>(
    result: Result<DayReport<E>, DayStop<E>>,
    rounds: Seq<LoadedRound>,
    judgement: CsvQualityReport,
    config: DayConfig<E>,
    scale: Scale<E>,
    root: F,
) -> bool {
    match config.refused(scale) {
        Some(found) => result matches Err(DayStop::Stakes(error)) && error == found,
        None => exists|course: DayCourse, run: Seq<BetPlan<E>>|
            {
                &&& course.rounds == rounds
                &&& is_day_order(course.order, rounds)
                &&& #[trigger] is_day_run(config, scale, course, root, run)
                &&& match result {
                    Ok(report) => {
                        &&& is_day_report(report, config, course, run)
                        &&& report.quality.valid_card_rows == judgement.valid_card_rows
                        &&& report.quality.empty_card_rows == judgement.empty_card_rows
                        &&& report.quality.invalid_card_rows == judgement.invalid_card_rows
                        &&& report.quality.outcome_mismatch_rows
                            == judgement.outcome_mismatch_rows
                    },
                    Err(stop) => day_stops_at(stop, config, scale, course, run.len() as int),
                }
            },
    }
}

fn place_of(round: &LoadedRound) -> (place: (u64, u64, u32))
    ensures
        place == round.place(),
{
    (round.table_id, round.session_id, round.round_no)
}

fn day_order(rounds: &Vec<LoadedRound>, found: &Schedule) -> (order: Vec<usize>)
    requires
        found.fits(rounds@),
    ensures
        is_day_order(order@, rounds@),
        order.len() == found.order.len(),
{
    let rows: &Vec<usize> = &found.order;
    let mut places: Vec<(u64, u64, u32)> = Vec::new();
    let mut e: usize = 0;
    while e < rows.len()
        invariant
            e <= rows.len(),
            rows@ == found.order@,
            found.fits(rounds@),
            places.len() == e,
            forall|j: int| 0 <= j < e ==> #[trigger] places@[j] == rounds@[rows@[j] as int].place(),
        decreases rows.len() - e,
    {
        places.push(place_of(&rounds[rows[e]]));
        e = e + 1;
    }
    let ranks: Vec<usize> = sorting::ranked_positions(&places);
    proof {
        sorting::lemma_ranking_length(places@, ranks@, 0, places.len() as int);
    }
    let mut order: Vec<usize> = Vec::new();
    let mut k: usize = 0;
    while k < ranks.len()
        invariant
            k <= ranks.len() == rows.len() == places.len(),
            sorting::is_ranking(places@, ranks@, 0, places.len() as int),
            order.len() == k,
            forall|j: int| 0 <= j < k ==> #[trigger] order@[j] == rows@[ranks@[j] as int],
        decreases ranks.len() - k,
    {
        assert(ranks@[k as int] < places.len());
        order.push(rows[ranks[k]]);
        k = k + 1;
    }
    proof {
        assert forall|a: int, b: int|
            0 <= a < order.len() && 0 <= b < order.len() && a != b implies order@[a]
            != order@[b] by {
            assert(ranks@[a] != ranks@[b]);
            assert(order@[a] == rows@[ranks@[a] as int]);
            assert(order@[b] == rows@[ranks@[b] as int]);
        }
        assert forall|i: usize| #[trigger] order@.contains(i) <==> rows@.contains(i) by {
            if order@.contains(i) {
                let j = choose|j: int| 0 <= j < order.len() && order@[j] == i;
                assert(rows@[ranks@[j] as int] == i);
            }
            if rows@.contains(i) {
                let j = choose|j: int| 0 <= j < rows.len() && rows@[j] == i;
                assert(ranks@.contains(j as usize));
                let r = choose|r: int| 0 <= r < ranks.len() && ranks@[r] == j as usize;
                assert(order@[r] == i);
            }
        }
        assert forall|j: int| 0 <= j < order.len() implies #[trigger] order@[j] < rounds.len() by {
            assert(order@[j] == rows@[ranks@[j] as int]);
        }
        assert forall|a: int, b: int|
            #![trigger order@[a], order@[b]]
            0 <= a < b < order.len() implies rounds@[order@[a] as int].place().at_most(
            rounds@[order@[b] as int].place(),
        ) by {
            let x = ranks@[a] as int;
            let y = ranks@[b] as int;
            assert(sorting::ahead(places@, x, y));
            assert(places@[x] == rounds@[rows@[x] as int].place());
            assert(places@[y] == rounds@[rows@[y] as int].place());
        }
    }
    order
}

proof fn lemma_day_rows_are_playable(rounds: Seq<LoadedRound>, order: Seq<usize>, k: int)
    requires
        load::well_formed(rounds),
        is_day_order(order, rounds),
        0 <= k < order.len(),
    ensures
        rounds[order[k] as int].cards is Some,
        rounds[order[k] as int].outcome == Some(
            records::winner_of(machine::cards_of(rounds[order[k] as int])),
        ),
{
    let i = order[k];
    let row = rounds[i as int];
    assert(order.contains(i));
    assert(schedule::member(rounds, row.session(), i as int));
    assert(row.cards is Some);
    assert(row.validation_error is None);
    assert(row.wf());
}

spec fn remembers_stocks(cache: PointCache, course: DayCourse, n: int) -> bool {
    &&& cache.wf()
    &&& (cache.found(), cache.computed()) == course.lookups(n)
    &&& forall|stock: Seq<nat>|
        point_cache::small_counts(stock) ==> (#[trigger] cache.knows(stock) <==> course.met(
            stock,
            n,
        ))
}

proof fn lemma_lookups_are_few(course: DayCourse, n: int)
    requires
        0 <= n,
    ensures
        course.lookups(n).0 + course.lookups(n).1 == n,
    decreases n,
{
    if n > 0 {
        lemma_lookups_are_few(course, n - 1);
    }
}

proof fn lemma_one_more_stock(
    before: PointCache,
    after: PointCache,
    course: DayCourse,
    n: int,
)
    requires
        remembers_stocks(before, course, n),
        0 <= n,
        course.shoe(n).wf(),
        after.wf(),
        ({
            let stock = deals::point_stock(course.shoe(n));
            let known = before.knows(stock);
            &&& after.found() == before.found() + if known {
                1int
            } else {
                0int
            }
            &&& after.computed() == before.computed() + if known {
                0int
            } else {
                1int
            }
            &&& forall|one: Seq<nat>|
                point_cache::small_counts(one) ==> (#[trigger] after.knows(one) <==> before.knows(
                    one,
                ) || one == stock)
        }),
    ensures
        remembers_stocks(after, course, n + 1),
{
    let stock = deals::point_stock(course.shoe(n));
    point_cache::lemma_shoes_have_small_counts(course.shoe(n));
    assert(before.knows(stock) <==> course.met(stock, n));
    assert forall|one: Seq<nat>| point_cache::small_counts(one) implies (
    #[trigger] after.knows(one) <==> course.met(one, n + 1)) by {
        assert(before.knows(one) <==> course.met(one, n));
        if course.met(one, n + 1) {
            let k = choose|k: int|
                0 <= k < n + 1 && #[trigger] deals::point_stock(course.shoe(k)) == one;
            if k < n {
                assert(course.met(one, n));
            }
        }
        if course.met(one, n) {
            let k = choose|k: int|
                0 <= k < n && #[trigger] deals::point_stock(course.shoe(k)) == one;
            assert(deals::point_stock(course.shoe(k)) == one);
        }
        if one == stock {
            assert(deals::point_stock(course.shoe(n)) == one);
        }
    }
}

/// Replays the rounds of a day, shoe by shoe: each round is planned by the weights of its shoe
/// before it and the bankroll of the settings, settled by its outcome, and only then are its
/// cards taken out of the shoe. `root` is the square root, which only a volatility target needs.
#[verifier::rlimit(60)]
pub fn replay_day<E: Number, F: Fn(E) -> E>(
    loaded: &LoadedRounds,
    config: DayConfig<E>,
    scale: Scale<E>,
    root: &F,
) -> (result: Result<DayReport<E>, DayStop<E>>)
    requires
        number::arithmetic::<E>(),
        loaded.list().len() < u64::MAX,
        forall|x: E| #[trigger] call_requires(*root, (x,)),
    ensures
        is_day(result, loaded.list(), loaded.judgement(), config, scale, *root),
{
    let rounds: &Vec<LoadedRound> = loaded.rounds();
    let found: Schedule = schedule::schedule(rounds, loaded.quality());
    let order: Vec<usize> = day_order(rounds, &found);
    let planner: DayPlanner<E> = match DayPlanner::new(config, scale) {
        Ok(planner) => planner,
        Err(error) => {
            return Err(DayStop::Stakes(error));
        },
    };
    let ghost course = DayCourse { rounds: rounds@, order: order@ };
    let ghost mut run: Seq<BetPlan<E>> = Seq::empty();
    let mut cache: PointCache = PointCache::new();
    let mut books: DayBooks<E> = DayBooks::new();
    let mut shoe: Shoe = Shoe::default();
    let mut k: usize = 0;
    proof {
        assert(remembers_stocks(cache, course, 0));
        lemma_day_is_short(order@, rounds@);
    }
    while k < order.len()
        invariant
            number::arithmetic::<E>(),
            forall|x: E| #[trigger] call_requires(*root, (x,)),
            k <= order.len() <= rounds.len() < u64::MAX,
            rounds@ == loaded.list(),
            load::well_formed(rounds@),
            course == (DayCourse { rounds: rounds@, order: order@ }),
            is_day_order(order@, rounds@),
            planner.follows(config),
            config.refused(scale) is None,
            run.len() == k,
            is_day_run(config, scale, course, *root, run),
            books == books_after(config, course, run, k as int),
            books.covers(k as int),
            remembers_stocks(cache, course, k as int),
            k > 0 ==> shoe@ == course.shoe(k - 1).without_all(course.cards(k - 1)),
        decreases order.len() - k,
    {
        let row: &LoadedRound = &rounds[order[k]];
        proof {
            lemma_day_rows_are_playable(rounds@, order@, k as int);
            lemma_lookups_are_few(course, k as int);
        }
        if k == 0 || rounds[order[k - 1]].table_id != row.table_id || rounds[order[k
            - 1]].session_id != row.session_id {
            shoe = Shoe::default();
        }
        assert(shoe@ == course.shoe(k as int));
        let ghost before = cache;
        let weights: OutcomeWeights = match cache.weights(&shoe) {
            Ok(weights) => weights,
            Err(error) => {
                let stop: DayStop<E> = DayStop::Replay(
                    CsvReplayError::Probability {
                        table_id: row.table_id,
                        session_id: row.session_id,
                        round_no: row.round_no,
                        message: error.to_string(),
                    },
                );
                assert(day_stops_at(stop, config, scale, course, k as int));
                return Err(stop);
            },
        };
        proof {
            lemma_one_more_stock(before, cache, course, k as int);
        }
        let plan: BetPlan<E> = match planner.plan(
            scale,
            weights,
            root,
            Ghost(config),
            Ghost(shoe@),
        ) {
            Ok(plan) => plan,
            Err(error) => {
                let stop: DayStop<E> = DayStop::Stakes(error);
                assert(day_stops_at(stop, config, scale, course, k as int));
                return Err(stop);
            },
        };
        let outcome: RoundOutcome = row.outcome.unwrap();
        books.note_round(&planner, plan, outcome, Ghost(config), Ghost(k as int));
        let cards: &Vec<Card> = row.cards.as_ref().unwrap();
        let ghost shoe_before = shoe@;
        match shoe.remove_many(cards.as_slice()) {
            Ok(_) => {},
            Err(error) => {
                let stop: DayStop<E> = DayStop::Replay(
                    CsvReplayError::ShoeState {
                        table_id: row.table_id,
                        session_id: row.session_id,
                        round_no: row.round_no,
                        message: error.to_string(),
                    },
                );
                assert(course.shoe(k as int).refuses_removal(course.cards(k as int), error));
                assert(config.plan_error(scale, course.shoe(k as int)) is None) by {
                    lemma_planned_without_error(config, scale, shoe_before, *root, plan);
                }
                assert(day_stops_at(stop, config, scale, course, k as int));
                return Err(stop);
            },
        }
        proof {
            let longer = run.push(plan);
            assert forall|j: int|
                #![trigger longer[j]]
                0 <= j < longer.len() implies {
                &&& course.shoe(j).total() >= 6
                &&& course.shoe(j).holds(course.cards(j))
                &&& config.plans(scale, course.shoe(j), *root, longer[j])
            } by {
                if j < k {
                    assert(longer[j] == run[j]);
                }
            }
            lemma_books_ignore_later_plans(config, course, run, plan, k as int);
            run = longer;
        }
        k = k + 1;
    }
    let placed: u64 = books.placed_bets.player + books.placed_bets.banker + books.placed_bets.tie;
    let rounds_played: u64 = order.len() as u64;
    let report: DayReport<E> = DayReport {
        quality: found.quality,
        replayed_sessions: found.session_count as u64,
        replayed_rounds: rounds_played,
        probability_cache_hits: cache.hits(),
        probability_cache_misses: cache.misses(),
        books,
        placed_bet_hit_rate: if placed > 0 {
            Some(number::share_of::<E>(books.placed_bet_wins, placed))
        } else {
            None
        },
        average_candidate_effective_ev: if rounds_played > 0 {
            Some(books.effective_ev_sum / number::number_of::<E>(rounds_played))
        } else {
            None
        },
    };
    proof {
        assert(is_day_report(report, config, course, run));
        assert(is_day_run(config, scale, course, *root, run));
    }
    Ok(report)
}

proof fn lemma_books_ignore_later_plans<E: Number>(
    config: DayConfig<E>,
    course: DayCourse,
    run: Seq<BetPlan<E>>,
    plan: BetPlan<E>,
    n: int,
)
    requires
        0 <= n <= run.len(),
    ensures
        books_after(config, course, run.push(plan), n) == books_after(config, course, run, n),
    decreases n,
{
    if n > 0 {
        lemma_books_ignore_later_plans(config, course, run, plan, n - 1);
        assert(run.push(plan)[n - 1] == run[n - 1]);
    }
}

proof fn lemma_day_is_short(order: Seq<usize>, rounds: Seq<LoadedRound>)
    requires
        is_day_order(order, rounds),
    ensures
        order.len() <= rounds.len(),
{
    let positions = order.map_values(|i: usize| i as int);
    assert(positions.no_duplicates()) by {
        assert forall|a: int, b: int|
            0 <= a < positions.len() && 0 <= b < positions.len() && a != b implies positions[a]
            != positions[b] by {
            assert(order[a] != order[b]);
        }
    }
    positions.unique_seq_to_set();
    let all = vstd::set_lib::set_int_range(0, rounds.len() as int);
    vstd::set_lib::lemma_int_range(0, rounds.len() as int);
    assert forall|x: int| positions.to_set().contains(x) implies all.contains(x) by {
        let k = choose|k: int| 0 <= k < positions.len() && positions[k] == x;
        assert(order[k] < rounds.len());
    }
    vstd::set_lib::lemma_len_subset(positions.to_set(), all);
}

/// After any number of rounds of a day every round has been counted once, as a bet that was made
/// or as one that was skipped, and no more bets have won than were made.
pub proof fn lemma_day_books_count_every_round<E: Number>(
    config: DayConfig<E>,
    course: DayCourse,
    run: Seq<BetPlan<E>>,
    n: int,
)
    requires
        0 <= n <= run.len(),
        n < u64::MAX,
    ensures
        books_after(config, course, run, n).covers(n),
    decreases n,
{
    if n > 0 {
        lemma_day_books_count_every_round(config, course, run, n - 1);
        reveal(DayBooks::with_round);
    }
}

} // verus!
