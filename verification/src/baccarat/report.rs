//! The report of a replay with the settings it was made with.

use vstd::prelude::*;

use crate::baccarat::bet;
use crate::baccarat::bet::{BankerPayoutRule, MainBetRules};
use crate::baccarat::engine;
use crate::baccarat::engine::{
    replay_rounds, Course, CsvBetDetail, CsvReplaySummary, ReplayOutcome, ReplaySetup, ReplayStop,
};
use crate::baccarat::load;
use crate::baccarat::load::{load_rounds, LoadedRounds};
use crate::baccarat::records::{CsvDatasetReport, CsvQualityReport, CsvReplayError, CsvRound};
use crate::baccarat::replay::{CsvReplayConfig, SideBetRoundLimits};
use crate::baccarat::risk::{CombinedBetPlan, StakeSizingStrategy};
use crate::number;
use crate::number::Number;
use crate::order;
use crate::scale::Scale;

verus! {

/// The settings of a replay, by stable names.
#[derive(Debug, Clone, Copy)]
pub struct CsvReplayConfigSnapshot<E> {
    pub decks: u8,
    pub payout_rule: &'static str,
    pub stake_strategy: &'static str,
    /// The number that the way to choose stakes is set by, where there is one.
    pub strategy_parameter: Option<E>,
    /// The amount of fixed stakes.
    pub fixed_stake: Option<E>,
    pub rebate_rule: &'static str,
    pub rebate_rate: E,
    pub minimum_effective_ev: E,
    pub minimum_side_bet_ev: E,
    pub initial_bankroll: E,
    pub bankroll_mode: &'static str,
    pub max_fraction: E,
    pub max_round_stake: E,
    pub table_limit: E,
    pub side_bet_limit: E,
    pub side_bet_round_limits: SideBetRoundLimits,
    /// The common limit on the rounds of the lucky bets, where they have one.
    pub lucky_bet_max_round: Option<u32>,
    pub allow_multiple_bets: bool,
}

/// The name of the rebate rule of a rate: none is paid at a rate of zero.
pub open spec fn rebate_name<E: Number>(rate: E) -> Seq<char> {
    if order::alike(rate, number::small::<E>(0)) {
        "none"@
    } else {
        "all_except_player_or_banker_push"@
    }
}

/// Gives the name of the rebate rule of a rate.
pub fn rebate_rule_name<E: Number>(rate: E) -> (name: &'static str)
    requires
        number::arithmetic::<E>(),
    ensures
        name@ == rebate_name(rate),
{
    if order::are_alike(rate, E::from(0u32)) {
        "none"
    } else {
        "all_except_player_or_banker_push"
    }
}

/// Whether payouts are those without commission.
pub open spec fn is_no_commission<E: Number>(rules: MainBetRules<E>) -> bool {
    let table = bet::no_commission_table().in_units::<E>();
    match (rules.banker_rule, table.banker_rule) {
        (
            BankerPayoutRule::NoCommission { normal_net_payout: normal, six_net_payout: six },
            BankerPayoutRule::NoCommission { normal_net_payout, six_net_payout },
        ) => {
            &&& order::alike(rules.player_payout, table.player_payout)
            &&& order::alike(normal, normal_net_payout)
            &&& order::alike(six, six_net_payout)
            &&& order::alike(rules.tie_payout, table.tie_payout)
        },
        _ => false,
    }
}

fn has_no_commission<E: Number>(rules: MainBetRules<E>) -> (result: bool)
    requires
        number::arithmetic::<E>(),
    ensures
        result == is_no_commission(rules),
{
    let table: MainBetRules<E> = MainBetRules::no_commission().per_unit::<E>();
    match (rules.banker_rule, table.banker_rule) {
        (
            BankerPayoutRule::NoCommission { normal_net_payout: normal, six_net_payout: six },
            BankerPayoutRule::NoCommission { normal_net_payout, six_net_payout },
        ) => order::are_alike(rules.player_payout, table.player_payout) && order::are_alike(
            normal,
            normal_net_payout,
        ) && order::are_alike(six, six_net_payout) && order::are_alike(
            rules.tie_payout,
            table.tie_payout,
        ),
        _ => false,
    }
}

impl<E: Number> CsvReplayConfigSnapshot<E> {
    /// Whether this shows the settings of a replay.
    pub open spec fn shows(self, config: CsvReplayConfig<E>) -> bool {
        let limits = config.side_bet_round_limits;
        &&& self.decks == config.decks
        &&& self.payout_rule@ == if is_no_commission(config.rules) {
            "no_commission_banker_six_half_payout"@
        } else {
            "standard_banker_commission_5_percent"@
        }
        &&& self.stake_strategy@ == config.kelly.strategy.name()
        &&& self.strategy_parameter == match config.kelly.strategy {
            StakeSizingStrategy::FullKelly => None,
            StakeSizingStrategy::HalfKelly => None,
            StakeSizingStrategy::QuarterKelly => None,
            StakeSizingStrategy::CustomKelly { fraction } => Some(fraction),
            StakeSizingStrategy::Fixed { amount } => Some(amount),
            StakeSizingStrategy::FixedBankrollFraction { fraction } => Some(fraction),
            StakeSizingStrategy::TargetExpectedProfit { amount } => Some(amount),
            StakeSizingStrategy::TargetVolatility { fraction } => Some(fraction),
        }
        &&& self.fixed_stake == match config.kelly.strategy {
            StakeSizingStrategy::Fixed { amount } => Some(amount),
            _ => None,
        }
        &&& self.rebate_rule@ == rebate_name(config.rebate_rate)
        &&& self.rebate_rate == config.rebate_rate
        &&& self.minimum_effective_ev == config.minimum_effective_ev
        &&& self.minimum_side_bet_ev == config.minimum_side_bet_ev
        &&& self.initial_bankroll == config.initial_bankroll
        &&& self.bankroll_mode@ == "shared_running_bankroll_chronological"@
        &&& self.max_fraction == config.kelly.max_fraction
        &&& self.max_round_stake == config.kelly.max_round_stake
        &&& self.table_limit == config.kelly.table_limit
        &&& self.side_bet_limit == config.kelly.side_bet_limit
        &&& self.side_bet_round_limits == limits
        &&& self.lucky_bet_max_round == if limits.lucky_six > 0 && limits.lucky_six
            == limits.lucky_seven && limits.lucky_six == limits.super_lucky_seven {
            Some(limits.lucky_six)
        } else {
            None
        }
        &&& self.allow_multiple_bets == config.allow_multiple_bets
    }

    /// Shows the settings of a replay.
    pub fn new(config: CsvReplayConfig<E>) -> (snapshot: CsvReplayConfigSnapshot<E>)
        requires
            number::arithmetic::<E>(),
        ensures
            snapshot.shows(config),
    {
        CsvReplayConfigSnapshot {
            decks: config.decks,
            payout_rule: if has_no_commission(config.rules) {
                "no_commission_banker_six_half_payout"
            } else {
                "standard_banker_commission_5_percent"
            },
            stake_strategy: config.kelly.strategy.as_str(),
            strategy_parameter: config.kelly.strategy.parameter(),
            fixed_stake: config.kelly.strategy.fixed_amount(),
            rebate_rule: rebate_rule_name(config.rebate_rate),
            rebate_rate: config.rebate_rate,
            minimum_effective_ev: config.minimum_effective_ev,
            minimum_side_bet_ev: config.minimum_side_bet_ev,
            initial_bankroll: config.initial_bankroll,
            bankroll_mode: "shared_running_bankroll_chronological",
            max_fraction: config.kelly.max_fraction,
            max_round_stake: config.kelly.max_round_stake,
            table_limit: config.kelly.table_limit,
            side_bet_limit: config.kelly.side_bet_limit,
            side_bet_round_limits: config.side_bet_round_limits,
            lucky_bet_max_round: config.side_bet_round_limits.common_lucky_max_round(),
            allow_multiple_bets: config.allow_multiple_bets,
        }
    }
}

impl<E> ReplayStop<E> {
    /// The error to show, given the message of a stake error.
    pub fn into_replay_error(self, stakes: String) -> (error: CsvReplayError)
        ensures
            match self {
                ReplayStop::Replay(found) => error == found,
                ReplayStop::Stakes(_) => error == CsvReplayError::Strategy(stakes),
            },
    {
        match self {
            ReplayStop::Replay(error) => error,
            ReplayStop::Stakes(_) => CsvReplayError::Strategy(stakes),
        }
    }
}

/// What came of a replay, with its settings and what its rows look like.
#[derive(Debug)]
pub struct CsvReplayReport<E> {
    pub config: CsvReplayConfigSnapshot<E>,
    pub dataset: CsvDatasetReport,
    pub quality: CsvQualityReport,
    pub summary: CsvReplaySummary<E>,
    /// Every bet that was made.
    pub bets: Vec<CsvBetDetail<E>>,
    /// How many bets are not listed: none.
    pub omitted_bet_details: u64,
}

impl<E: Number> CsvReplayReport<E> {
    /// What came of the replay.
    pub open spec fn outcome(self) -> ReplayOutcome<E> {
        ReplayOutcome { quality: self.quality, summary: self.summary, bets: self.bets }
    }
}

/// Whether a result is that of loading rows and replaying them.
pub open spec fn is_replay<E: Number, F: Fn(E) -> E>(
    result: Result<CsvReplayReport<E>, ReplayStop<E>>,
    loading: Result<LoadedRounds, CsvReplayError>,
    rows: Seq<CsvRound>,
    config: CsvReplayConfig<E>,
    scale: Scale<E>,
    root: F,
) -> bool {
    match (loading, result) {
        (Err(error), Err(stop)) => stop == ReplayStop::<E>::Replay(error),
        (Err(_), Ok(_)) => false,
        (Ok(loaded), Err(stop)) => engine::is_outcome(
            Err(stop),
            loaded.list(),
            loaded.judgement(),
            config,
            scale,
            root,
        ),
        (Ok(loaded), Ok(report)) => {
            &&& engine::is_outcome(
                Ok(report.outcome()),
                loaded.list(),
                loaded.judgement(),
                config,
                scale,
                root,
            )
            &&& report.config.shows(config)
            &&& load::describes(report.dataset, rows)
            &&& report.omitted_bet_details == 0
        },
    }
}

proof fn lemma_all_bets_are_listed<E: Number, F: Fn(E) -> E>(
    outcome: ReplayOutcome<E>,
    loaded: LoadedRounds,
    config: CsvReplayConfig<E>,
    scale: Scale<E>,
    root: F,
)
    requires
        engine::is_outcome(
            Ok(outcome),
            loaded.list(),
            loaded.judgement(),
            config,
            scale,
            root,
        ),
        loaded.list().len() * 15 + 15 < u64::MAX,
    ensures
        outcome.summary.placed_bet_count == outcome.bets.len(),
{
    let setup = ReplaySetup::of(config);
    let initial = config.initial_bankroll;
    let (course, run) = choose|course: Course, run: Seq<Seq<CombinedBetPlan<E>>>|
        {
            &&& course.replays(loaded.list(), config.decks as nat)
            &&& #[trigger] engine::is_run(setup, scale, course, initial, root, run)
            &&& engine::is_report(outcome, setup, course, initial, run)
        };
    engine::lemma_course_is_short(course, loaded.list(), config.decks as nat);
    engine::lemma_every_bet_is_reported(
        setup,
        scale,
        course,
        initial,
        root,
        run,
        run.len() as int,
    );
}

/// Loads rows in their order and replays them with a running bankroll. `failure` tells why the
/// row after them could not be read, where one could not; `root` is the square root, which only a
/// volatility target needs.
pub fn replay_csv_rows<E: Number, F: Fn(E) -> E>(
    rows: &Vec<CsvRound>,
    failure: Option<String>,
    config: CsvReplayConfig<E>,
    scale: Scale<E>,
    root: &F,
) -> (result: Result<CsvReplayReport<E>, ReplayStop<E>>)
    requires
        number::arithmetic::<E>(),
        rows.len() * 15 + 15 < u64::MAX,
        forall|x: E| #[trigger] call_requires(*root, (x,)),
    ensures
        exists|loading: Result<LoadedRounds, CsvReplayError>| #[trigger]
            load::is_loading(loading, rows@, failure) && is_replay(
                result,
                loading,
                rows@,
                config,
                scale,
                *root,
            ),
{
    let loading: Result<LoadedRounds, CsvReplayError> = load_rounds(rows, failure);
    let ghost told = loading;
    let loaded: LoadedRounds = match loading {
        Ok(loaded) => loaded,
        Err(error) => {
            let result: Result<CsvReplayReport<E>, ReplayStop<E>> = Err(ReplayStop::Replay(error));
            assert(is_replay(result, told, rows@, config, scale, *root));
            return result;
        },
    };
    let dataset: CsvDatasetReport = loaded.dataset().duplicate();
    assert(load::describes(dataset, rows@));
    match replay_rounds(loaded, config, scale, root) {
        Ok(outcome) => {
            proof {
                lemma_all_bets_are_listed(outcome, loaded, config, scale, *root);
            }
            let placed: u64 = outcome.summary.placed_bet_count;
            let listed: u64 = outcome.bets.len() as u64;
            let report: CsvReplayReport<E> = CsvReplayReport {
                config: CsvReplayConfigSnapshot::new(config),
                dataset,
                quality: outcome.quality,
                summary: outcome.summary,
                bets: outcome.bets,
                omitted_bet_details: placed - listed,
            };
            proof {
                assert(report.outcome() == outcome);
                assert(is_replay(Ok(report), told, rows@, config, scale, *root));
            }
            Ok(report)
        },
        Err(stop) => {
            assert(is_replay(Err(stop), told, rows@, config, scale, *root));
            Err(stop)
        },
    }
}

} // verus!
