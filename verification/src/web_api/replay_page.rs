//! The settings of a replay that a page asks for.

use vstd::prelude::*;

use crate::baccarat::bet::MainBetRules;
use crate::baccarat::replay;
use crate::baccarat::replay::{CsvReplayConfig, SideBetRoundLimits};
use crate::baccarat::risk::StakeSizingStrategy;
use crate::number;
use crate::number::Number;
use crate::scale::Scale;
use crate::web_api;
use crate::web_api::{
    parse_payout_rule, parse_stake_strategy, side_bet_settings, PageError, StrategySettings,
};

verus! {

/// The limits on the rounds of side bets where a page sends one limit for the lucky bets: the
/// others keep those of the table.
pub fn lucky_round_limits(lucky_bet_max_round: u32) -> (limits: SideBetRoundLimits)
    ensures
        limits == (SideBetRoundLimits {
            lucky_six: lucky_bet_max_round,
            lucky_seven: lucky_bet_max_round,
            super_lucky_seven: lucky_bet_max_round,
            ..replay::table_round_limits()
        }),
{
    let mut limits: SideBetRoundLimits = SideBetRoundLimits::default();
    limits.lucky_six = lucky_bet_max_round;
    limits.lucky_seven = lucky_bet_max_round;
    limits.super_lucky_seven = lucky_bet_max_round;
    limits
}

/// The settings of a replay with payouts and a way to choose stakes. Side bets have the
/// threshold and the limit of the others where the page sent neither.
pub open spec fn page_config<E: Number>(
    scale: Scale<E>,
    decks: u8,
    rules: MainBetRules<E>,
    strategy: StakeSizingStrategy<E>,
    settings: StrategySettings<E>,
    limits: SideBetRoundLimits,
) -> CsvReplayConfig<E> {
    let missing = !scale.finite(settings.minimum_side_bet_ev) && !scale.finite(
        settings.side_bet_limit,
    );
    CsvReplayConfig {
        side_bet_round_limits: limits,
        allow_multiple_bets: settings.allow_multiple_bets,
        ..CsvReplayConfig::of(
            decks,
            rules,
            strategy,
            settings.rebate_rate,
            settings.minimum_effective_ev,
            if missing {
                settings.minimum_effective_ev
            } else {
                settings.minimum_side_bet_ev
            },
            settings.bankroll,
            settings.max_fraction,
            settings.max_round_stake,
            settings.table_limit,
            if missing {
                settings.max_round_stake
            } else {
                settings.side_bet_limit
            },
        )
    }
}

/// Reads the settings of a replay: the name of the payouts first, then that of the way to choose
/// stakes, then the numbers are checked.
pub fn replay_settings<E: Number>(
    scale: Scale<E>,
    decks: u8,
    payout_rule: &str,
    stake_strategy: &str,
    settings: StrategySettings<E>,
    limits: SideBetRoundLimits,
) -> (result: Result<CsvReplayConfig<E>, PageError<E>>)
    requires
        number::arithmetic::<E>(),
    ensures
        match (
            web_api::payout_rule_named(payout_rule@),
            web_api::strategy_named(stake_strategy@, settings.strategy_parameter),
        ) {
            (None, _) => result matches Err(error) && error.says(
                "庄赔付规则必须是 standard 或 no_commission"@,
            ),
            (_, None) => result matches Err(error) && error.says(
                "金额策略必须是 full_kelly、half_kelly、quarter_kelly、custom_kelly、fixed、bankroll_fraction、target_expected_profit 或 target_volatility"@,
            ),
            (Some((table, _)), Some(strategy)) => {
                let config = page_config(
                    scale,
                    decks,
                    table.in_units::<E>(),
                    strategy,
                    settings,
                    limits,
                );
                match replay::config_error(scale, config) {
                    Some(found) => result matches Err(PageError::Config(error)) && error == found,
                    None => result matches Ok(made) && made == config,
                }
            },
        },
{
    let table: MainBetRules<u32> = match parse_payout_rule(payout_rule) {
        Ok((table, _)) => table,
        Err(message) => {
            return Err(PageError::Message(message));
        },
    };
    let strategy: StakeSizingStrategy<E> = match parse_stake_strategy(
        stake_strategy,
        settings.strategy_parameter,
    ) {
        Ok(strategy) => strategy,
        Err(message) => {
            return Err(PageError::Message(message));
        },
    };
    let (minimum_side_bet_ev, side_bet_limit): (E, E) = side_bet_settings(
        scale,
        settings.minimum_side_bet_ev,
        settings.side_bet_limit,
        settings.minimum_effective_ev,
        settings.max_round_stake,
    );
    match CsvReplayConfig::with_side_bets(
        scale,
        decks,
        table.per_unit::<E>(),
        strategy,
        settings.rebate_rate,
        settings.minimum_effective_ev,
        minimum_side_bet_ev,
        settings.bankroll,
        settings.max_fraction,
        settings.max_round_stake,
        settings.table_limit,
        side_bet_limit,
    ) {
        Ok(config) => Ok(
            config.with_side_bet_round_limits(limits).with_multiple_bets(
                settings.allow_multiple_bets,
            ),
        ),
        Err(error) => Err(PageError::Config(error)),
    }
}

} // verus!
