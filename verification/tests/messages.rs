use game_ev_engine::{
    CsvReplayError, KellyError, ProbabilityError, ReplayStop, SideBetRuleError, SnapshotError,
    StakeSizingStrategy,
};

fn shown(error: KellyError<f64>) -> String {
    let number = error.value().map(|value| value.to_string()).unwrap_or_default();
    error.to_string(&number)
}

#[test]
fn stake_errors_name_the_number_that_is_wrong() {
    assert_eq!(shown(KellyError::EmptyOutcomes), "at least one Kelly outcome is required");
    assert_eq!(
        shown(KellyError::InvalidProbability { index: 3, value: -0.5 }),
        "outcome 3 has invalid probability -0.5"
    );
    assert_eq!(
        shown(KellyError::InvalidNetProfit { index: 0, value: f64::INFINITY }),
        "outcome 0 has invalid net profit inf"
    );
    assert_eq!(
        shown(KellyError::ProbabilitySumNotOne { actual: 0.5 }),
        "outcome probabilities sum to 0.5; expected 1"
    );
    assert_eq!(
        shown(KellyError::InvalidMaxFraction { value: 1.5 }),
        "max Kelly fraction must be in 0..=1; got 1.5"
    );
    assert_eq!(
        shown(KellyError::InvalidFixedStake { value: -1.0 }),
        "fixed stake must be finite and non-negative; got -1"
    );
    assert_eq!(
        shown(KellyError::InvalidStrategyParameter {
            strategy: StakeSizingStrategy::CustomKelly { fraction: 1.01 },
            value: 1.01
        }),
        "strategy custom_kelly requires a finite fraction in 0..=1; got 1.01"
    );
    assert_eq!(
        shown(KellyError::InvalidStrategyParameter {
            strategy: StakeSizingStrategy::TargetExpectedProfit { amount: -2.0 },
            value: -2.0
        }),
        "strategy target_expected_profit requires a finite non-negative amount; got -2"
    );
    assert_eq!(
        shown(KellyError::InvalidMaxRoundStake { value: -1.0 }),
        "max round stake must be finite and non-negative; got -1"
    );
    assert_eq!(
        shown(KellyError::InvalidTableLimit { value: -1.0 }),
        "table limit must be finite and non-negative; got -1"
    );
    assert_eq!(
        shown(KellyError::InvalidSideBetLimit { value: -1.0 }),
        "side bet limit must be finite and non-negative; got -1"
    );
    assert_eq!(
        shown(KellyError::InvalidBankroll { value: 0.0 }),
        "bankroll must be finite and positive; got 0"
    );
}

#[test]
fn other_errors_are_put_in_words() {
    let error = SideBetRuleError { field: "big", value: -0.5 };
    assert_eq!(
        error.to_string("-0.5"),
        "side-bet payout big must be finite and non-negative; got -0.5"
    );
    let error: SnapshotError<f64> = SnapshotError::Kelly(KellyError::InvalidBankroll { value: 0.0 });
    assert_eq!(
        error.to_string("0"),
        "Kelly planning failed: bankroll must be finite and positive; got 0"
    );
    let error: SnapshotError<f64> =
        SnapshotError::Probability(ProbabilityError::NotEnoughCards { remaining: 3 });
    assert!(error.to_string("").starts_with("probability analysis failed: "));
}

#[test]
fn a_stopped_replay_is_put_in_words() {
    let stop: ReplayStop<f64> = ReplayStop::Stakes(KellyError::InvalidBankroll { value: -1.0 });
    let error = stop.into_replay_error("no money".to_owned());
    assert_eq!(error, CsvReplayError::Strategy("no money".to_owned()));
    assert_eq!(error.to_string(), "下注策略计算失败：no money");
    let stop: ReplayStop<f64> = ReplayStop::Replay(CsvReplayError::EmptyDataset);
    assert_eq!(stop.into_replay_error(String::new()).to_string(), "CSV 没有任何数据行");
}
