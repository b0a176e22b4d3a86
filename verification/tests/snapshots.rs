use game_ev_engine::{
    analyze_snapshot, decision_snapshot_from_weights, ActionSnapshot, BettingPolicy, KellyError,
    KellyPolicy, MainBetRules, OutcomeWeights, ProbabilityError, RebateRule, Scale, Shoe,
    SnapshotError, DECISION_SNAPSHOT_SCHEMA_VERSION, ENGINE_VERSION,
};

fn assert_close(actual: f64, expected: f64) {
    assert!((actual - expected).abs() < 1e-10, "{actual} != {expected}");
}

fn sample_weights() -> OutcomeWeights {
    OutcomeWeights::from_weights(6, 360, 240, 120).expect("the weights make up all deals")
}

fn scale() -> Scale<f64> {
    Scale { least: f64::MIN, zero: 0.0, one: 1.0, largest: f64::MAX }
}

fn standard() -> MainBetRules<f64> {
    MainBetRules::standard().per_unit()
}

#[test]
fn place_snapshot_contains_direction_metrics_and_capped_amount() {
    let betting_policy = BettingPolicy::new(RebateRule::NoRebate, 0.0);
    let kelly_policy = KellyPolicy::full(scale(), 40.0, 50.0).expect("金额上限应该合法");

    let snapshot = decision_snapshot_from_weights(
        scale(),
        sample_weights(),
        standard(),
        &betting_policy,
        kelly_policy,
        1_000.0,
        &f64::sqrt,
    )
    .expect("正 EV 测试分布应该生成快照");

    assert_eq!(snapshot.schema_version, DECISION_SNAPSHOT_SCHEMA_VERSION);
    assert_eq!(snapshot.engine_version, ENGINE_VERSION);
    assert_eq!(snapshot.candidate_bet, "tie");
    assert_close(snapshot.tie.probability, 1.0 / 6.0);
    assert_close(snapshot.tie.base_ev, 0.5);
    assert_close(snapshot.tie.rebate_ev, 0.0);
    assert_close(snapshot.tie.effective_ev, 0.5);
    assert_close(
        snapshot.kelly_fraction.expect("应该计算凯利比例"),
        1.0 / 16.0,
    );
    assert_close(snapshot.applied_fraction.expect("应该计算实际比例"), 0.04);
    assert_close(snapshot.suggested_amount, 40.0);
    assert_close(snapshot.expected_profit, 20.0);

    assert_eq!(
        snapshot.action,
        ActionSnapshot::Place {
            bet: "tie",
            amount: 40.0,
        }
    );
}

#[test]
fn high_level_snapshot_analyzes_a_real_eight_deck_shoe() {
    let betting_policy =
        BettingPolicy::new(RebateRule::AllExceptMainBetTie { rate: 0.015 }, 0.0);
    let kelly_policy = KellyPolicy::full(scale(), 1_000.0, 1_000.0).expect("金额上限应该合法");

    let snapshot = analyze_snapshot(
        scale(),
        &Shoe::default(),
        standard(),
        &betting_policy,
        kelly_policy,
        10_000.0,
        &f64::sqrt,
    )
    .expect("完整八副牌应该能够生成快照");

    assert_eq!(snapshot.candidate_bet, "banker");
    assert!(snapshot.banker.effective_ev > 0.0);
    assert!(snapshot.suggested_amount > 0.0);
    assert!(matches!(snapshot.action, ActionSnapshot::Place { .. }));
}

#[test]
fn invalid_bankroll_is_preserved_as_a_structured_snapshot_error() {
    let betting_policy = BettingPolicy::new(RebateRule::NoRebate, 0.0);
    let kelly_policy = KellyPolicy::full(scale(), 100.0, 100.0).expect("金额上限应该合法");

    let result = decision_snapshot_from_weights(
        scale(),
        sample_weights(),
        standard(),
        &betting_policy,
        kelly_policy,
        0.0,
        &f64::sqrt,
    );

    assert_eq!(
        result,
        Err(SnapshotError::Kelly(KellyError::InvalidBankroll {
            value: 0.0
        }))
    );
}

#[test]
fn skip_snapshot_uses_null_for_uncomputed_kelly_fields() {
    let betting_policy = BettingPolicy::new(RebateRule::NoRebate, 0.6);
    let kelly_policy = KellyPolicy::full(scale(), 100.0, 100.0).expect("the policy is valid");
    let snapshot = decision_snapshot_from_weights(
        scale(),
        sample_weights(),
        standard(),
        &betting_policy,
        kelly_policy,
        1_000.0,
        &f64::sqrt,
    )
    .expect("a refused bet has a snapshot");

    assert_eq!(snapshot.candidate_bet, "tie");
    assert_eq!(snapshot.kelly_fraction, None);
    assert_eq!(snapshot.applied_fraction, None);
    assert_eq!(snapshot.suggested_amount, 0.0);
    assert_eq!(snapshot.expected_profit, 0.0);
    assert_eq!(snapshot.action, ActionSnapshot::Skip { reason: "below_minimum_ev" });
}

#[test]
fn json_field_names_and_action_tag_are_stable() {
    let betting_policy = BettingPolicy::new(RebateRule::NoRebate, 0.0);
    let kelly_policy = KellyPolicy::full(scale(), 40.0, 50.0).expect("金额上限应该合法");
    let snapshot = decision_snapshot_from_weights(
        scale(),
        sample_weights(),
        standard(),
        &betting_policy,
        kelly_policy,
        1_000.0,
        &f64::sqrt,
    )
    .expect("应该生成快照");

    assert_eq!(snapshot.schema_version, 1);
    assert_eq!(snapshot.engine_version, ENGINE_VERSION);
    assert_eq!(snapshot.candidate_bet, "tie");
    assert_eq!(snapshot.action, ActionSnapshot::Place { bet: "tie", amount: 40.0 });
    assert_close(snapshot.player.probability, 0.5);
    assert_close(snapshot.banker.probability, 1.0 / 3.0);
    assert_close(snapshot.tie.probability, 1.0 / 6.0);
    assert_close(snapshot.suggested_amount, 40.0);
    assert_close(snapshot.expected_profit, 20.0);
}

#[test]
fn a_shoe_with_too_few_cards_has_no_snapshot() {
    let cards: Vec<game_ev_engine::Card> =
        ["AS", "2H", "3D"].iter().map(|c| c.parse().expect("a card")).collect();
    let shoe = Shoe::from_remaining(8, &cards).expect("the cards fit into the shoe");
    let betting_policy = BettingPolicy::new(RebateRule::NoRebate, 0.0);
    let kelly_policy = KellyPolicy::full(scale(), 100.0, 100.0).expect("the policy is valid");
    assert_eq!(
        analyze_snapshot(
            scale(),
            &shoe,
            standard(),
            &betting_policy,
            kelly_policy,
            1_000.0,
            &f64::sqrt
        ),
        Err(SnapshotError::Probability(ProbabilityError::NotEnoughCards { remaining: 3 }))
    );
}
