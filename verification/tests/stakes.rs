use game_ev_engine::{
    calculate_kelly_fraction, calculate_main_outcomes, main_bet_kelly_outcomes,
    side_bet_kelly_outcomes, side_bet_kelly_outcomes_with_rebate, BetPlanAction,
    BetPlanSkipReason, BetTarget, BettingPolicy, CombinedBetPlanAction, KellyError, KellyOutcome,
    KellyPolicy, MainBet, MainBetAnalysis, MainBetRules, OutcomeWeights, RebateRule, Scale, Shoe,
    SideBet, SideBetAnalysis, SideBetRules, SideBetWeights, StakeSizingStrategy,
};

fn assert_close(actual: f64, expected: f64) {
    assert!((actual - expected).abs() < 1e-10, "{actual} != {expected}");
}

fn sample_weights() -> OutcomeWeights {
    OutcomeWeights::from_weights(6, 360, 240, 120).expect("the weights make up all deals")
}

fn scale() -> Scale<f64> {
    Scale { least: f64::MIN, zero: 0.0, one: 1.0, largest: f64::MAX }
}

fn standard() -> MainBetRules<f64> {
    MainBetRules::standard().per_unit()
}

fn no_commission() -> MainBetRules<f64> {
    MainBetRules::no_commission().per_unit()
}

fn side_rules() -> SideBetRules<f64> {
    SideBetRules::default().per_unit()
}

#[test]
fn binary_even_money_example_returns_ten_percent() {
    let outcomes = vec![KellyOutcome::new(0.55, 1.0), KellyOutcome::new(0.45, -1.0)];

    // 1:1 赔率下，简化公式为 p-q，因此 55% 对 45% 的完整凯利是 10%。
    let fraction = calculate_kelly_fraction(scale(), &outcomes, 1.0).expect("分布合法");
    assert_close(fraction, 0.10);
}

#[test]
fn non_positive_ev_never_places_capital_at_risk() {
    let outcomes = vec![KellyOutcome::new(0.50, 1.0), KellyOutcome::new(0.50, -1.0)];

    assert_eq!(
        calculate_kelly_fraction(scale(), &outcomes, 1.0).expect("分布合法"),
        0.0
    );
}

#[test]
fn push_probability_is_part_of_the_full_distribution() {
    let outcomes = vec![
        KellyOutcome::new(0.55, 1.0),
        KellyOutcome::new(0.40, -1.0),
        KellyOutcome::new(0.05, 0.0),
    ];

    let fraction = calculate_kelly_fraction(scale(), &outcomes, 1.0).expect("分布合法");
    assert_close(fraction, (0.55 - 0.40) / (0.55 + 0.40));
}

#[test]
fn baccarat_outcome_ev_matches_the_existing_effective_ev_layer() {
    let weights = OutcomeWeights::from_detailed_weights(6, 360, 240, 120, 60)
        .expect("测试权重应该构成完整分布");
    let rebate = RebateRule::AllExceptMainBetTie { rate: 0.015 };

    for rules in [standard(), no_commission()] {
        let analysis = MainBetAnalysis::from_weights(weights, rules);

        for bet in [MainBet::Player, MainBet::Banker, MainBet::Tie] {
            let outcomes = main_bet_kelly_outcomes(weights, rules, rebate, bet);
            let outcome_ev: f64 = outcomes
                .iter()
                .map(|outcome| outcome.probability() * outcome.net_profit())
                .sum();

            assert_close(
                outcome_ev,
                analysis.effective_metrics(bet, rebate).effective_ev(),
            );
        }
    }
}

#[test]
fn banker_outcomes_keep_six_point_half_payout_separate() {
    let weights = OutcomeWeights::from_detailed_weights(6, 360, 240, 120, 60)
        .expect("测试权重应该构成完整分布");
    let outcomes = main_bet_kelly_outcomes(
        weights,
        no_commission(),
        RebateRule::NoRebate,
        MainBet::Banker,
    );

    assert_eq!(outcomes.len(), 4);
    assert_close(outcomes[1].probability(), 0.25);
    assert_close(outcomes[1].net_profit(), 1.0);
    assert_close(outcomes[2].probability(), 1.0 / 12.0);
    assert_close(outcomes[2].net_profit(), 0.5);
}

#[test]
fn plan_uses_direction_policy_then_applies_money_limits() {
    let weights = sample_weights();
    let betting_policy = BettingPolicy::new(RebateRule::NoRebate, 0.0);
    let kelly_policy = KellyPolicy::full(scale(), 40.0, 50.0).expect("资金上限合法");

    let plan = kelly_policy
        .plan(scale(), &betting_policy, weights, standard(), 1_000.0, &f64::sqrt)
        .expect("应生成下注计划");
    let quote = plan.quote().expect("通过 EV 门槛后应该有凯利报价");

    // 此测试分布下 Tie 的 EV 为 0.5，完整凯利比例为 1/16。
    // 1000 × 1/16 = 62.5，但单局上限 40 更低，因此最终下 40。
    assert_eq!(quote.bet(), BetTarget::Main(MainBet::Tie));
    assert_close(quote.effective_ev(), 0.5);
    assert_close(quote.kelly_fraction(), 1.0 / 16.0);
    assert_close(quote.applied_fraction(), 0.04);
    assert_close(quote.amount(), 40.0);
    assert_close(quote.expected_profit(), 20.0);

    match plan.action() {
        BetPlanAction::Place { bet, amount } => {
            assert_eq!(*bet, MainBet::Tie);
            assert_close(*amount, 40.0);
        }
        BetPlanAction::Skip { .. } => panic!("正 EV 且金额上限大于零时应该下注"),
    }
}

#[test]
fn plan_preserves_a_strategy_skip() {
    let betting_policy = BettingPolicy::new(RebateRule::NoRebate, 0.6);
    let kelly_policy = KellyPolicy::full(scale(), 100.0, 100.0).expect("资金上限合法");

    let plan = kelly_policy
        .plan(
            scale(),
            &betting_policy,
            sample_weights(),
            standard(),
            1_000.0,
            &f64::sqrt,
        )
        .expect("应生成跳过计划");

    assert!(plan.quote().is_none());
    assert!(matches!(
        plan.action(),
        BetPlanAction::Skip {
            reason: BetPlanSkipReason::Strategy(_)
        }
    ));
}

#[test]
fn complete_eight_deck_shoe_with_rebate_produces_a_positive_banker_plan() {
    let weights = calculate_main_outcomes(&Shoe::default()).expect("完整八副牌应该能够枚举");
    let betting_policy =
        BettingPolicy::new(RebateRule::AllExceptMainBetTie { rate: 0.015 }, 0.0);
    let kelly_policy = KellyPolicy::full(scale(), 10_000.0, 10_000.0).expect("资金上限合法");

    let plan = kelly_policy
        .plan(scale(), &betting_policy, weights, standard(), 10_000.0, &f64::sqrt)
        .expect("完整牌靴应该生成下注计划");
    let quote = plan.quote().expect("1.5% 返水下应该通过零 EV 门槛");

    assert_eq!(quote.bet(), BetTarget::Main(MainBet::Banker));
    assert!(quote.effective_ev() > 0.0);
    assert!(quote.kelly_fraction() > 0.0);
    assert!(quote.amount() > 0.0);
    assert!(matches!(
        plan.action(),
        BetPlanAction::Place {
            bet: MainBet::Banker,
            amount
        } if *amount > 0.0
    ));
}

#[test]
fn fractional_kelly_scales_the_target_before_limits_are_applied() {
    let weights = sample_weights();
    let full =
        KellyPolicy::with_strategy(scale(), StakeSizingStrategy::FullKelly, 1.0, 10_000.0, 10_000.0)
            .expect("完整凯利配置合法")
            .quote(
            scale(),
            weights,
            standard(),
            RebateRule::NoRebate,
            MainBet::Tie,
            1_000.0,
            &f64::sqrt,
        )
            .expect("完整凯利报价合法");
    let half =
        KellyPolicy::with_strategy(scale(), StakeSizingStrategy::HalfKelly, 1.0, 10_000.0, 10_000.0)
            .expect("半凯利配置合法")
            .quote(
            scale(),
            weights,
            standard(),
            RebateRule::NoRebate,
            MainBet::Tie,
            1_000.0,
            &f64::sqrt,
        )
            .expect("半凯利报价合法");

    assert_close(half.kelly_fraction(), full.kelly_fraction());
    assert_close(half.strategy_fraction(), full.kelly_fraction() * 0.5);
    assert_close(half.amount(), full.amount() * 0.5);
}

#[test]
fn custom_kelly_accepts_an_arbitrary_safe_fraction() {
    let weights = sample_weights();
    let full =
        KellyPolicy::with_strategy(scale(), StakeSizingStrategy::FullKelly, 1.0, 10_000.0, 10_000.0)
            .expect("完整凯利配置合法")
            .quote(
            scale(),
            weights,
            standard(),
            RebateRule::NoRebate,
            MainBet::Tie,
            1_000.0,
            &f64::sqrt,
        )
            .expect("完整凯利报价合法");
    let custom = KellyPolicy::with_strategy(scale(), 
        StakeSizingStrategy::CustomKelly { fraction: 0.3 },
        1.0,
        10_000.0,
        10_000.0,
    )
    .expect("三成凯利配置合法")
    .quote(
            scale(),
            weights,
            standard(),
            RebateRule::NoRebate,
            MainBet::Tie,
            1_000.0,
            &f64::sqrt,
        )
    .expect("三成凯利报价合法");

    assert_close(custom.strategy_fraction(), full.kelly_fraction() * 0.3);
    assert_close(custom.amount(), full.amount() * 0.3);
}

#[test]
fn non_kelly_strategies_convert_their_objective_into_a_stake() {
    let weights = sample_weights();
    let fixed_fraction = KellyPolicy::with_strategy(scale(), 
        StakeSizingStrategy::FixedBankrollFraction { fraction: 0.02 },
        1.0,
        10_000.0,
        10_000.0,
    )
    .expect("固定本金比例配置合法")
    .quote(
            scale(),
            weights,
            standard(),
            RebateRule::NoRebate,
            MainBet::Tie,
            1_000.0,
            &f64::sqrt,
        )
    .expect("固定本金比例报价合法");
    assert_close(fixed_fraction.strategy_fraction(), 0.02);
    assert_close(fixed_fraction.amount(), 20.0);

    // 测试分布中的和注 EV 为 0.5。若目标期望盈利是 10，所需下注额为
    // 10 / 0.5 = 20，因此同样占 1000 本金的 2%。
    let target_profit = KellyPolicy::with_strategy(scale(), 
        StakeSizingStrategy::TargetExpectedProfit { amount: 10.0 },
        1.0,
        10_000.0,
        10_000.0,
    )
    .expect("目标期望盈利配置合法")
    .quote(
            scale(),
            weights,
            standard(),
            RebateRule::NoRebate,
            MainBet::Tie,
            1_000.0,
            &f64::sqrt,
        )
    .expect("目标期望盈利报价合法");
    assert_close(target_profit.strategy_fraction(), 0.02);
    assert_close(target_profit.amount(), 20.0);

    let target_volatility = KellyPolicy::with_strategy(scale(), 
        StakeSizingStrategy::TargetVolatility { fraction: 0.01 },
        1.0,
        10_000.0,
        10_000.0,
    )
    .expect("目标波动率配置合法")
    .quote(
            scale(),
            weights,
            standard(),
            RebateRule::NoRebate,
            MainBet::Tie,
            1_000.0,
            &f64::sqrt,
        )
    .expect("目标波动率报价合法");
    assert!(target_volatility.amount() > 0.0);
    assert!(target_volatility.amount() < 1_000.0);
}

#[test]
fn percentage_strategy_parameters_must_be_between_zero_and_one() {
    assert!(
        KellyPolicy::with_strategy(scale(), 
            StakeSizingStrategy::FixedBankrollFraction { fraction: 1.01 },
            1.0,
            100.0,
            100.0,
        )
        .is_err()
    );
    assert!(
        KellyPolicy::with_strategy(scale(), 
            StakeSizingStrategy::CustomKelly { fraction: f64::NAN },
            1.0,
            100.0,
            100.0,
        )
        .is_err()
    );
}

#[test]
fn fixed_stake_is_clipped_by_the_same_risk_limits() {
    let quote = KellyPolicy::with_strategy(scale(), 
        StakeSizingStrategy::Fixed { amount: 100.0 },
        1.0,
        80.0,
        90.0,
    )
    .expect("固定金额配置合法")
    .quote(
            scale(),
            sample_weights(),
            standard(),
            RebateRule::NoRebate,
            MainBet::Tie,
            1_000.0,
            &f64::sqrt,
        )
    .expect("固定金额报价合法");

    assert_close(quote.strategy_fraction(), 0.1);
    assert_close(quote.applied_fraction(), 0.08);
    assert_close(quote.amount(), 80.0);
}

#[test]
fn invalid_fixed_stake_is_rejected_at_configuration_time() {
    assert!(
        KellyPolicy::with_strategy(scale(), 
            StakeSizingStrategy::Fixed { amount: -1.0 },
            1.0,
            100.0,
            100.0,
        )
        .is_err()
    );
}

#[test]
fn side_bet_kelly_uses_tier_distribution_and_the_side_limit() {
    let weights = SideBetWeights::new(
        100, 30, 0, 0, 0, 0, 0, 0, 0, 0, 0, 0, 0, 0, [0; 6], 0, [0; 6], 0,
    );
    let rules = side_rules();
    let outcomes = side_bet_kelly_outcomes(weights, rules, SideBet::AnyPair);
    let analysis = SideBetAnalysis::calculate(weights, rules);
    let outcome_ev = outcomes
        .iter()
        .map(|outcome| outcome.probability() * outcome.net_profit())
        .sum::<f64>();
    assert_close(outcome_ev, analysis.metrics(SideBet::AnyPair).ev());

    let quote = KellyPolicy::full(scale(), 500.0, 1_000.0)
        .and_then(|policy| policy.with_side_bet_limit(scale(), 25.0))
        .expect("边注限额应该合法")
        .quote_side(scale(), weights, rules, SideBet::AnyPair, 1_000.0, &f64::sqrt)
        .expect("正 EV 边注应该得到凯利报价");

    assert_eq!(quote.bet(), BetTarget::Side(SideBet::AnyPair));
    assert_close(quote.amount(), 25.0);
}

#[test]
fn side_bet_kelly_distribution_adds_rebate_to_every_outcome() {
    let weights = SideBetWeights::new(
        100, 30, 0, 0, 0, 0, 0, 0, 0, 0, 0, 0, 0, 0, [0; 6], 0, [0; 6], 0,
    );
    let rules = side_rules();
    let rebate = RebateRule::AllExceptMainBetTie { rate: 0.02 };
    let base = side_bet_kelly_outcomes(weights, rules, SideBet::AnyPair);
    let with_rebate =
        side_bet_kelly_outcomes_with_rebate(weights, rules, rebate, SideBet::AnyPair);

    assert_eq!(base.len(), with_rebate.len());
    for (base_outcome, rebate_outcome) in base.iter().zip(&with_rebate) {
        assert_close(base_outcome.probability(), rebate_outcome.probability());
        assert_close(
            rebate_outcome.net_profit(),
            base_outcome.net_profit() + 0.02,
        );
    }

    let analysis = SideBetAnalysis::calculate(weights, rules);
    let effective_ev = with_rebate
        .iter()
        .map(|outcome| outcome.probability() * outcome.net_profit())
        .sum::<f64>();
    assert_close(effective_ev, analysis.metrics(SideBet::AnyPair).ev() + 0.02);
}

#[test]
fn multiple_plans_share_the_common_round_risk_limit() {
    let side_weights = SideBetWeights::new(
        100, 30, 0, 0, 0, 0, 0, 0, 0, 0, 0, 0, 0, 0, [0; 6], 0, [0; 6], 0,
    );
    let betting_policy = BettingPolicy::with_side_bet_minimum(RebateRule::NoRebate, 0.2, 0.0);
    let kelly_policy = KellyPolicy::with_strategy(scale(), 
        StakeSizingStrategy::Fixed { amount: 100.0 },
        1.0,
        100.0,
        1_000.0,
    )
    .and_then(|policy| policy.with_side_bet_limit(scale(), 100.0))
    .expect("多注测试的金额配置应该合法");

    let plans = kelly_policy
        .plan_all_multiple_with_side_bet_filter(
            scale(),
            &betting_policy,
            sample_weights(),
            standard(),
            side_weights,
            side_rules(),
            1_000.0,
            [true; 11],
            &f64::sqrt,
        )
        .expect("应该为所有合格目标生成计划");

    assert_eq!(plans.len(), 2);
    let total: f64 = plans
        .iter()
        .map(|plan| match plan.action() {
            CombinedBetPlanAction::Place { amount, .. } => *amount,
            CombinedBetPlanAction::Skip { .. } => 0.0,
        })
        .sum();
    assert_close(total, 100.0);
    for plan in plans {
        assert!(matches!(
            plan.action(),
            CombinedBetPlanAction::Place { amount, .. } if (*amount - 50.0).abs() < 1e-10
        ));
    }
}

#[test]
fn dragon_bonus_kelly_distribution_keeps_natural_push_and_matches_ev() {
    let weights = SideBetWeights::new(
        100,
        0,
        0,
        0,
        0,
        0,
        0,
        0,
        0,
        0,
        0,
        0,
        0,
        0,
        [10, 5, 3, 2, 1, 1],
        8,
        [0; 6],
        0,
    );
    let rules = side_rules();
    let outcomes = side_bet_kelly_outcomes(weights, rules, SideBet::BankerDragonBonus);
    let analysis = SideBetAnalysis::calculate(weights, rules);
    let outcome_ev = outcomes
        .iter()
        .map(|outcome| outcome.probability() * outcome.net_profit())
        .sum::<f64>();

    assert_close(
        outcome_ev,
        analysis.metrics(SideBet::BankerDragonBonus).ev(),
    );
    assert!(outcomes.iter().any(|outcome| {
        outcome.net_profit() == 0.0 && (outcome.probability() - 0.08).abs() < 1e-12
    }));
}

#[test]
fn results_that_are_no_distribution_are_refused() {
    let none: Vec<KellyOutcome<f64>> = vec![];
    assert_eq!(calculate_kelly_fraction(scale(), &none, 1.0), Err(KellyError::EmptyOutcomes));
    let negative = vec![KellyOutcome::new(1.2, 1.0), KellyOutcome::new(-0.2, -1.0)];
    assert_eq!(
        calculate_kelly_fraction(scale(), &negative, 1.0),
        Err(KellyError::InvalidProbability { index: 1, value: -0.2 })
    );
    let endless = vec![KellyOutcome::new(0.5, f64::INFINITY), KellyOutcome::new(0.5, -1.0)];
    assert_eq!(
        calculate_kelly_fraction(scale(), &endless, 1.0),
        Err(KellyError::InvalidNetProfit { index: 0, value: f64::INFINITY })
    );
    let half = vec![KellyOutcome::new(0.25, 1.0), KellyOutcome::new(0.25, -1.0)];
    assert_eq!(
        calculate_kelly_fraction(scale(), &half, 1.0),
        Err(KellyError::ProbabilitySumNotOne { actual: 0.5 })
    );
    let even = vec![KellyOutcome::new(0.55, 1.0), KellyOutcome::new(0.45, -1.0)];
    assert_eq!(
        calculate_kelly_fraction(scale(), &even, 1.5),
        Err(KellyError::InvalidMaxFraction { value: 1.5 })
    );
    assert_eq!(calculate_kelly_fraction(scale(), &even, 0.0), Ok(0.0));
    assert_eq!(calculate_kelly_fraction(scale(), &even, 0.05), Ok(0.05));
}

#[test]
fn a_sure_profit_uses_all_that_is_allowed() {
    let sure = vec![KellyOutcome::new(0.5, 1.0), KellyOutcome::new(0.5, 0.5)];
    assert_eq!(calculate_kelly_fraction(scale(), &sure, 0.75), Ok(0.75));
}

#[test]
fn growth_turns_at_the_best_fraction() {
    let outcomes = vec![
        KellyOutcome::new(0.3, 2.0),
        KellyOutcome::new(0.3, 0.5),
        KellyOutcome::new(0.4, -1.0),
    ];
    let best = calculate_kelly_fraction(scale(), &outcomes, 1.0).expect("a distribution");
    let slope = |f: f64| -> f64 {
        outcomes
            .iter()
            .map(|o| o.probability() * o.net_profit() / (1.0 + f * o.net_profit()))
            .sum()
    };
    assert!(slope(best - 1e-9) > 0.0);
    assert!(slope(best + 1e-9) < 0.0);
}

#[test]
fn a_volatility_target_divides_by_the_standard_deviation() {
    let quote = KellyPolicy::with_strategy(
        scale(),
        StakeSizingStrategy::TargetVolatility { fraction: 0.01 },
        1.0,
        10_000.0,
        10_000.0,
    )
    .expect("the policy is valid")
    .quote(
        scale(),
        sample_weights(),
        standard(),
        RebateRule::NoRebate,
        MainBet::Tie,
        1_000.0,
        &f64::sqrt,
    )
    .expect("the stake can be quoted");
    // The tie wins 8 with 1/6 and loses 1 with 5/6: its variance is 11.25.
    assert_close(quote.strategy_fraction(), 0.01 / 11.25_f64.sqrt());
    assert_close(quote.amount(), 10.0 / 11.25_f64.sqrt());
}

#[test]
fn limits_and_bankrolls_that_are_no_amounts_are_refused() {
    assert_eq!(
        KellyPolicy::new(scale(), 1.5, 1.0, 1.0),
        Err(KellyError::InvalidMaxFraction { value: 1.5 })
    );
    assert_eq!(
        KellyPolicy::full(scale(), -1.0, 1.0),
        Err(KellyError::InvalidMaxRoundStake { value: -1.0 })
    );
    assert_eq!(
        KellyPolicy::full(scale(), 1.0, f64::INFINITY),
        Err(KellyError::InvalidTableLimit { value: f64::INFINITY })
    );
    assert_eq!(
        KellyPolicy::full(scale(), 1.0, 1.0).and_then(|p| p.with_side_bet_limit(scale(), -2.0)),
        Err(KellyError::InvalidSideBetLimit { value: -2.0 })
    );
    assert_eq!(
        KellyPolicy::with_strategy(
            scale(),
            StakeSizingStrategy::Fixed { amount: -1.0 },
            1.0,
            1.0,
            1.0
        ),
        Err(KellyError::InvalidFixedStake { value: -1.0 })
    );
    assert!(matches!(
        KellyPolicy::with_strategy(
            scale(),
            StakeSizingStrategy::CustomKelly { fraction: 2.0 },
            1.0,
            1.0,
            1.0
        ),
        Err(KellyError::InvalidStrategyParameter { .. })
    ));
    let policy = KellyPolicy::full(scale(), 1.0, 1.0).expect("the policy is valid");
    let betting = BettingPolicy::new(RebateRule::NoRebate, 0.0);
    assert_eq!(
        policy.plan(scale(), &betting, sample_weights(), standard(), -5.0, &f64::sqrt),
        Err(KellyError::InvalidBankroll { value: -5.0 })
    );
}

#[test]
fn a_limit_of_zero_stops_the_bet() {
    let policy = KellyPolicy::full(scale(), 0.0, 100.0).expect("the policy is valid");
    let betting = BettingPolicy::new(RebateRule::NoRebate, 0.0);
    let plan = policy
        .plan(scale(), &betting, sample_weights(), standard(), 1_000.0, &f64::sqrt)
        .expect("the plan can be made");
    assert_eq!(
        *plan.action(),
        BetPlanAction::Skip { reason: BetPlanSkipReason::RiskLimitIsZero }
    );
}

#[test]
fn a_losing_bet_that_is_allowed_gets_no_kelly_stake() {
    let weights =
        OutcomeWeights::from_weights(6, 350, 350, 20).expect("the weights make up all deals");
    let policy = KellyPolicy::full(scale(), 100.0, 100.0).expect("the policy is valid");
    let betting = BettingPolicy::new(RebateRule::NoRebate, -5.0);
    let plan = policy
        .plan(scale(), &betting, weights, standard(), 1_000.0, &f64::sqrt)
        .expect("the plan can be made");
    assert_eq!(
        *plan.action(),
        BetPlanAction::Skip { reason: BetPlanSkipReason::NonPositiveKelly }
    );
}

#[test]
fn a_single_plan_picks_the_best_of_all_bets() {
    let side_weights = SideBetWeights::new(
        100, 30, 0, 0, 0, 0, 0, 0, 0, 0, 0, 0, 0, 0, [0; 6], 0, [0; 6], 0,
    );
    let betting = BettingPolicy::with_side_bet_minimum(RebateRule::NoRebate, 0.2, 0.0);
    let policy = KellyPolicy::full(scale(), 100.0, 1_000.0)
        .and_then(|policy| policy.with_side_bet_limit(scale(), 30.0))
        .expect("the policy is valid");
    let plan = policy
        .plan_all(
            scale(),
            &betting,
            sample_weights(),
            standard(),
            side_weights,
            side_rules(),
            1_000.0,
            &f64::sqrt,
        )
        .expect("the plan can be made");
    assert_eq!(
        *plan.action(),
        CombinedBetPlanAction::Place { bet: BetTarget::Side(SideBet::AnyPair), amount: 30.0 }
    );
    let mut allowed = [true; 11];
    allowed[SideBet::AnyPair.index()] = false;
    let plan = policy
        .plan_all_with_side_bet_filter(
            scale(),
            &betting,
            sample_weights(),
            standard(),
            side_weights,
            side_rules(),
            1_000.0,
            allowed,
            &f64::sqrt,
        )
        .expect("the plan can be made");
    assert!(matches!(
        plan.action(),
        CombinedBetPlanAction::Place { bet: BetTarget::Main(MainBet::Tie), .. }
    ));
}

#[test]
fn a_kelly_fraction_stays_within_its_limits() {
    for step in 0..=20 {
        let chance = f64::from(step) / 20.0;
        let outcomes = vec![KellyOutcome::new(chance, 2.0), KellyOutcome::new(1.0 - chance, -1.0)];
        for limit in [0.0, 0.05, 0.5, 1.0] {
            let fraction =
                calculate_kelly_fraction(scale(), &outcomes, limit).expect("a distribution");
            assert!((0.0..=limit).contains(&fraction), "{fraction} is not within {limit}");
        }
    }
}
