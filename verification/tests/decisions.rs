use game_ev_engine::{
    BetAction, BetTarget, BettingPolicy, CombinedBetAction, MainBet, MainBetAnalysis,
    MainBetRules, OutcomeWeights, RebateRule, SideBet, SideBetAnalysis, SideBetRules,
    SideBetWeights, SkipReason,
};

fn assert_close(actual: f64, expected: f64) {
    assert!((actual - expected).abs() < 1e-12, "{actual} != {expected}");
}

fn sample_analysis() -> MainBetAnalysis<f64> {
    let weights =
        OutcomeWeights::from_weights(6, 360, 240, 120).expect("the weights make up all deals");
    MainBetAnalysis::from_weights(weights, MainBetRules::standard().per_unit())
}

fn side_analysis_with_positive_any_pair() -> SideBetAnalysis<f64> {
    let weights = SideBetWeights::new(
        100, 30, 0, 0, 0, 0, 0, 0, 0, 0, 0, 0, 0, 0, [0; 6], 0, [0; 6], 0,
    );
    SideBetAnalysis::calculate(weights, SideBetRules::default().per_unit())
}

#[test]
fn decide_places_the_best_effective_ev_when_it_reaches_threshold() {
    let analysis = sample_analysis();
    let rebate = RebateRule::AllExceptMainBetTie { rate: 0.015 };
    let policy = BettingPolicy::new(rebate, 0.5);

    let decision = policy.decide(analysis);

    // 这个测试数据下，Tie 的有效 EV 为 0.515，是三个下注中最大的。
    assert_eq!(decision.candidate, MainBet::Tie);
    assert_close(decision.base_ev, 0.5);
    assert_close(decision.rebate_ev, 0.015);
    assert_close(decision.effective_ev, 0.515);

    match &decision.action {
        BetAction::Place { bet } => assert_eq!(*bet, MainBet::Tie),
        BetAction::Skip { .. } => panic!("有效 EV 已达到门槛，应该允许下注"),
    }
}

#[test]
fn decide_skips_when_best_effective_ev_is_below_threshold() {
    let analysis = sample_analysis();
    let rebate = RebateRule::AllExceptMainBetTie { rate: 0.015 };
    let policy = BettingPolicy::new(rebate, 0.6);

    let decision = policy.decide(analysis);

    // 候选下注仍然是 Tie，但 0.515 小于 0.6，所以必须跳过。
    assert_eq!(decision.candidate, MainBet::Tie);

    match &decision.action {
        BetAction::Skip {
            reason:
                SkipReason::BelowMinimumEv {
                    effective_ev,
                    minimum_ev,
                },
        } => {
            assert_close(*effective_ev, 0.515);
            assert_close(*minimum_ev, 0.6);
        }
        BetAction::Place { .. } => panic!("有效 EV 低于门槛，不应该下注"),
    }
}

#[test]
fn decide_places_when_effective_ev_equals_threshold() {
    let analysis = sample_analysis();
    let rebate = RebateRule::AllExceptMainBetTie { rate: 0.015 };
    let threshold = analysis
        .effective_metrics(MainBet::Tie, rebate)
        .effective_ev();
    let policy = BettingPolicy::new(rebate, threshold);

    let decision = policy.decide(analysis);

    // 用同一个计算结果作为门槛，验证当前策略采用 >= 语义。
    match &decision.action {
        BetAction::Place { bet } => assert_eq!(*bet, MainBet::Tie),
        BetAction::Skip { .. } => panic!("有效 EV 等于门槛时应该允许下注"),
    }
}

#[test]
fn decide_all_can_select_a_side_bet_over_all_main_bets() {
    let policy = BettingPolicy::with_side_bet_minimum(RebateRule::NoRebate, 0.0, 0.0);
    let decision = policy.decide_all(sample_analysis(), side_analysis_with_positive_any_pair());

    assert_eq!(decision.candidate(), BetTarget::Side(SideBet::AnyPair));
    assert_close(decision.effective_ev(), 0.8);
    assert!(matches!(
        decision.action(),
        CombinedBetAction::Place {
            bet: BetTarget::Side(SideBet::AnyPair)
        }
    ));
}

#[test]
fn stricter_side_threshold_does_not_block_an_eligible_main_bet() {
    let policy = BettingPolicy::with_side_bet_minimum(RebateRule::NoRebate, 0.5, 0.9);
    let decision = policy.decide_all(sample_analysis(), side_analysis_with_positive_any_pair());

    // 任意对子 EV=0.8 高于和注 EV=0.5，但没有通过边注 0.9 门槛；
    // 和注已经通过主注 0.5 门槛，所以策略应下注和，而不是整局跳过。
    assert_eq!(decision.candidate(), BetTarget::Main(MainBet::Tie));
    assert!(matches!(
        decision.action(),
        CombinedBetAction::Place {
            bet: BetTarget::Main(MainBet::Tie)
        }
    ));
}

#[test]
fn eligible_bets_come_from_the_largest_value_to_the_smallest() {
    let policy = BettingPolicy::with_side_bet_minimum(RebateRule::NoRebate, -10.0, -10.0);
    let main = sample_analysis();
    let side = side_analysis_with_positive_any_pair();
    let mut allowed = [true; 11];
    allowed[SideBet::Big.index()] = false;
    let decisions = policy.eligible_all_with_side_bet_filter(main, side, allowed);

    assert_eq!(decisions.len(), 13);
    assert_eq!(decisions[0].candidate(), BetTarget::Side(SideBet::AnyPair));
    assert_eq!(decisions[1].candidate(), BetTarget::Main(MainBet::Tie));
    assert_eq!(decisions[2].candidate(), BetTarget::Main(MainBet::Player));
    assert_eq!(decisions[3].candidate(), BetTarget::Main(MainBet::Banker));
    for pair in decisions.windows(2) {
        assert!(pair[0].effective_ev() >= pair[1].effective_ev());
    }
    assert!(decisions.iter().all(|d| d.candidate() != BetTarget::Side(SideBet::Big)));
    let single = policy.decide_all_with_side_bet_filter(main, side, allowed);
    assert_eq!(single.candidate(), decisions[0].candidate());
}

#[test]
fn without_an_eligible_bet_the_best_one_is_named_and_not_made() {
    let policy = BettingPolicy::with_side_bet_minimum(RebateRule::NoRebate, 5.0, 5.0);
    let main = sample_analysis();
    let side = side_analysis_with_positive_any_pair();
    assert!(policy.eligible_all_with_side_bet_filter(main, side, [true; 11]).is_empty());

    let decision = policy.decide_all(main, side);
    assert_eq!(decision.candidate(), BetTarget::Side(SideBet::AnyPair));
    assert!(matches!(decision.action(), CombinedBetAction::Skip { .. }));
}

#[test]
fn a_policy_adds_its_own_rebate_to_every_bet() {
    let plain = BettingPolicy::new(RebateRule::NoRebate, 0.0);
    let raised = BettingPolicy::new(RebateRule::AllExceptMainBetTie { rate: 0.01 }, 0.0);
    let main = sample_analysis();
    let side = side_analysis_with_positive_any_pair();

    assert_close(plain.decide(main).effective_ev, 0.5);
    assert_close(raised.decide(main).effective_ev, 0.51);
    assert_close(plain.decide_all(main, side).effective_ev(), 0.8);
    assert_close(raised.decide_all(main, side).effective_ev(), 0.81);
    assert_close(raised.decide_all(main, side).rebate_ev(), 0.01);

    // 主注押庄、闲遇和局退注时没有返水，和局权重为 120/720。
    let every = BettingPolicy::new(raised.rebate(), -10.0);
    let all = every.eligible_all_with_side_bet_filter(main, side, [false; 11]);
    assert_eq!(all.len(), 3);
    assert_eq!(all[1].candidate(), BetTarget::Main(MainBet::Player));
    assert_close(all[1].rebate_ev(), 0.01 * 600.0 / 720.0);
}
