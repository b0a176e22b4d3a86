use game_ev_engine::baccarat::ev::{profit_of, rate_of};
use game_ev_engine::{
    analyze_main_bets, effective_ev, MainBet, MainBetAnalysis, MainBetEv, MainBetRules,
    OutcomeWeights, RebateRule, RoundOutcome, Settlement, Shoe,
};

fn assert_close(actual: f64, expected: f64) {
    assert!((actual - expected).abs() < 1e-12, "{actual} != {expected}");
}

fn standard() -> MainBetRules<f64> {
    MainBetRules::standard().per_unit()
}

fn no_commission() -> MainBetRules<f64> {
    MainBetRules::no_commission().per_unit()
}

fn profit(settlement: Settlement<f64>) -> f64 {
    profit_of(settlement)
}

fn rate(rate: Option<f64>) -> f64 {
    rate_of(rate)
}

#[test]
fn standard_rules_use_net_payouts() {
    let rules = standard();

    assert_eq!(rules.player_payout(), 1.0);
    assert_eq!(rules.banker_payout(), 0.95);
    assert_eq!(rules.tie_payout(), 8.0);
}

#[test]
fn custom_rules_can_change_each_net_payout() {
    let rules = MainBetRules::with_payouts(1.0, 1.0, 9.0);

    assert_eq!(rules.player_payout(), 1.0);
    assert_eq!(rules.banker_payout(), 1.0);
    assert_eq!(rules.tie_payout(), 9.0);
}

#[test]
fn no_commission_rules_pay_half_on_banker_six() {
    let rules = no_commission();

    assert_eq!(rules.banker_payout(), 1.0);
    assert_eq!(rules.banker_payout_for_total(5), 1.0);
    assert_eq!(rules.banker_payout_for_total(6), 0.5);
    assert_eq!(
        profit(rules.settle_with_banker_total(MainBet::Banker, RoundOutcome::Banker, 6)),
        0.5
    );
    assert_eq!(
        profit(rules.settle_with_banker_total(MainBet::Banker, RoundOutcome::Banker, 5)),
        1.0
    );
}

#[test]
fn settles_all_main_bet_outcome_combinations() {
    let rules = standard();
    let cases = [
        (MainBet::Player, RoundOutcome::Player, 1.0),
        (MainBet::Player, RoundOutcome::Banker, -1.0),
        (MainBet::Player, RoundOutcome::Tie, 0.0),
        (MainBet::Banker, RoundOutcome::Player, -1.0),
        (MainBet::Banker, RoundOutcome::Banker, 0.95),
        (MainBet::Banker, RoundOutcome::Tie, 0.0),
        (MainBet::Tie, RoundOutcome::Player, -1.0),
        (MainBet::Tie, RoundOutcome::Banker, -1.0),
        (MainBet::Tie, RoundOutcome::Tie, 8.0),
    ];

    for (bet, outcome, expected) in cases {
        assert_eq!(profit(rules.settle(bet, outcome)), expected);
    }
}

#[test]
fn no_rebate_rule_always_returns_zero() {
    let rule: RebateRule<f64> = RebateRule::NoRebate;

    for bet in [MainBet::Player, MainBet::Banker, MainBet::Tie] {
        for outcome in [
            RoundOutcome::Player,
            RoundOutcome::Banker,
            RoundOutcome::Tie,
        ] {
            assert_eq!(rate(rule.rate_for(bet, outcome)), 0.0);
        }
    }
}

#[test]
fn main_bets_do_not_receive_rebate_on_tie() {
    let rule = RebateRule::AllExceptMainBetTie { rate: 0.015 };

    assert_eq!(rate(rule.rate_for(MainBet::Player, RoundOutcome::Tie)), 0.0);
    assert_eq!(rate(rule.rate_for(MainBet::Banker, RoundOutcome::Tie)), 0.0);
}

#[test]
fn tie_bet_receives_rebate_for_all_outcomes() {
    let rule = RebateRule::AllExceptMainBetTie { rate: 0.015 };

    for outcome in [
        RoundOutcome::Player,
        RoundOutcome::Banker,
        RoundOutcome::Tie,
    ] {
        assert_eq!(rate(rule.rate_for(MainBet::Tie, outcome)), 0.015);
    }
}

#[test]
fn every_side_bet_outcome_receives_rebate() {
    let rule = RebateRule::AllExceptMainBetTie { rate: 0.015 };

    assert_eq!(rate(rule.rate_for_side_bet()), 0.015);
    assert_eq!(rate(RebateRule::<f64>::NoRebate.rate_for_side_bet()), 0.0);
}

#[test]
fn complete_shoe_analysis_exposes_python_facing_metrics() {
    let analysis = analyze_main_bets(&Shoe::default(), standard())
        .expect("完整八副牌应能够完成主注分析");

    assert_close(analysis.player().probability(), 0.446246609344);
    assert_close(analysis.banker().probability(), 0.458597422633);
    assert_close(analysis.tie().probability(), 0.095155968024);

    for bet in [MainBet::Player, MainBet::Banker, MainBet::Tie] {
        let metrics = analysis.metrics(bet);
        assert_close(metrics.house_edge(), -metrics.ev());
        assert_close(metrics.rtp(), 1.0 + metrics.ev());
    }

    assert_eq!(analysis.optimal_bet(), MainBet::Banker);
    assert_eq!(analysis.optimal_bet().as_str(), "banker");
    assert_close(analysis.optimal_ev(), analysis.banker().ev());
}

#[test]
fn optimal_bet_uses_the_largest_ev_not_the_largest_probability() {
    let weights =
        OutcomeWeights::from_weights(6, 360, 240, 120).expect("测试权重应构成完整分布");
    let analysis = MainBetAnalysis::from_weights(weights, standard());

    assert_eq!(analysis.optimal_bet(), MainBet::Tie);
    assert_close(analysis.optimal_ev(), 0.5);
}

#[test]
fn effective_ev_weights_rebate_by_possible_outcome() {
    let weights =
        OutcomeWeights::from_weights(6, 360, 240, 120).expect("测试权重应构成完整分布");
    let analysis = MainBetAnalysis::from_weights(weights, standard());
    let rebate = RebateRule::AllExceptMainBetTie { rate: 0.015 };

    // Player/Banker 遇到 Tie 没有返水，因此返水期望是：
    // 0.015 × (P(Player) + P(Banker))
    // = 0.015 × (1/2 + 1/3)
    // = 0.0125。
    let player = effective_ev(analysis, MainBet::Player, rebate);
    assert_close(player.probability(), 0.5);
    assert_close(player.base_ev(), 1.0 / 6.0);
    assert_close(player.rebate_ev(), 0.0125);
    assert_close(player.effective_ev(), 1.0 / 6.0 + 0.0125);

    let banker = effective_ev(analysis, MainBet::Banker, rebate);
    assert_close(banker.base_ev(), -11.0 / 60.0);
    assert_close(banker.rebate_ev(), 0.0125);
    assert_close(banker.effective_ev(), -11.0 / 60.0 + 0.0125);

    // 按当前规则，Tie 注三种结果都有返水，所以返水期望就是完整 rate。
    let tie = effective_ev(analysis, MainBet::Tie, rebate);
    assert_close(tie.base_ev(), 0.5);
    assert_close(tie.rebate_ev(), 0.015);
    assert_close(tie.effective_ev(), 0.515);
}

#[test]
fn calculates_ev_from_outcome_weights() {
    let weights =
        OutcomeWeights::from_weights(6, 360, 240, 120).expect("测试权重应构成完整分布");
    let result = MainBetEv::calculate(weights, standard());

    assert_close(result.player_ev(), 1.0 / 6.0);
    assert_close(result.banker_ev(), -11.0 / 60.0);
    assert_close(result.tie_ev(), 0.5);
}

#[test]
fn derives_house_edge_and_rtp_from_net_ev() {
    let weights =
        OutcomeWeights::from_weights(6, 360, 240, 120).expect("测试权重应构成完整分布");
    let result = MainBetEv::calculate(weights, standard());

    assert_close(result.ev(MainBet::Player), 1.0 / 6.0);
    assert_close(result.house_edge(MainBet::Player), -1.0 / 6.0);
    assert_close(result.return_to_player(MainBet::Player), 7.0 / 6.0);

    assert_close(result.house_edge(MainBet::Banker), 11.0 / 60.0);
    assert_close(result.return_to_player(MainBet::Banker), 49.0 / 60.0);

    assert_close(result.house_edge(MainBet::Tie), -0.5);
    assert_close(result.return_to_player(MainBet::Tie), 1.5);
}

#[test]
fn custom_payouts_change_ev_without_changing_probabilities() {
    let weights =
        OutcomeWeights::from_weights(6, 360, 240, 120).expect("测试权重应构成完整分布");
    let result = MainBetEv::calculate(weights, MainBetRules::with_payouts(1.0, 1.0, 9.0));

    assert_close(result.player_ev(), 1.0 / 6.0);
    assert_close(result.banker_ev(), -1.0 / 6.0);
    assert_close(result.tie_ev(), 2.0 / 3.0);
}

#[test]
fn no_commission_ev_applies_half_payout_to_banker_six_only() {
    let weights = OutcomeWeights::from_detailed_weights(6, 360, 240, 120, 60)
        .expect("测试权重应构成完整分布");
    let result = MainBetEv::calculate(weights, no_commission());

    assert_close(result.player_ev(), 1.0 / 6.0);
    assert_close(result.banker_ev(), -5.0 / 24.0);
    assert_close(result.tie_ev(), 0.5);
}
