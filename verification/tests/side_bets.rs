use game_ev_engine::baccarat::ev::profit_of;
use game_ev_engine::{
    calculate_side_bet_outcomes, resolve_round, Card, RebateRule, RoundResult, Scale, Shoe,
    SideBet, SideBetAnalysis, SideBetRuleError, SideBetRules, SideBetWeights,
};

fn assert_close(actual: f64, expected: f64, tolerance: f64) {
    assert!(
        (actual - expected).abs() <= tolerance,
        "{actual} differs from {expected} by more than {tolerance}"
    );
}

fn round(input: &str) -> RoundResult {
    let cards = input
        .split_whitespace()
        .map(|card| card.parse::<Card>().expect("the card is valid"))
        .collect::<Vec<_>>();
    resolve_round(&cards).expect("the round is complete")
}

fn scale() -> Scale<f64> {
    Scale { least: f64::MIN, zero: 0.0, one: 1.0, largest: f64::MAX }
}

fn side_rules() -> SideBetRules<f64> {
    SideBetRules::default().per_unit()
}

fn analyze(weights: SideBetWeights, rules: SideBetRules<f64>) -> SideBetAnalysis<f64> {
    SideBetAnalysis::calculate(weights, rules)
}

#[test]
fn complete_eight_deck_shoe_matches_the_published_paytable_rtp() {
    let weights =
        calculate_side_bet_outcomes(&Shoe::default()).expect("完整八副牌应该能枚举边注");
    let analysis = analyze(weights, side_rules());

    // 这些四舍五入到百分比后分别对应规则表中的 89.64%、81.70%、85.16%。
    assert_close(
        analysis.metrics(SideBet::BankerPair).rtp(),
        0.8964,
        0.000_05,
    );
    assert_close(
        analysis.metrics(SideBet::PlayerPair).rtp(),
        0.8964,
        0.000_05,
    );
    assert_close(
        analysis.metrics(SideBet::PerfectPair).probability(),
        0.033_450_234_245_752_35,
        1e-15,
    );
    assert_close(
        analysis.metrics(SideBet::PerfectPair).rtp(),
        0.869_706_090_389_561_1,
        1e-12,
    );
    assert_close(
        analysis.metrics(SideBet::Big).probability(),
        0.621_131_509_119_718_4,
        1e-15,
    );
    assert_close(
        analysis.metrics(SideBet::Big).rtp(),
        0.931_697_263_679_577_6,
        1e-12,
    );
    assert_close(
        analysis.metrics(SideBet::Small).probability(),
        0.378_868_490_880_281_57,
        1e-15,
    );
    assert_close(
        analysis.metrics(SideBet::Small).rtp(),
        0.947_171_227_200_703_9,
        1e-12,
    );
    assert_close(
        analysis.metrics(SideBet::LuckySeven).rtp(),
        0.8170,
        0.000_05,
    );
    assert_close(
        analysis.metrics(SideBet::SuperLuckySeven).rtp(),
        0.8516,
        0.000_1,
    );
    assert!(analysis.metrics(SideBet::LuckySix).probability() > 0.0);
    assert!(analysis.metrics(SideBet::BankerDragonBonus).probability() > 0.0);
    assert!(analysis.metrics(SideBet::PlayerDragonBonus).probability() > 0.0);
}

#[test]
fn any_pair_is_the_union_not_the_sum_of_both_pair_probabilities() {
    let weights =
        calculate_side_bet_outcomes(&Shoe::default()).expect("完整八副牌应该能枚举边注");
    let any = weights.probability::<f64>(SideBet::AnyPair);
    let banker = weights.probability::<f64>(SideBet::BankerPair);
    let player = weights.probability::<f64>(SideBet::PlayerPair);

    assert_eq!(banker, player);
    assert!(any > banker);
    assert!(any < banker + player);
}

#[test]
fn perfect_pair_uses_exact_card_identity_and_is_impossible_in_one_deck() {
    let eight_deck_weights =
        calculate_side_bet_outcomes(&Shoe::default()).expect("完整八副牌应该能枚举边注");
    let probability = eight_deck_weights.probability::<f64>(SideBet::PerfectPair);

    // 单方完美对概率为 7/415；本边注同时覆盖庄、闲任一方，并用容斥法
    // 扣除双方同时命中的重叠，所以应低于简单的两倍。
    assert!(probability > 7.0 / 415.0);
    assert!(probability < 2.0 * 7.0 / 415.0);

    let one_deck = Shoe::new(1).expect("一副牌应该合法");
    let one_deck_weights =
        calculate_side_bet_outcomes(&one_deck).expect("完整一副牌应该能枚举边注");
    assert_eq!(one_deck_weights.probability::<f64>(SideBet::PerfectPair), 0.0);
}

#[test]
fn big_and_small_are_mutually_exclusive_and_cover_every_round() {
    let weights =
        calculate_side_bet_outcomes(&Shoe::default()).expect("完整八副牌应该能枚举边注");
    let big = weights.probability::<f64>(SideBet::Big);
    let small = weights.probability::<f64>(SideBet::Small);

    assert_close(big + small, 1.0, 1e-15);
    assert!(big > small);
}

#[test]
fn payout_changes_ev_without_changing_probability() {
    let weights =
        calculate_side_bet_outcomes(&Shoe::default()).expect("完整八副牌应该能枚举边注");
    let default = analyze(weights, side_rules());
    let generous = analyze(
        weights,
        side_rules().with_payouts(
            scale(), 6.0, 12.0, 12.0, 26.0, 0.55, 1.6, 7.0, 16.0, 31.0, 41.0, 101.0,
        )
        .expect("测试赔付应合法"),
    );

    assert_eq!(
        default.metrics(SideBet::AnyPair).probability(),
        generous.metrics(SideBet::AnyPair).probability()
    );
    assert!(generous.metrics(SideBet::AnyPair).ev() > default.metrics(SideBet::AnyPair).ev());
}

#[test]
fn pair_side_bets_settle_from_the_two_initial_cards() {
    let rules = side_rules();
    let player_pair = round("4S AC 4H 2D");
    let perfect_pair = round("4S AC 4S 2D");

    assert_eq!(profit_of(rules.settle(SideBet::AnyPair, player_pair)), 5.0);
    assert_eq!(profit_of(rules.settle(SideBet::PlayerPair, player_pair)), 11.0);
    assert_eq!(profit_of(rules.settle(SideBet::BankerPair, player_pair)), -1.0);
    assert_eq!(profit_of(rules.settle(SideBet::PerfectPair, player_pair)), -1.0);
    assert_eq!(profit_of(rules.settle(SideBet::PerfectPair, perfect_pair)), 25.0);
}

#[test]
fn lucky_seven_and_super_lucky_seven_use_the_correct_card_tier() {
    let rules = side_rules();
    let four_cards = round("3S 2C 4H 4D");
    let five_cards = round("2S 2C 3H 4D 2D");

    assert_eq!(profit_of(rules.settle(SideBet::LuckySeven, four_cards)), 6.0);
    assert_eq!(profit_of(rules.settle(SideBet::SuperLuckySeven, four_cards)), 30.0);
    assert_eq!(profit_of(rules.settle(SideBet::LuckySeven, five_cards)), 15.0);
    assert_eq!(profit_of(rules.settle(SideBet::SuperLuckySeven, five_cards)), 40.0);
}

#[test]
fn lucky_six_uses_the_bankers_two_or_three_card_tier() {
    let rules = side_rules();
    // 庄家起手 3 + 3 = 6，闲家补牌后只有 4 点：庄以两张牌、6 点获胜。
    let banker_two_cards = round("AS 3C 2H 3D AH");
    // 庄家起手 2 + 2 = 4，补 2 后成为 6；闲家三张合计只有 2 点。
    let banker_three_cards = round("KS 2C QH 2D 2S 2H");

    assert_eq!(profit_of(rules.settle(SideBet::LuckySix, banker_two_cards)), 12.0);
    assert_eq!(profit_of(rules.settle(SideBet::LuckySix, banker_three_cards)), 18.0);
}

#[test]
fn dragon_bonus_uses_margin_tiers_and_pushes_selected_side_naturals() {
    let rules = side_rules();
    // 双方都补牌后闲 8、庄 4，闲龙宝按点差 4 净赔 1:1。
    let player_margin_four = round("2S 2C 2H 2D 4S KH");
    // 双方都补牌后庄 9、闲 2，庄龙宝按点差 7 净赔 5:1。
    let banker_margin_seven = round("KS 2C QH 2D 2S 5H");
    // 闲天然 9 获胜：闲龙宝退回本金（净收益 0），庄龙宝仍然输。
    let player_natural = round("4S 2C 5H 3D");
    // 双方天然 9 和局：两个方向都退回本金。
    let both_natural_tie = round("4S 5C 5H 4D");

    assert_eq!(
        profit_of(rules.settle(SideBet::PlayerDragonBonus, player_margin_four)),
        1.0
    );
    assert_eq!(
        profit_of(rules.settle(SideBet::BankerDragonBonus, banker_margin_seven)),
        5.0
    );
    assert_eq!(
        profit_of(rules.settle(SideBet::PlayerDragonBonus, player_natural)),
        0.0
    );
    assert_eq!(
        profit_of(rules.settle(SideBet::BankerDragonBonus, player_natural)),
        -1.0
    );
    assert_eq!(
        profit_of(rules.settle(SideBet::PlayerDragonBonus, both_natural_tie)),
        0.0
    );
    assert_eq!(
        profit_of(rules.settle(SideBet::BankerDragonBonus, both_natural_tie)),
        0.0
    );
}

#[test]
fn big_and_small_settle_from_the_final_card_count() {
    let rules = side_rules();
    let four_cards = round("AS 4C 7H 3D");
    let five_cards = round("2C 4H 3D 2S 5C");
    let six_cards = round("KC 2C QH KS 5D 4H");

    assert_eq!(profit_of(rules.settle(SideBet::Small, four_cards)), 1.5);
    assert_eq!(profit_of(rules.settle(SideBet::Big, four_cards)), -1.0);
    assert_eq!(profit_of(rules.settle(SideBet::Big, five_cards)), 0.5);
    assert_eq!(profit_of(rules.settle(SideBet::Big, six_cards)), 0.5);
    assert_eq!(profit_of(rules.settle(SideBet::Small, six_cards)), -1.0);
}

#[test]
fn the_first_payout_that_is_no_amount_is_named() {
    let error = side_rules()
        .with_payouts(scale(), 5.0, 11.0, 11.0, 25.0, -0.5, f64::NAN, 6.0, 15.0, 30.0, 40.0, 100.0)
        .expect_err("a negative payout is refused");
    assert_eq!(error, SideBetRuleError { field: "big", value: -0.5 });
    let error = side_rules()
        .with_payouts(
            scale(),
            5.0,
            11.0,
            11.0,
            25.0,
            0.5,
            1.5,
            6.0,
            15.0,
            30.0,
            40.0,
            f64::INFINITY,
        )
        .expect_err("an infinite payout is refused");
    assert_eq!(error.field, "super_lucky_seven_six_cards");
}

#[test]
fn lucky_six_wins_are_the_banker_wins_on_six() {
    let shoe = Shoe::default();
    let side = calculate_side_bet_outcomes(&shoe).expect("a full shoe has weights");
    let main = game_ev_engine::calculate_main_outcomes(&shoe).expect("a full shoe has weights");
    assert_eq!(side.win_weight(SideBet::LuckySix), main.banker_win_on_six_weight());
    assert!(side.win_weight(SideBet::SuperLuckySeven) <= side.win_weight(SideBet::LuckySeven));
    assert!(side.win_weight(SideBet::LuckySeven) <= main.player_weight());
}

#[test]
fn a_rebate_raises_every_side_bet_by_its_rate() {
    let weights = calculate_side_bet_outcomes(&Shoe::default()).expect("a full shoe has weights");
    let plain = analyze(weights, side_rules());
    let rebate = RebateRule::AllExceptMainBetTie { rate: 0.009 };
    let raised = plain.with_rebate(rebate);
    for bet in SideBet::ALL {
        let metrics = raised.effective_metrics(bet);
        assert_eq!(metrics.base_ev(), plain.metrics(bet).ev());
        assert_eq!(metrics.rebate_ev(), 0.009);
        assert_close(metrics.effective_ev(), plain.metrics(bet).ev() + 0.009, 1e-15);
    }
}

#[test]
fn a_dragon_bonus_wins_with_its_side_and_pushes_on_naturals() {
    for decks in [1, 8] {
        let shoe = Shoe::new(decks).expect("the decks are valid");
        let side = calculate_side_bet_outcomes(&shoe).expect("a full shoe has weights");
        let main = game_ev_engine::calculate_main_outcomes(&shoe).expect("a full shoe has weights");
        for (bet, weight) in [
            (SideBet::BankerDragonBonus, main.banker_weight()),
            (SideBet::PlayerDragonBonus, main.player_weight()),
        ] {
            assert!(side.push_weight(bet) > 0);
            assert!(side.win_weight(bet) <= weight);
            assert!(side.push_weight(bet) + side.win_weight(bet) <= weight + main.tie_weight());
            assert!(side.push_weight(bet) <= side.win_weight(SideBet::Small));
        }
    }
}
