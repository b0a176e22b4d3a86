use game_ev_engine::baccarat::records::CsvRound;
use game_ev_engine::baccarat::replay::ReplayConfigError;
use game_ev_engine::baccarat::report::rebate_rule_name;
use game_ev_engine::web_api::advice::{
    analyze_baccarat, analyze_baccarat_strategy, BrowserAnalysis,
};
use game_ev_engine::web_api::blackjack_page::{analyze_blackjack, BrowserBlackjackAnalysis};
use game_ev_engine::web_api::replay_page::{lucky_round_limits, replay_settings};
use game_ev_engine::web_api::{parse_cards, PageError, StrategySettings};
use game_ev_engine::{
    replay_csv_rows, BlackjackAction, CsvReplayConfig, CsvReplayReport, KellyError, ReplayStop,
    Scale, SideBet, SideBetRoundLimits, StakeSizingStrategy,
};

const CSV: &str = "__source_pk,table_id,session_id,round_no,started_at,settled_at,raw_cards,result_code\n\
    a,1,9001,1,2026-08-20 00:00:12,2026-08-20 00:00:44,\"b:24,31,45;p:31,42,47\",36\n";

fn scale() -> Scale<f64> {
    Scale { least: f64::MIN, zero: 0.0, one: 1.0, largest: f64::MAX }
}

fn rows_of(csv_text: &str) -> Vec<CsvRound> {
    let mut reader = csv::ReaderBuilder::new().flexible(false).from_reader(csv_text.as_bytes());
    let wide = reader.headers().expect("the header can be read").len() == 8;
    let mut rows = Vec::new();
    for record in reader.records() {
        let record = record.expect("the row can be read");
        if wide {
            rows.push(CsvRound {
                source_pk: Some(record[0].to_owned()),
                table_id: record[1].parse().expect("a table"),
                session_id: record[2].parse().expect("a shoe"),
                round_no: record[3].parse().expect("a round"),
                started_at: Some(record[4].to_owned()),
                settled_at: Some(record[5].to_owned()),
                raw_cards: record[6].to_owned(),
                result_code: Some(record[7].parse().expect("a result")),
            });
        } else {
            rows.push(CsvRound::generated(
                record[0].parse().expect("a shoe"),
                record[1].parse().expect("a round"),
                record[2].to_owned(),
            ));
        }
    }
    rows
}

fn replay_csv_text(
    csv_text: &str,
    config: CsvReplayConfig<f64>,
) -> Result<CsvReplayReport<f64>, ReplayStop<f64>> {
    replay_csv_rows(&rows_of(csv_text), None, config, scale(), &f64::sqrt)
}

#[allow(clippy::too_many_arguments)]
fn settings(
    rebate_rate: f64,
    minimum_effective_ev: f64,
    bankroll: f64,
    max_fraction: f64,
    max_round_stake: f64,
    table_limit: f64,
    strategy_parameter: f64,
) -> StrategySettings<f64> {
    StrategySettings {
        rebate_rate,
        minimum_effective_ev,
        bankroll,
        max_fraction,
        max_round_stake,
        table_limit,
        strategy_parameter,
        minimum_side_bet_ev: minimum_effective_ev,
        side_bet_limit: max_round_stake,
        allow_multiple_bets: false,
    }
}

fn analyze(
    source_mode: &str,
    decks: u8,
    cards_text: &str,
    rebate_rate: f64,
) -> Result<BrowserAnalysis<f64>, PageError<f64>> {
    analyze_baccarat(scale(), source_mode, decks, cards_text, rebate_rate, &f64::sqrt)
}

fn analyze_strategy(
    source_mode: &str,
    cards_text: &str,
    payout_rule: &str,
    stake_strategy: &str,
    settings: StrategySettings<f64>,
) -> Result<BrowserAnalysis<f64>, PageError<f64>> {
    analyze_baccarat_strategy(
        scale(),
        source_mode,
        8,
        cards_text,
        payout_rule,
        stake_strategy,
        settings,
        &f64::sqrt,
    )
}

fn hand(
    player: &str,
    dealer: &str,
    stake: f64,
) -> Result<BrowserBlackjackAnalysis<f64>, PageError<f64>> {
    analyze_blackjack(scale(), "consumed", 8, "", player, dealer, false, 1.5, true, stake)
}

fn message(error: PageError<f64>) -> String {
    error.into_text("")
}

#[test]
fn blackjack_browser_api_removes_visible_cards_and_returns_action_evs() {
    let page = hand("5S 6H", "6C", 100.0).expect("eleven against six can be analysed");

    assert_eq!(page.source_mode, "consumed");
    assert_eq!(page.remaining_card_count, 413);
    assert_eq!(page.analysis.player_total, 11);
    assert_eq!(page.analysis.optimal_action, BlackjackAction::Double);
    assert_eq!(page.analysis.optimal_action.as_str(), "double");
    assert_eq!(page.suggested_additional_stake, 100.0);
    assert!(page.analysis.actions.double.is_some());
}

#[test]
fn blackjack_browser_api_rejects_wrong_visible_card_counts() {
    let player_error = message(hand("5S", "6C", 100.0).expect_err("one card is refused"));
    assert!(player_error.contains("正好是 2 张"));

    let dealer_error = message(hand("5S 6H", "", 100.0).expect_err("no card is refused"));
    assert!(dealer_error.contains("正好是 1 张"));
}

#[test]
fn blackjack_pages_are_refused_for_their_first_fault() {
    let text = message(hand("5S", "6C", 0.0).expect_err("a stake of zero is refused"));
    assert_eq!(text, "当前底注必须是有限正数");
    let text = message(hand("5X", "6C", 1.0).expect_err("5X is no card"));
    assert!(text.starts_with("无法识别牌面“5X”："));
    let nine = "5S 5S 5S 5S 5S 5S 5S 5S";
    let refused = analyze_blackjack(
        scale(), "consumed", 8, nine, "5S 6H", "6C", false, 1.5, true, 1.0,
    );
    let text = message(refused.expect_err("all fives of spades are gone"));
    assert!(text.starts_with("玩家起手牌无法从牌靴扣除："));
    let refused = analyze_blackjack(
        scale(), "consumed", 8, "", "5S 6H", "6C", false, -1.5, true, 1.0,
    );
    let error = refused.expect_err("a negative payout is refused");
    assert_eq!(error.into_text("payout"), "二十一点 EV 计算失败：payout");
    let refused = analyze_blackjack(
        scale(), "unknown", 8, "", "5S 6H", "6C", false, 1.5, true, 1.0,
    );
    assert_eq!(
        message(refused.expect_err("the mode is unknown")),
        "输入模式必须是 consumed 或 remaining"
    );
}

#[test]
fn empty_consumed_input_analyzes_a_full_eight_deck_shoe() {
    let page = analyze("consumed", 8, "", 0.009).expect("a full shoe can be analysed");

    assert_eq!(page.source_mode, "consumed");
    assert_eq!(page.input_card_count, 0);
    assert_eq!(page.remaining_card_count, 416);
    assert_eq!(page.rebate_rate, 0.009);
    assert_eq!(page.recommendation.candidate_bet, "banker");
    assert_eq!(
        page.side_bet_rules,
        "pairs_5_11_perfect_25_big_0_5_small_1_5_lucky_6_12_18_lucky_7_6_15_super_30_40_100_dragon_1_2_3_5_10_30_natural_push"
    );
    let row = |bet: SideBet| page.side_bets[bet.index()];
    assert_eq!(row(SideBet::BankerPair).payout, "11:1");
    assert_eq!(row(SideBet::PerfectPair).payout, "25:1");
    assert_eq!(row(SideBet::Big).payout, "0.5:1");
    assert_eq!(row(SideBet::Small).payout, "1.5:1");
    assert_eq!(row(SideBet::LuckySix).payout, "庄2张 12:1 / 庄3张 18:1");
    assert!(row(SideBet::BankerDragonBonus).probability > 0.0);
    assert!(row(SideBet::PlayerDragonBonus).probability > 0.0);
    assert!(row(SideBet::LuckySeven).probability > 0.0);

    let probability_sum =
        page.bets.player.probability + page.bets.banker.probability + page.bets.tie.probability;
    assert!((probability_sum - 1.0).abs() < 1e-12);
}

#[test]
fn consumed_input_accepts_mixed_chinese_and_ascii_separators() {
    let page = analyze("consumed", 8, "AS，10H KD、7C", 0.009).expect("four cards are removed");

    assert_eq!(page.input_card_count, 4);
    assert_eq!(page.remaining_card_count, 412);
}

#[test]
fn remaining_mode_rejects_too_few_cards_for_probability_enumeration() {
    let error = analyze("remaining", 8, "AS 2H 3D", 0.009).expect_err("three cards are no round");

    assert!(message(error).contains("至少需要 6 张"));
}

#[test]
fn invalid_mode_card_and_rebate_return_readable_errors() {
    assert!(analyze("unknown", 8, "", 0.009).is_err());
    assert!(analyze("consumed", 8, "1X", 0.009).is_err());
    assert!(analyze("consumed", 8, "", 1.01).is_err());
}

#[test]
fn pages_are_refused_for_their_first_fault() {
    let plain = settings(0.0, 0.0, 1.0, 1.0, 1.0, 1.0, 0.0);
    let refusal = |settings, payout: &str, strategy: &str| {
        message(
            analyze_strategy("consumed", "", payout, strategy, settings)
                .expect_err("the page is refused"),
        )
    };
    let rebate = StrategySettings { rebate_rate: f64::NAN, ..plain };
    assert_eq!(refusal(rebate, "", ""), "返水比例必须是 0% 到 100% 之间的有限数字");
    let minimum = StrategySettings { minimum_effective_ev: f64::NAN, ..plain };
    assert_eq!(refusal(minimum, "", ""), "最低有效 EV 必须是有限数字");
    let side = StrategySettings { minimum_side_bet_ev: f64::INFINITY, ..plain };
    assert_eq!(refusal(side, "", ""), "边注最低 EV 必须是有限数字");
    let bankroll = StrategySettings { bankroll: 0.0, ..plain };
    assert_eq!(refusal(bankroll, "", ""), "本金必须是有限正数");
    assert_eq!(refusal(plain, "other", "fixed"), "庄赔付规则必须是 standard 或 no_commission");
    assert!(refusal(plain, "standard", "other").starts_with("金额策略必须是 full_kelly"));
    let limit = StrategySettings { side_bet_limit: -1.0, ..plain };
    assert!(matches!(
        analyze_strategy("consumed", "", "standard", "fixed", limit),
        Err(PageError::Policy(KellyError::InvalidSideBetLimit { value })) if value == -1.0
    ));
}

#[test]
fn strategy_response_includes_kelly_amount_and_threshold_reason() {
    let placed = analyze_strategy(
        "consumed",
        "",
        "standard",
        "full_kelly",
        settings(0.02, 0.0, 10_000.0, 0.05, 1_000.0, 1_000.0, 0.0),
    )
    .expect("the shoe can be analysed");
    assert_eq!(placed.recommendation.action, "place");
    assert!(placed.recommendation.suggested_amount > 0.0);

    let skipped = analyze_strategy(
        "consumed",
        "",
        "standard",
        "full_kelly",
        settings(0.02, 0.50, 10_000.0, 0.05, 1_000.0, 1_000.0, 0.0),
    )
    .expect("the shoe can be analysed");
    assert_eq!(skipped.recommendation.action, "skip");
    assert_eq!(skipped.recommendation.reason, Some("below_minimum_ev"));
    assert_eq!(skipped.total_suggested_amount, 0.0);
}

#[test]
fn no_commission_and_fractional_kelly_are_exposed_in_the_json_contract() {
    let chosen = settings(0.02, 0.0, 10_000.0, 1.0, 10_000.0, 10_000.0, 0.0);
    let full = analyze_strategy("consumed", "", "no_commission", "full_kelly", chosen)
        .expect("the shoe can be analysed");
    let half = analyze_strategy("consumed", "", "no_commission", "half_kelly", chosen)
        .expect("the shoe can be analysed");

    assert_eq!(half.payout_rule, "no_commission");
    assert_eq!(half.stake_strategy, "half_kelly");
    let full_target = full.recommendation.strategy_fraction.expect("a fraction is quoted");
    let half_target = half.recommendation.strategy_fraction.expect("a fraction is quoted");
    assert!((half_target - full_target * 0.5).abs() < 1e-12);
}

#[test]
fn fixed_stake_still_obeys_the_common_risk_limits() {
    let page = analyze_strategy(
        "consumed",
        "",
        "standard",
        "fixed",
        settings(0.02, 0.0, 10_000.0, 1.0, 80.0, 1_000.0, 100.0),
    )
    .expect("the shoe can be analysed");

    assert_eq!(page.stake_strategy, "fixed");
    assert_eq!(page.fixed_stake, Some(100.0));
    assert_eq!(page.recommendation.action, "place");
    assert_eq!(page.recommendation.suggested_amount, 80.0);
}

#[test]
fn fixed_bankroll_fraction_is_exposed_and_sizes_from_current_bankroll() {
    let page = analyze_strategy(
        "consumed",
        "",
        "standard",
        "bankroll_fraction",
        settings(0.02, 0.0, 10_000.0, 1.0, 1_000.0, 1_000.0, 0.02),
    )
    .expect("the shoe can be analysed");

    assert_eq!(page.stake_strategy, "bankroll_fraction");
    assert_eq!(page.strategy_parameter, Some(0.02));
    assert_eq!(page.fixed_stake, None);
    assert_eq!(page.recommendation.action, "place");
    assert_eq!(page.recommendation.suggested_amount, 200.0);
}

#[test]
fn invalid_custom_kelly_fraction_is_rejected_by_the_web_api() {
    let error = analyze_strategy(
        "consumed",
        "",
        "standard",
        "custom_kelly",
        settings(0.02, 0.0, 10_000.0, 1.0, 1_000.0, 1_000.0, 1.01),
    )
    .expect_err("a fraction above one is refused");

    match error {
        PageError::Policy(KellyError::InvalidStrategyParameter { strategy, value }) => {
            assert_eq!(strategy, StakeSizingStrategy::CustomKelly { fraction: 1.01 });
            assert_eq!(strategy.as_str(), "custom_kelly");
            assert_eq!(value, 1.01);
        }
        other => panic!("the fraction is refused: {other:?}"),
    }
}

#[test]
fn side_bet_can_be_recommended_and_is_clipped_by_its_own_limit() {
    let chosen = settings(0.0, 0.0, 1_000.0, 1.0, 500.0, 1_000.0, 0.0);
    let page = analyze_strategy(
        "remaining",
        "AS AC AD AH AS AC",
        "standard",
        "full_kelly",
        StrategySettings { minimum_side_bet_ev: 0.0, side_bet_limit: 25.0, ..chosen },
    )
    .expect("a shoe of aces can be analysed");

    // Both pairs are certain and rank alike; the banker's comes first.
    assert_eq!(page.recommendation.candidate_bet, "banker_pair");
    assert_eq!(page.recommendation.bet_category, "side");
    assert_eq!(page.recommendation.action, "place");
    assert_eq!(page.recommendation.suggested_amount, 25.0);
}

#[test]
fn multiple_strategy_returns_all_eligible_targets_and_shares_round_limit() {
    let chosen = settings(0.0, -1.0, 1_000.0, 1.0, 500.0, 1_000.0, 100.0);
    let page = analyze_strategy(
        "consumed",
        "",
        "standard",
        "fixed",
        StrategySettings {
            minimum_side_bet_ev: -1.0,
            side_bet_limit: 25.0,
            allow_multiple_bets: true,
            ..chosen
        },
    )
    .expect("the shoe can be analysed");

    assert!(page.allow_multiple_bets);
    assert!(page.recommendations.len() >= 2);
    assert!(page.total_suggested_amount <= 500.0 + 1e-12);
    assert_eq!(page.recommendation, page.recommendations[0]);
}

#[test]
fn csv_replay_uses_the_selected_payout_and_stake_strategy() {
    let config = replay_settings(
        scale(),
        8,
        "no_commission",
        "fixed",
        settings(0.02, 0.0, 10_000.0, 1.0, 1_000.0, 1_000.0, 100.0),
        lucky_round_limits(0),
    )
    .expect("the settings are valid");
    let report = replay_csv_text(CSV, config).expect("the shoe is whole");

    assert_eq!(report.config.payout_rule, "no_commission_banker_six_half_payout");
    assert_eq!(report.config.stake_strategy, "fixed");
    assert_eq!(report.config.fixed_stake, Some(100.0));
    assert_eq!(report.summary.placed_bet_count, 1);
    assert_eq!(report.bets[0].amount, 100.0);
}

#[test]
fn csv_replay_accepts_legacy_pages_without_side_bet_fields() {
    let chosen = settings(0.02, 0.0, 10_000.0, 1.0, 1_000.0, 1_000.0, 100.0);
    let config = replay_settings(
        scale(),
        8,
        "standard",
        "fixed",
        StrategySettings { minimum_side_bet_ev: f64::NAN, side_bet_limit: f64::NAN, ..chosen },
        lucky_round_limits(0),
    )
    .expect("the settings are valid");
    let report = replay_csv_text(CSV, config).expect("the shoe is whole");

    assert_eq!(report.config.minimum_side_bet_ev, 0.0);
    assert_eq!(report.config.side_bet_limit, 1_000.0);
    assert_eq!(report.config.lucky_bet_max_round, None);
    assert_eq!(report.config.side_bet_round_limits.big, 20);
    assert_eq!(report.config.side_bet_round_limits.perfect_pair, 45);
    assert_eq!(report.config.payout_rule, "standard_banker_commission_5_percent");
    assert_eq!(report.config.rebate_rule, "all_except_player_or_banker_push");
}

#[test]
fn csv_replay_accepts_independent_side_bet_round_limits() {
    let limits = SideBetRoundLimits {
        any_pair: 12,
        banker_pair: 13,
        player_pair: 14,
        perfect_pair: 45,
        big: 20,
        small: 20,
        lucky_seven: 31,
        super_lucky_seven: 32,
        lucky_six: 33,
        banker_dragon_bonus: 40,
        player_dragon_bonus: 41,
    };
    let chosen = settings(0.02, 0.0, 10_000.0, 1.0, 1_000.0, 1_000.0, 100.0);
    let config = replay_settings(
        scale(),
        8,
        "standard",
        "fixed",
        StrategySettings { minimum_side_bet_ev: 0.0, side_bet_limit: 100.0, ..chosen },
        limits,
    )
    .expect("the settings are valid");
    let report = replay_csv_text(CSV, config).expect("the shoe is whole");

    assert_eq!(report.config.side_bet_round_limits.any_pair, 12);
    assert_eq!(report.config.side_bet_round_limits.lucky_six, 33);
    assert_eq!(report.config.side_bet_round_limits.player_dragon_bonus, 41);
    assert_eq!(report.config.lucky_bet_max_round, None);
}

#[test]
fn csv_replay_settles_multiple_bets_from_the_same_round_together() {
    let chosen = settings(0.0, -1.0, 10_000.0, 1.0, 1_000.0, 1_000.0, 100.0);
    let config = replay_settings(
        scale(),
        8,
        "standard",
        "fixed",
        StrategySettings {
            minimum_side_bet_ev: -1.0,
            side_bet_limit: 100.0,
            allow_multiple_bets: true,
            ..chosen
        },
        lucky_round_limits(0),
    )
    .expect("the settings are valid");
    let report = replay_csv_text(CSV, config).expect("the shoe is whole");

    assert!(report.config.allow_multiple_bets);
    assert!(report.summary.placed_bet_count > 1);
    assert!(report.summary.maximum_round_stake > report.summary.maximum_single_stake);
    assert!(report.summary.maximum_profit >= 0.0);
    assert!(report.bets.len() > 1);
}

#[test]
fn one_limit_for_the_lucky_bets_is_shown_again() {
    let config = replay_settings(
        scale(),
        8,
        "standard",
        "full_kelly",
        settings(0.0, 0.0, 10_000.0, 1.0, 1_000.0, 1_000.0, 0.0),
        lucky_round_limits(30),
    )
    .expect("the settings are valid");
    let report = replay_csv_text(CSV, config).expect("the shoe is whole");
    assert_eq!(report.config.lucky_bet_max_round, Some(30));
    assert_eq!(report.config.rebate_rule, "none");
}

#[test]
fn a_refused_replay_says_why() {
    let chosen = settings(0.0, 0.0, 10_000.0, 1.0, 1_000.0, 1_000.0, 0.0);
    let refused = replay_settings(scale(), 8, "x", "fixed", chosen, lucky_round_limits(0));
    assert_eq!(
        message(refused.expect_err("the payouts are unknown")),
        "庄赔付规则必须是 standard 或 no_commission"
    );
    let one_missing = StrategySettings { minimum_side_bet_ev: f64::NAN, ..chosen };
    let refused =
        replay_settings(scale(), 8, "standard", "fixed", one_missing, lucky_round_limits(0));
    assert!(matches!(refused, Err(PageError::Config(ReplayConfigError::MinimumSideBetEv))));
}

#[test]
fn words_between_separators_are_cards() {
    let cards = parse_cards(" as,10h；kd;7C\t").expect("all words are cards");
    let shown: Vec<String> = cards.iter().map(|card| card.to_string()).collect();
    assert_eq!(shown, ["AS", "10H", "KD", "7C"]);
    assert_eq!(parse_cards("，；、").expect("there are no words").len(), 0);
    let error = parse_cards("AS 1X").expect_err("1X is no card");
    assert_eq!(error, "无法识别牌面“1X”：invalid rank `1`");
}

#[test]
fn settings_without_side_bets_of_their_own_take_those_of_the_main_bets() {
    let short = StrategySettings::for_one_bet(0.01, 0.02, 5_000.0, 0.1, 300.0, 800.0, 0.5);
    assert_eq!(short.minimum_side_bet_ev, 0.02);
    assert_eq!(short.side_bet_limit, 300.0);
    assert!(!short.allow_multiple_bets);
    assert_eq!(short.rebate_rate, 0.01);
    assert_eq!(short.bankroll, 5_000.0);
    assert_eq!(short.max_fraction, 0.1);
    assert_eq!(short.table_limit, 800.0);
    assert_eq!(short.strategy_parameter, 0.5);

    let own = short.with_side_bets(0.03, 25.0).with_multiple_bets(true);
    assert_eq!(own.minimum_side_bet_ev, 0.03);
    assert_eq!(own.side_bet_limit, 25.0);
    assert!(own.allow_multiple_bets);
    assert_eq!(own.minimum_effective_ev, 0.02);
    assert_eq!(own.max_round_stake, 300.0);
}

#[test]
fn a_rebate_rule_is_named_by_its_rate() {
    assert_eq!(rebate_rule_name(0.0), "none");
    assert_eq!(rebate_rule_name(0.009), "all_except_player_or_banker_push");
}
