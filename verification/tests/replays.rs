use game_ev_engine::baccarat::load::load_rounds;
use game_ev_engine::baccarat::records::CsvRound;
use game_ev_engine::baccarat::replay::ReplayConfigError;
use game_ev_engine::{
    replay_csv_rows, CsvReplayConfig, CsvReplayError, CsvReplayReport, KellyError, MainBetRules,
    ReplayStop, Scale, ShoeError, SideBet, SideBetRoundLimits, StakeSizingStrategy,
};

const HEADER: &str =
    "__source_pk,table_id,session_id,round_no,started_at,settled_at,raw_cards,result_code\n";

fn scale() -> Scale<f64> {
    Scale { least: f64::MIN, zero: 0.0, one: 1.0, largest: f64::MAX }
}

fn rows_of(csv_text: &str) -> Vec<CsvRound> {
    let mut reader = csv::ReaderBuilder::new().flexible(false).from_reader(csv_text.as_bytes());
    let wide = reader.headers().expect("the header can be read").len() == 8;
    let mut rows = Vec::new();
    for record in reader.records() {
        let record = record.expect("the row can be read");
        if wide {
            rows.push(CsvRound {
                source_pk: Some(record[0].to_owned()),
                table_id: record[1].parse().expect("a table"),
                session_id: record[2].parse().expect("a shoe"),
                round_no: record[3].parse().expect("a round"),
                started_at: Some(record[4].to_owned()),
                settled_at: Some(record[5].to_owned()),
                raw_cards: record[6].to_owned(),
                result_code: Some(record[7].parse().expect("a result")),
            });
        } else {
            rows.push(CsvRound::generated(
                record[0].parse().expect("a shoe"),
                record[1].parse().expect("a round"),
                record[2].to_owned(),
            ));
        }
    }
    rows
}

fn replay_csv_text(
    csv_text: &str,
    config: CsvReplayConfig<f64>,
) -> Result<CsvReplayReport<f64>, ReplayStop<f64>> {
    replay_csv_rows(&rows_of(csv_text), None, config, scale(), &f64::sqrt)
}

fn strategy() -> CsvReplayConfig<f64> {
    CsvReplayConfig::new(scale(), 8, 0.02, 0.0, 10_000.0, 0.05, 1_000.0, 1_000.0)
        .expect("the settings are valid")
}

fn row(key: &str, session_id: u64, round_no: u32, cards: &str, code: u64) -> CsvRound {
    CsvRound {
        source_pk: Some(key.to_owned()),
        table_id: 1,
        session_id,
        round_no,
        started_at: Some(format!("2026-08-20 00:{:02}:12", round_no)),
        settled_at: Some(format!("2026-08-20 00:{:02}:44", round_no)),
        raw_cards: cards.to_owned(),
        result_code: Some(code),
    }
}

#[test]
fn default_side_bet_round_limits_match_the_table_rules() {
    let limits = SideBetRoundLimits::default();

    for side_bet in [SideBet::Big, SideBet::Small] {
        assert!(limits.allows(side_bet, 20));
        assert!(!limits.allows(side_bet, 21));
    }
    assert!(limits.allows(SideBet::PerfectPair, 45));
    assert!(!limits.allows(SideBet::PerfectPair, 46));

    for side_bet in SideBet::ALL {
        if matches!(
            side_bet,
            SideBet::Big | SideBet::Small | SideBet::PerfectPair
        ) {
            continue;
        }
        assert!(limits.allows(side_bet, 50));
        assert!(!limits.allows(side_bet, 51));
    }
}

#[test]
fn each_side_bet_round_limit_can_be_customised_independently() {
    let limits = SideBetRoundLimits {
        any_pair: 10,
        banker_pair: 30,
        player_pair: 0,
        ..SideBetRoundLimits::default()
    };

    assert!(!limits.allows(SideBet::AnyPair, 11));
    assert!(limits.allows(SideBet::BankerPair, 30));
    assert!(!limits.allows(SideBet::BankerPair, 31));
    assert!(limits.allows(SideBet::PlayerPair, 999));
}

#[test]
fn replay_uses_running_bankroll_and_reconciles_profit_components() {
    let csv = format!(
        "{HEADER}a,1,9001,1,2026-08-20 00:00:12,2026-08-20 00:00:44,\"b:24,31,45;p:31,42,47\",36\n\
         b,1,9001,2,2026-08-20 00:00:54,2026-08-20 00:01:17,\"b:73,62,;p:53,8,\",322\n"
    );

    let report = replay_csv_text(&csv, strategy()).expect("两局完整牌靴应该可以回放");

    assert_eq!(report.quality.fully_observable_sessions, 1);
    assert_eq!(report.summary.replayed_rounds, 2);
    assert!(report.summary.placed_bet_count > 0);
    assert_eq!(report.bets.len() as u64, report.summary.placed_bet_count);
    assert!(report.summary.maximum_bankroll >= report.summary.initial_bankroll);
    assert!(report.summary.minimum_bankroll <= report.summary.initial_bankroll);
    assert!(report.summary.maximum_single_stake > 0.0);
    assert!(report.summary.maximum_round_stake >= report.summary.maximum_single_stake);
    assert!(
        (report.summary.maximum_profit
            - (report.summary.maximum_bankroll - report.summary.initial_bankroll))
            .abs()
            < 1e-9
    );
    assert_eq!(report.bets[0].player_cards, "JD 2H 7H");
    assert_eq!(report.bets[0].banker_cards, "4D JD 5H");
    assert_eq!(report.bets[0].player_total, 9);
    assert_eq!(report.bets[0].banker_total, 9);

    let component_profit = report.summary.base_game_profit + report.summary.rebate_income;
    assert!((report.summary.total_profit - component_profit).abs() < 1e-9);
    assert!(
        (report.summary.final_bankroll
            - (report.summary.initial_bankroll + report.summary.total_profit))
            .abs()
            < 1e-9
    );
}

#[test]
fn replay_applies_rebate_to_every_side_bet_and_counts_each_category() {
    let csv = format!(
        "{HEADER}a,1,9100,1,2026-08-20 00:00:12,2026-08-20 00:00:44,\"b:24,31,45;p:31,42,47\",36\n"
    );
    // 固定金额不要求正凯利；把两个 EV 门槛降到 -10 后，单局多注模式会
    // 为 3 种主注和 11 种边注各生成一笔，便于一次验证完整分类。
    let config = CsvReplayConfig::with_side_bets(
        scale(),
        8,
        MainBetRules::standard().per_unit(),
        StakeSizingStrategy::Fixed { amount: 1.0 },
        0.02,
        -10.0,
        -10.0,
        10_000.0,
        1.0,
        100.0,
        100.0,
        100.0,
    )
    .expect("完整分类回放配置应该合法")
    .with_multiple_bets(true);

    let report = replay_csv_text(&csv, config).expect("单局完整牌靴应该可以回放");
    let counts = &report.summary.placed_bets;

    assert_eq!(report.summary.placed_bet_count, 14);
    assert_eq!(counts.player, 1);
    assert_eq!(counts.banker, 1);
    assert_eq!(counts.tie, 1);
    assert_eq!(counts.any_pair, 1);
    assert_eq!(counts.banker_pair, 1);
    assert_eq!(counts.player_pair, 1);
    assert_eq!(counts.perfect_pair, 1);
    assert_eq!(counts.big, 1);
    assert_eq!(counts.small, 1);
    assert_eq!(counts.lucky_seven, 1);
    assert_eq!(counts.super_lucky_seven, 1);
    assert_eq!(counts.lucky_six, 1);
    assert_eq!(counts.banker_dragon_bonus, 1);
    assert_eq!(counts.player_dragon_bonus, 1);

    // 每种玩法的资金表现必须与旧的分类笔数保持一致；固定 1 元策略下，
    // 14 种玩法各下一笔，所以分类下注额合计应为 14 元。
    let breakdown = &report.summary.bet_breakdown;
    for performance in [
        &breakdown.player,
        &breakdown.banker,
        &breakdown.tie,
        &breakdown.any_pair,
        &breakdown.banker_pair,
        &breakdown.player_pair,
        &breakdown.perfect_pair,
        &breakdown.big,
        &breakdown.small,
        &breakdown.lucky_seven,
        &breakdown.super_lucky_seven,
        &breakdown.lucky_six,
        &breakdown.banker_dragon_bonus,
        &breakdown.player_dragon_bonus,
    ] {
        assert_eq!(performance.count, 1);
        assert_eq!(
            performance.win_count + performance.loss_count + performance.push_count,
            performance.count
        );
        assert!((performance.total_stake - 1.0).abs() < 1e-12);
        assert!(
            (performance.gross_profit - performance.gross_loss - performance.total_profit)
                .abs()
                < 1e-12
        );
    }
    let (breakdown_count, breakdown_stake, breakdown_profit) = breakdown.totals();
    assert_eq!(breakdown_count, report.summary.placed_bet_count);
    assert!((breakdown_stake - report.summary.total_stake).abs() < 1e-12);
    assert!((breakdown_profit - report.summary.total_profit).abs() < 1e-12);
    let (gross_profit, gross_loss) = breakdown.gross_totals();
    assert!((gross_profit - gross_loss - report.summary.total_profit).abs() < 1e-12);
    let (base_gross_profit, base_gross_loss) = breakdown.base_gross_totals();
    assert!(
        (base_gross_profit - base_gross_loss - report.summary.base_game_profit).abs() < 1e-12
    );
    assert!(
        (base_gross_profit + report.summary.rebate_income
            - base_gross_loss
            - report.summary.total_profit)
            .abs()
            < 1e-12
    );

    let side_bets = report
        .bets
        .iter()
        .filter(|detail| !matches!(detail.bet, "player" | "banker" | "tie"))
        .collect::<Vec<_>>();
    assert_eq!(side_bets.len(), 11);
    for detail in side_bets {
        assert!(
            (detail.rebate_income - detail.amount * 0.02).abs() < 1e-12,
            "{} 没有按下注额计算返水",
            detail.bet
        );
        assert!(
            (detail.actual_profit - (detail.base_game_profit + detail.rebate_income)).abs()
                < 1e-12
        );
    }
}

#[test]
fn replay_keeps_more_than_two_thousand_bet_details() {
    let mut csv = String::from(HEADER);
    for index in 0..2_001 {
        csv.push_str(&format!(
            "row-{index},1,{},1,2026-08-20 00:00:12,2026-08-20 00:00:44,\"b:24,31,45;p:31,42,47\",36\n",
            10_000 + index
        ));
    }
    let config = CsvReplayConfig::with_strategy(
        scale(),
        8,
        MainBetRules::standard().per_unit(),
        StakeSizingStrategy::Fixed { amount: 1.0 },
        0.02,
        0.0,
        10_000.0,
        1.0,
        1.0,
        1.0,
    )
    .expect("固定 1 元的测试策略应该合法");

    let report = replay_csv_text(&csv, config).expect("大量独立牌靴应该可以回放");

    assert_eq!(report.summary.placed_bet_count, 2_001);
    assert_eq!(report.bets.len(), 2_001);
    assert_eq!(report.omitted_bet_details, 0);
}

#[test]
fn session_starting_mid_shoe_is_quarantined_instead_of_guessed() {
    let csv = format!(
        "{HEADER}a,1,9002,28,2026-08-20 00:00:12,2026-08-20 00:00:44,\"b:24,31,45;p:31,42,47\",36\n"
    );

    let report = replay_csv_text(&csv, strategy()).expect("不完整牌靴应进入隔离报告");

    assert_eq!(report.quality.sessions_starting_mid_shoe, 1);
    assert_eq!(report.quality.quarantined_rounds, 1);
    assert_eq!(report.summary.replayed_rounds, 0);
    assert_eq!(report.summary.final_bankroll, 10_000.0);
    assert_eq!(report.summary.maximum_bankroll, 10_000.0);
    assert_eq!(report.summary.minimum_bankroll, 10_000.0);
    assert_eq!(report.summary.maximum_profit, 0.0);
    assert_eq!(report.summary.maximum_single_stake, 0.0);
    assert_eq!(report.summary.maximum_round_stake, 0.0);
}

#[test]
fn settings_that_cannot_be_used_are_refused_in_order() {
    let new = |decks, rebate, ev, bankroll, fraction| {
        CsvReplayConfig::new(scale(), decks, rebate, ev, bankroll, fraction, 10.0, 10.0)
    };
    assert_eq!(
        new(9, f64::NAN, 0.0, 1.0, 1.0),
        Err(ReplayConfigError::Decks(ShoeError::InvalidDeckCount { decks: 9 }))
    );
    assert_eq!(new(8, 1.5, f64::NAN, 1.0, 1.0), Err(ReplayConfigError::RebateRate));
    assert_eq!(new(8, 0.5, f64::INFINITY, -1.0, 1.0), Err(ReplayConfigError::MinimumEv));
    assert_eq!(new(8, 0.5, 0.0, 0.0, 2.0), Err(ReplayConfigError::Bankroll));
    assert_eq!(
        new(8, 0.5, 0.0, 1.0, 2.0),
        Err(ReplayConfigError::Stakes(KellyError::InvalidMaxFraction { value: 2.0 }))
    );
    let side = CsvReplayConfig::with_side_bets(
        scale(),
        8,
        MainBetRules::standard().per_unit(),
        StakeSizingStrategy::FullKelly,
        0.0,
        0.0,
        f64::NAN,
        1.0,
        1.0,
        1.0,
        1.0,
        1.0,
    );
    assert_eq!(side, Err(ReplayConfigError::MinimumSideBetEv));
}

#[test]
fn rows_that_cannot_be_replayed_are_refused() {
    let none: Vec<CsvRound> = vec![];
    assert_eq!(load_rounds(&none, None).err(), Some(CsvReplayError::EmptyDataset));
    assert_eq!(
        load_rounds(&none, Some("row 1".to_owned())).err(),
        Some(CsvReplayError::Csv("row 1".to_owned()))
    );
    let mut early = row("a", 1, 1, "b:24,31,45;p:31,42,47", 36);
    early.started_at = Some("2026".to_owned());
    assert_eq!(
        load_rounds(&vec![early], None).err(),
        Some(CsvReplayError::InvalidTimestamp("2026".to_owned()))
    );
    let twice = vec![
        row("a", 1, 1, "b:24,31,45;p:31,42,47", 36),
        row("a", 1, 1, "b:24,31,45;p:31,42,47", 36),
        row("b", 1, 1, "b:24,31,45;p:31,42,47", 36),
    ];
    let error = load_rounds(&twice, None).err().expect("the keys are repeated");
    assert_eq!(error, CsvReplayError::DuplicateKeys { source_pk_rows: 1, round_keys: 2 });
    assert_eq!(error.to_string(), "发现重复键：source_pk 重复 1 行，局键重复 2 行");
}

#[test]
fn every_row_is_judged_in_one_way() {
    let rows = vec![
        row("a", 1, 1, "b:24,31,45;p:31,42,47", 36),
        row("b", 2, 1, "b:,,;p:,,", 0),
        row("c", 3, 1, "b:24;p:31,42", 36),
        row("d", 4, 1, "b:24,31,45;p:31,42,47", 33),
        row("e", 5, 2, "b:24,31,45;p:31,42,47", 36),
        row("f", 6, 1, "b:24,31,45;p:31,42,47", 36),
        row("g", 6, 3, "b:24,31,45;p:31,42,47", 36),
    ];
    let count = rows.len() as u64;
    let report =
        replay_csv_rows(&rows, None, strategy(), scale(), &f64::sqrt).expect("one shoe is whole");
    let quality = report.quality;
    assert_eq!(quality.valid_card_rows, 4);
    assert_eq!(quality.empty_card_rows, 1);
    assert_eq!(quality.invalid_card_rows, 1);
    assert_eq!(quality.outcome_mismatch_rows, 1);
    assert_eq!(
        quality.valid_card_rows
            + quality.empty_card_rows
            + quality.invalid_card_rows
            + quality.outcome_mismatch_rows,
        count
    );
    assert_eq!(quality.sessions_starting_at_one, 5);
    assert_eq!(quality.sessions_starting_mid_shoe, 1);
    assert_eq!(quality.sessions_with_round_gaps, 1);
    assert_eq!(quality.sessions_with_empty_cards, 1);
    assert_eq!(quality.sessions_with_invalid_rows, 2);
    assert_eq!(quality.fully_observable_sessions, 1);
    assert_eq!(quality.quarantined_rounds, 6);
    assert_eq!(report.summary.replayed_rounds, 1);
    assert_eq!(report.summary.replayed_rounds + quality.quarantined_rounds, count);
    assert_eq!(report.dataset.session_count, 6);
    assert_eq!(report.dataset.table_count, 1);
    assert_eq!(report.dataset.business_date_count, 1);
    assert_eq!(report.dataset.started_at_min, "2026-08-20 00:01:12");
    assert_eq!(report.dataset.settled_at_max, "2026-08-20 00:03:44");
}

#[test]
fn a_shoe_that_runs_out_of_a_card_stops_the_replay() {
    // A shoe of one deck has a single jack of diamonds; the round deals two.
    let rows = vec![row("a", 7, 1, "b:24,31,45;p:31,42,47", 36)];
    let config = CsvReplayConfig::new(scale(), 1, 0.02, 0.0, 10_000.0, 0.05, 1_000.0, 1_000.0)
        .expect("the settings are valid");
    match replay_csv_rows(&rows, None, config, scale(), &f64::sqrt) {
        Err(ReplayStop::Replay(CsvReplayError::ShoeState {
            table_id, session_id, round_no, ..
        })) => {
            assert_eq!((table_id, session_id, round_no), (1, 7, 1));
        }
        other => panic!("the shoe has one jack of diamonds: {other:?}"),
    }
}

#[test]
fn weights_of_a_shoe_that_was_met_before_are_not_computed_again() {
    let rows = vec![
        row("a", 1, 1, "b:24,31,45;p:31,42,47", 36),
        row("b", 2, 1, "b:24,31,45;p:31,42,47", 36),
        row("c", 2, 2, "b:73,62,;p:53,8,", 322),
    ];
    let report =
        replay_csv_rows(&rows, None, strategy(), scale(), &f64::sqrt).expect("the shoes are whole");
    assert_eq!(report.summary.probability_cache_hits, 1);
    assert_eq!(report.summary.probability_cache_misses, 2);
}

#[test]
fn rounds_are_replayed_in_the_order_of_their_times() {
    let mut rows = vec![
        row("a", 1, 1, "b:24,31,45;p:31,42,47", 36),
        row("b", 2, 1, "b:24,31,45;p:31,42,47", 36),
    ];
    rows[0].started_at = Some("2026-08-21 00:00:00".to_owned());
    let report =
        replay_csv_rows(&rows, None, strategy(), scale(), &f64::sqrt).expect("the shoes are whole");
    let sessions: Vec<u64> = report.bets.iter().map(|bet| bet.session_id).collect();
    assert_eq!(sessions, [2, 1]);
    let mut bankroll = report.summary.initial_bankroll;
    for bet in &report.bets {
        bankroll += bet.actual_profit;
        assert!((bet.bankroll_after - bankroll).abs() < 1e-9);
    }
    assert!((report.summary.final_bankroll - bankroll).abs() < 1e-9);
}

#[test]
fn a_later_card_does_not_change_an_earlier_bet() {
    let first = "a,1,9001,1,2026-08-20 00:00:12,2026-08-20 00:00:44,\"b:24,31,45;p:31,42,47\",36\n";
    let one = format!(
        "{HEADER}{first}b,1,9001,2,2026-08-20 00:00:54,2026-08-20 00:01:17,\"b:73,62,;p:53,8,\",322\n"
    );
    let other = format!(
        "{HEADER}{first}b,1,9001,2,2026-08-20 00:00:54,2026-08-20 00:01:17,\"b:24,31,45;p:31,42,47\",36\n"
    );
    let one = replay_csv_text(&one, strategy()).expect("the rounds can be replayed");
    let other = replay_csv_text(&other, strategy()).expect("the rounds can be replayed");
    assert_eq!(format!("{:?}", one.bets[0]), format!("{:?}", other.bets[0]));
    // The second round is planned alike too, and only settled differently.
    assert_eq!(one.bets[1].amount, other.bets[1].amount);
    assert_eq!(one.bets[1].effective_ev, other.bets[1].effective_ev);
    assert_ne!(one.bets[1].outcome, other.bets[1].outcome);
}

#[test]
fn a_replay_stops_when_the_bankroll_is_gone() {
    let config = CsvReplayConfig::with_strategy(
        scale(),
        8,
        MainBetRules::standard().per_unit(),
        StakeSizingStrategy::Fixed { amount: 1_000.0 },
        0.0,
        -1.0,
        1_000.0,
        1.0,
        1_000.0,
        1_000.0,
    )
    .expect("the settings are valid");
    // The banker's bet is lost with the whole bankroll.
    let lost = || row("a", 1, 1, "b:73,62,;p:53,8,", 322);
    let report = replay_csv_rows(&vec![lost()], None, config, scale(), &f64::sqrt)
        .expect("one round can be played");
    assert_eq!(report.bets[0].bet, "banker");
    assert_eq!(report.summary.final_bankroll, 0.0);
    let next = row("b", 1, 2, "b:24,31,45;p:31,42,47", 36);
    match replay_csv_rows(&vec![lost(), next], None, config, scale(), &f64::sqrt) {
        Err(ReplayStop::Stakes(KellyError::InvalidBankroll { value })) => assert_eq!(value, 0.0),
        other => panic!("nothing is left to stake: {other:?}"),
    }
}

#[test]
fn the_kinds_of_bets_add_up_to_the_summary() {
    let csv = format!(
        "{HEADER}a,1,9001,1,2026-08-20 00:00:12,2026-08-20 00:00:44,\"b:24,31,45;p:31,42,47\",36\n\
         b,1,9001,2,2026-08-20 00:00:54,2026-08-20 00:01:17,\"b:73,62,;p:53,8,\",322\n"
    );
    let summary = replay_csv_text(&csv, strategy()).expect("two rounds can be played").summary;
    let close = |a: f64, b: f64| assert!((a - b).abs() < 1e-9, "{a} != {b}");
    close(
        summary.final_bankroll,
        summary.initial_bankroll + summary.base_game_profit + summary.rebate_income,
    );
    let (count, stake, profit) = summary.bet_breakdown.totals();
    assert_eq!(count, summary.placed_bet_count);
    close(stake, summary.total_stake);
    close(profit, summary.total_profit);
    let (gains, losses) = summary.bet_breakdown.gross_totals();
    close(gains - losses, summary.total_profit);
    let (gains, losses) = summary.bet_breakdown.base_gross_totals();
    close(gains - losses, summary.base_game_profit);
}

#[test]
fn every_bankroll_is_between_the_lowest_and_the_highest() {
    let csv = format!(
        "{HEADER}a,1,9001,1,2026-08-20 00:00:12,2026-08-20 00:00:44,\"b:24,31,45;p:31,42,47\",36\n\
         b,1,9001,2,2026-08-20 00:00:54,2026-08-20 00:01:17,\"b:73,62,;p:53,8,\",322\n"
    );
    let report = replay_csv_text(&csv, strategy()).expect("two rounds can be played");
    let summary = report.summary;
    let within = |bankroll: f64| {
        summary.minimum_bankroll <= bankroll && bankroll <= summary.maximum_bankroll
    };
    assert!(within(summary.initial_bankroll));
    assert!(within(summary.final_bankroll));
    assert!(!report.bets.is_empty());
    assert!(report.bets.iter().all(|bet| within(bet.bankroll_after)));
    assert!(summary.minimum_bankroll < summary.maximum_bankroll);
}
