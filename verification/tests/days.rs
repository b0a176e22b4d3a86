use game_ev_engine::baccarat::day::{bet_matches_outcome, replay_day, DayConfig, DayStop};
use game_ev_engine::baccarat::day_load::{load_day, DayLoadError};
use game_ev_engine::baccarat::point_cache::PointCache;
use game_ev_engine::baccarat::records::CsvRound;
use game_ev_engine::options::{
    day_number_refusal, day_usage_text, parse_generator_args, read_day_option, DayConfigProblem,
};
use game_ev_engine::{
    analyze_main_bets, calculate_main_outcomes, Card, CsvReplayError, KellyError, MainBet,
    MainBetRules, RebateRule, RoundOutcome, Scale, Shoe,
};

fn scale() -> Scale<f64> {
    Scale { least: f64::MIN, zero: 0.0, one: 1.0, largest: f64::MAX }
}

fn row(key: &str, table_id: u64, session_id: u64, round_no: u32, cards: &str, code: u64) -> CsvRound {
    CsvRound {
        source_pk: Some(key.to_owned()),
        table_id,
        session_id,
        round_no,
        started_at: Some(format!("2026-08-20 00:{:02}:12", round_no)),
        settled_at: Some(format!("2026-08-20 00:{:02}:44", round_no)),
        raw_cards: cards.to_owned(),
        result_code: Some(code),
    }
}

fn generous() -> DayConfig<f64> {
    DayConfig { rebate_rate: 0.02, max_fraction: 0.05, ..DayConfig::new() }
}

#[test]
fn a_day_is_replayed_with_the_same_bankroll_in_every_round() {
    let rows = vec![
        row("b", 1, 9001, 2, "b:73,62,;p:53,8,", 322),
        row("a", 1, 9001, 1, "b:24,31,45;p:31,42,47", 36),
        row("c", 1, 9002, 1, "b:24,31,45;p:31,42,47", 36),
    ];
    let loaded = load_day(&rows, None).expect("the rows are those of one day");
    assert_eq!(loaded.dataset().business_date_min, "2026-08-20");
    let report = replay_day(&loaded, generous(), scale(), &f64::sqrt).expect("the shoes are whole");

    assert_eq!(report.replayed_sessions, 2);
    assert_eq!(report.replayed_rounds, 3);
    // The second full shoe has been met before.
    assert_eq!(report.probability_cache_hits, 1);
    assert_eq!(report.probability_cache_misses, 2);
    assert_eq!(report.quality.fully_observable_sessions, 2);
    assert_eq!(report.books.candidate_bets.banker, 3);
    assert_eq!(report.books.placed_bets.banker, 3);
    assert_eq!(report.books.skipped_bets, 0);
    assert_eq!(report.books.placed_bet_wins, 0);
    assert_eq!(report.placed_bet_hit_rate, Some(0.0));

    // Full shoes quote the same stake twice: 10000 times at most a twentieth, by Kelly.
    let full: f64 = report.books.maximum_candidate_effective_ev.expect("rounds were played");
    let least: f64 = report.books.minimum_candidate_effective_ev.expect("rounds were played");
    let mean: f64 = report.average_candidate_effective_ev.expect("rounds were played");
    assert!(least <= mean && mean <= full);
    assert!(report.books.total_suggested_stake > 0.0);
    // Two ties return the stakes without a rebate; the player's win loses one stake with it.
    assert!(report.books.hypothetical_actual_profit < 0.0);
}

#[test]
fn the_first_round_of_a_day_is_planned_by_a_full_shoe() {
    let rows = vec![row("a", 1, 1, 1, "b:24,31,45;p:31,42,47", 36)];
    let loaded = load_day(&rows, None).expect("the rows are those of one day");
    let config: DayConfig<f64> = DayConfig { minimum_ev: 0.5, ..DayConfig::new() };
    let report = replay_day(&loaded, config, scale(), &f64::sqrt).expect("the shoe is whole");
    let rules: MainBetRules<f64> = MainBetRules::standard().per_unit();
    let analysis = analyze_main_bets(&Shoe::default(), rules).expect("a full shoe has weights");
    let rebate = RebateRule::AllExceptMainBetTie { rate: 0.009 };
    assert_eq!(
        report.books.maximum_candidate_effective_ev,
        Some(analysis.optimal_effective_ev(rebate))
    );
    assert_eq!(report.books.skipped_bets, 1);
    assert_eq!(report.books.placed_bets.banker, 0);
    assert_eq!(report.placed_bet_hit_rate, None);
    assert_eq!(report.books.total_suggested_stake, 0.0);
}

#[test]
fn a_day_without_a_whole_shoe_plays_nothing() {
    let rows = vec![row("a", 1, 1, 5, "b:24,31,45;p:31,42,47", 36)];
    let loaded = load_day(&rows, None).expect("the rows are those of one day");
    let report = replay_day(&loaded, generous(), scale(), &f64::sqrt).expect("nothing is played");
    assert_eq!(report.replayed_rounds, 0);
    assert_eq!(report.quality.sessions_starting_mid_shoe, 1);
    assert_eq!(report.quality.quarantined_rounds, 1);
    assert_eq!(report.average_candidate_effective_ev, None);
}

#[test]
fn a_day_stops_where_its_limits_or_cards_do_not_fit() {
    let rows = vec![row("a", 1, 1, 1, "b:24,31,45;p:31,42,47", 36)];
    let loaded = load_day(&rows, None).expect("the rows are those of one day");
    let config = DayConfig { table_limit: -1.0, ..generous() };
    assert!(matches!(
        replay_day(&loaded, config, scale(), &f64::sqrt),
        Err(DayStop::Stakes(KellyError::InvalidTableLimit { value })) if value == -1.0
    ));
    // Nine rounds with a jack of diamonds on each side need eighteen of them.
    let mut rows = Vec::new();
    for n in 1..=9u32 {
        rows.push(row(&format!("r{n}"), 1, 1, n, "b:24,31,45;p:31,42,47", 36));
    }
    let loaded = load_day(&rows, None).expect("the rows are those of one day");
    match replay_day(&loaded, generous(), scale(), &f64::sqrt) {
        Err(DayStop::Replay(CsvReplayError::ShoeState { session_id, round_no, .. })) => {
            assert_eq!((session_id, round_no), (1, 5));
        }
        other => panic!("the fifth round has no jack of diamonds left: {other:?}"),
    }
}

#[test]
fn rows_of_several_days_or_none_are_refused() {
    let mut rows = vec![
        row("a", 1, 1, 1, "b:24,31,45;p:31,42,47", 36),
        row("b", 1, 2, 1, "b:24,31,45;p:31,42,47", 36),
        row("c", 1, 3, 1, "b:24,31,45;p:31,42,47", 36),
    ];
    rows[0].started_at = Some("2026-08-21 00:00:00".to_owned());
    match load_day(&rows, None) {
        Err(DayLoadError::MultipleBusinessDates(dates)) => {
            assert_eq!(dates, [("2026-08-20".to_owned(), 2), ("2026-08-21".to_owned(), 1)]);
        }
        other => panic!("there are two dates: {other:?}"),
    }
    // Two dates come before repeated rows.
    rows[1].source_pk = Some("a".to_owned());
    assert!(matches!(load_day(&rows, None), Err(DayLoadError::MultipleBusinessDates(_))));
    rows[0].started_at = rows[1].started_at.clone();
    assert!(matches!(
        load_day(&rows, None),
        Err(DayLoadError::Rows(CsvReplayError::DuplicateKeys { source_pk_rows: 1, round_keys: 0 }))
    ));
    match load_day(&vec![], None) {
        Err(DayLoadError::MultipleBusinessDates(dates)) => assert!(dates.is_empty()),
        other => panic!("there is no date: {other:?}"),
    }
    assert!(matches!(
        load_day(&rows, Some("broken".to_owned())),
        Err(DayLoadError::Rows(CsvReplayError::Csv(message))) if message == "broken"
    ));
}

#[test]
fn a_bet_matches_the_outcome_it_names() {
    let outcomes = [RoundOutcome::Player, RoundOutcome::Banker, RoundOutcome::Tie];
    for (i, bet) in MainBet::ALL.into_iter().enumerate() {
        for (j, outcome) in outcomes.into_iter().enumerate() {
            assert_eq!(bet_matches_outcome(bet, outcome), i == j);
        }
    }
}

#[test]
fn points_alone_decide_the_main_outcomes() {
    let cards = |text: &str| -> Vec<Card> {
        text.split_whitespace().map(|c| c.parse().expect("a card")).collect()
    };
    let mut one = Shoe::default();
    one.remove_many(&cards("KS QS 2C 3D 10H 7S")).expect("the cards are there");
    let mut other = Shoe::default();
    other.remove_many(&cards("JD 10C 2H 3S KC 7D")).expect("the cards are there");
    assert_eq!(calculate_main_outcomes(&one), calculate_main_outcomes(&other));

    let mut cache = PointCache::new();
    let first = cache.weights(&one).expect("the shoe has weights");
    let second = cache.weights(&other).expect("the shoe has weights");
    assert_eq!(first, second);
    assert_eq!((cache.hits(), cache.misses()), (1, 1));
}

fn words(list: &[&str]) -> Vec<String> {
    list.iter().map(|word| word.to_string()).collect()
}

#[test]
fn generator_arguments_set_what_they_name() {
    let config = parse_generator_args(&words(&["out.csv"])).expect("a path is enough");
    assert_eq!(config.output, "out.csv");
    assert_eq!(config.simulation.shoes, 100);
    assert_eq!(config.simulation.decks, 8);
    assert_eq!(config.simulation.max_rounds_per_shoe, 60);
    assert_eq!(config.simulation.seed, 20_260_902);
    assert_eq!(config.simulation.start_session_id, 1_000_000);
    let config = parse_generator_args(&words(&[
        "out.csv",
        "--shoes=2",
        "--decks=+6",
        "--rounds-per-shoe=10",
        "--seed=18446744073709551615",
        "--start-session-id=7",
    ]))
    .expect("the options are valid");
    assert_eq!(config.simulation.shoes, 2);
    assert_eq!(config.simulation.decks, 6);
    assert_eq!(config.simulation.max_rounds_per_shoe, 10);
    assert_eq!(config.simulation.seed, u64::MAX);
    assert_eq!(config.simulation.start_session_id, 7);
}

#[test]
fn refused_generator_arguments_say_why() {
    let refusal = |list: &[&str]| parse_generator_args(&words(list)).expect_err("refused");
    assert!(refusal(&[]).starts_with("缺少输出 CSV 路径\n用法："));
    assert!(refusal(&["o", "--shoes"]).starts_with("参数必须使用 --name=value 格式：--shoes\n用法："));
    assert!(refusal(&["o", "--other=1"]).starts_with("未知参数：--other\n用法："));
    assert_eq!(refusal(&["o", "--decks=256"]), "参数 --decks 不是有效整数：256");
    assert_eq!(refusal(&["o", "--shoes=a=b"]), "参数 --shoes 不是有效整数：a=b");
    assert_eq!(refusal(&["o", "--seed=18446744073709551616"]), "参数 --seed 不是有效整数：18446744073709551616");
    assert_eq!(refusal(&["o", "--shoes=0"]), "牌靴数必须大于 0");
}

#[test]
fn day_options_are_read_set_and_checked() {
    let config: DayConfig<f64> = DayConfig::new();
    assert_eq!(config.rebate_rate, 0.009);
    assert_eq!(config.bankroll, 10_000.0);
    assert_eq!(config.check(scale()), None);
    let (name, value) = read_day_option("--bankroll=5e3").expect("an option");
    assert_eq!((name.as_str(), value.as_str()), ("--bankroll", "5e3"));
    let config = config.set_option(&name, 5_000.0).expect("the option is known");
    assert_eq!(config.bankroll, 5_000.0);
    let error = config.set_option("--other", 1.0).expect_err("the option is unknown");
    assert_eq!(error, day_usage_text("未知参数：--other"));
    assert!(error.starts_with("未知参数：--other\n用法：replay_csv <csv-path>"));
    assert!(read_day_option("bankroll").is_err());
    assert!(day_number_refusal("--bankroll", "x").starts_with("参数 --bankroll 不是有效数字：x\n"));

    let rebate = DayConfig { rebate_rate: 2.0, ..config };
    assert_eq!(rebate.check(scale()), Some(DayConfigProblem::RebateRate));
    let minimum = DayConfig { minimum_ev: f64::NAN, ..config };
    assert_eq!(minimum.check(scale()), Some(DayConfigProblem::MinimumEv));
    let bankroll = DayConfig { bankroll: 0.0, ..config };
    let problem = bankroll.check(scale()).expect("the bankroll is refused");
    assert_eq!(problem.to_string(""), "--bankroll 必须是有限正数");
    let fraction = DayConfig { max_fraction: 2.0, ..config };
    assert_eq!(
        fraction.check(scale()),
        Some(DayConfigProblem::Stakes(KellyError::InvalidMaxFraction { value: 2.0 }))
    );
}
