use game_ev_engine::baccarat::packets::prepare_generated_shoe;
use game_ev_engine::baccarat::provider::parse_raw_cards;
use game_ev_engine::baccarat::records::CsvRound;
use game_ev_engine::baccarat::simulation::has_generated_columns;
use game_ev_engine::{
    calculate_main_and_side_outcomes, generate_baccarat_csv, generate_baccarat_csv_text,
    replay_csv_rows, resolve_round, BaccaratShoeGenerator, BaccaratSimulationConfig,
    BaccaratSimulationError, Card, CsvReplayConfig, CsvReplayReport, GeneratedRound, ReplayStop,
    RoundError, Scale, Shoe,
};

fn scale() -> Scale<f64> {
    Scale { least: f64::MIN, zero: 0.0, one: 1.0, largest: f64::MAX }
}

fn rows_of(csv_text: &str) -> Vec<CsvRound> {
    let mut reader = csv::ReaderBuilder::new().flexible(false).from_reader(csv_text.as_bytes());
    let wide = reader.headers().expect("the header can be read").len() == 8;
    let mut rows = Vec::new();
    for record in reader.records() {
        let record = record.expect("the row can be read");
        if wide {
            rows.push(CsvRound {
                source_pk: Some(record[0].to_owned()),
                table_id: record[1].parse().expect("a table"),
                session_id: record[2].parse().expect("a shoe"),
                round_no: record[3].parse().expect("a round"),
                started_at: Some(record[4].to_owned()),
                settled_at: Some(record[5].to_owned()),
                raw_cards: record[6].to_owned(),
                result_code: Some(record[7].parse().expect("a result")),
            });
        } else {
            rows.push(CsvRound::generated(
                record[0].parse().expect("a shoe"),
                record[1].parse().expect("a round"),
                record[2].to_owned(),
            ));
        }
    }
    rows
}

fn replay_csv_text(
    csv_text: &str,
    config: CsvReplayConfig<f64>,
) -> Result<CsvReplayReport<f64>, ReplayStop<f64>> {
    replay_csv_rows(&rows_of(csv_text), None, config, scale(), &f64::sqrt)
}

fn config(seed: u64) -> BaccaratSimulationConfig {
    BaccaratSimulationConfig::new(2, 8, 10, seed, 50_000).expect("the parameters are valid")
}

#[test]
fn same_seed_generates_identical_three_column_csv() {
    let first = generate_baccarat_csv_text(config(12345)).expect("第一次生成应该成功");
    let second = generate_baccarat_csv_text(config(12345)).expect("第二次生成应该成功");

    assert_eq!(first, second);
    assert_eq!(first.lines().next(), Some("session_id,round_no,raw_cards"));
}

#[test]
fn generated_csv_passes_the_real_replay_validator() {
    let csv = generate_baccarat_csv_text(config(98765)).expect("随机 CSV 应该生成成功");
    let replay_config = CsvReplayConfig::new(scale(), 8, 0.009, 0.0, 10_000.0, 0.05, 500.0, 500.0)
        .expect("回放配置应该合法");
    let report = replay_csv_text(&csv, replay_config).expect("随机 CSV 应该通过真实回放");

    assert_eq!(report.dataset.total_rows, 20);
    assert_eq!(report.quality.fully_observable_sessions, 2);
    assert_eq!(report.quality.valid_card_rows, 20);
    assert_eq!(report.quality.invalid_card_rows, 0);
    assert_eq!(report.quality.outcome_mismatch_rows, 0);
}

#[test]
fn incremental_generator_keeps_the_same_seed_stream_as_csv_writer() {
    let expected = generate_baccarat_csv_text(config(12345)).expect("整批生成应该成功");
    let expected_cards: Vec<String> = csv::Reader::from_reader(expected.as_bytes())
        .records()
        .map(|record| record.expect("生成的 CSV 应该可读取")[2].to_owned())
        .collect();

    let mut generator = BaccaratShoeGenerator::new(config(12345));
    let mut actual_cards = Vec::new();
    for _ in 0..2 {
        let rows: Vec<GeneratedRound> =
            generator.next_shoe().expect("增量牌靴应该生成").expect("增量牌靴应该生成").rows;
        assert_eq!(rows.len(), 10);
        actual_cards.extend(rows.into_iter().map(|row| row.raw_cards));
    }
    assert_eq!(actual_cards, expected_cards);
    assert!(generator.next_shoe().expect("生成完毕应该正常返回").is_none());
}

#[test]
fn the_first_line_of_a_seed_does_not_change() {
    let text = generate_baccarat_csv_text(config(1)).expect("the shoes can be dealt");
    let again = generate_baccarat_csv_text(config(2)).expect("the shoes can be dealt");
    assert_ne!(text, again);
    assert_eq!(text.lines().count(), 21);
    for line in text.lines().skip(1) {
        assert!(line.starts_with("50000,") || line.starts_with("50001,"));
        assert!(line.contains(",\"b:"));
        assert!(line.ends_with('"'));
    }
}

#[test]
fn the_summary_counts_every_round() {
    let (text, summary) = generate_baccarat_csv(config(7)).expect("the shoes can be dealt");
    assert_eq!(summary.shoes, 2);
    assert_eq!(summary.rounds, 20);
    assert_eq!(summary.player_wins + summary.banker_wins + summary.ties, 20);
    assert_eq!(text.lines().count(), 21);
}

#[test]
fn parameters_that_cannot_be_dealt_are_refused() {
    let refusal = |shoes, decks, rounds, start| {
        match BaccaratSimulationConfig::new(shoes, decks, rounds, 1, start) {
            Err(BaccaratSimulationError::InvalidConfig(message)) => message,
            other => panic!("the parameters are refused: {other:?}"),
        }
    };
    assert_eq!(refusal(0, 8, 10, 1), "牌靴数必须大于 0");
    assert_eq!(refusal(1, 9, 10, 1), "副牌数必须在 1..=8 之间");
    assert_eq!(refusal(1, 8, 0, 1), "每靴最大子局数必须大于 0");
    assert_eq!(refusal(1, 8, 70, 1), "8 副牌最多保证生成 69 局，当前填写了 70 局");
    assert_eq!(refusal(2, 8, 10, u64::MAX), "牌靴编号发生 u64 溢出");
}

#[test]
fn each_row_of_a_shoe_is_prepared_with_the_shoe_before_it() {
    let mut generator = BaccaratShoeGenerator::new(config(12345));
    let rows = generator.next_shoe().expect("a shoe").expect("a shoe").rows;
    let packets = prepare_generated_shoe(&rows[..3], 8, 40).expect("the rounds can be dealt");
    assert_eq!(packets.len(), 3);
    let mut shoe = Shoe::default();
    for (k, packet) in packets.iter().enumerate() {
        let (weights, side_weights) =
            calculate_main_and_side_outcomes(&shoe).expect("the shoe is long");
        assert_eq!(packet.prepared.weights, weights);
        assert_eq!(packet.prepared.side_weights, side_weights);
        assert_eq!(packet.source.source_order, 40 + k);
        assert_eq!(packet.source.started_at, format!("CSV 第 {} 行", 42 + k));
        assert_eq!(packet.source.round_no as usize, k + 1);
        assert_eq!(packet.last_in_shoe, k == 2);
        let cards: Vec<Card> =
            packet.source.cards.iter().map(|index| Card::from_index(usize::from(*index))).collect();
        let round = resolve_round(&cards).expect("the cards are a round");
        assert_eq!(round.outcome(), packet.source.outcome);
        assert_eq!(round.banker_hand().total(), packet.source.banker_total);
        shoe.remove_many(&cards).expect("the cards are in the shoe");
    }
    assert!(prepare_generated_shoe(&[], 8, 0).expect("nothing to prepare").is_empty());
}

#[test]
fn the_first_row_that_cannot_be_dealt_is_told() {
    let row = |raw_cards: &str| GeneratedRound {
        session_id: 1,
        round_no: 1,
        raw_cards: raw_cards.to_owned(),
    };
    let refusal = |rows: &[GeneratedRound], decks: u8| {
        prepare_generated_shoe(rows, decks, 0).expect_err("the rows cannot be dealt")
    };
    assert_eq!(refusal(&[], 9), Shoe::new(9).expect_err("nine decks").to_string());
    assert_eq!(refusal(&[row("b:;p:")], 8), "随机牌局不应为空");
    assert_eq!(refusal(&[row("x"), row("b:;p:")], 8), "无法解析开奖内容：x");
    assert_eq!(refusal(&[row("b:24,31;p:31,42,47")], 8), RoundError::MissingBankerThirdCard.to_string());
    let tie = "b:24,31,45;p:31,42,47";
    // One deck has a single jack of diamonds.
    let message = refusal(&[row(tie)], 1);
    let mut shoe = Shoe::new(1).expect("one deck");
    let jack: Card = "JD".parse().expect("a card");
    let error = shoe.remove_many(&[jack, jack]).expect_err("one jack of diamonds");
    assert_eq!(message, error.to_string());
}

#[test]
fn generated_columns_are_known_by_their_names() {
    let names = |list: &[&str]| -> Vec<String> { list.iter().map(|n| n.to_string()).collect() };
    assert!(has_generated_columns(&names(&["session_id", "round_no", "raw_cards"])));
    assert!(!has_generated_columns(&names(&["session_id", "raw_cards", "round_no"])));
    assert!(!has_generated_columns(&names(&["session_id", "round_no"])));
}

#[test]
fn the_text_has_a_line_for_each_round_of_each_shoe() {
    let config = BaccaratSimulationConfig::new(3, 1, 8, 77, 900).expect("the parameters fit");
    let text = generate_baccarat_csv_text(config).expect("the shoes last");
    assert!(text.ends_with('\n'));
    assert_eq!(text.lines().count(), 1 + 3 * 8);
    assert_eq!(text.lines().next(), Some("session_id,round_no,raw_cards"));
    for (i, line) in text.lines().skip(1).enumerate() {
        assert!(line.starts_with(&format!("{},{},", 900 + i / 8, i % 8 + 1)), "{line}");
    }
    assert_eq!(generate_baccarat_csv_text(config).expect("the shoes last"), text);
}

#[test]
fn all_cards_of_a_session_fit_into_its_shoe() {
    let config = BaccaratSimulationConfig::new(5, 2, 17, 4_242, 1).expect("the parameters fit");
    let mut generator = BaccaratShoeGenerator::new(config);
    while let Some(generated) = generator.next_shoe().expect("the shoe lasts") {
        let mut shoe = Shoe::new(2).expect("two decks");
        let mut all = Vec::new();
        for row in generated.rows {
            let cards = parse_raw_cards(&row.raw_cards).expect("cards").expect("cards");
            resolve_round(&cards).expect("a complete round");
            all.extend(cards);
        }
        shoe.remove_many(&all).expect("no card is dealt more often than the shoe holds it");
        assert_eq!(usize::from(shoe.total_remaining()), 104 - all.len());
    }
}

#[test]
fn the_lines_of_one_shoe_tell_cards_of_a_full_shoe() {
    let config = BaccaratSimulationConfig::new(4, 1, 8, 31, 600).expect("the parameters fit");
    let text = generate_baccarat_csv_text(config).expect("the shoes last");
    let mut sessions: Vec<Vec<Card>> = vec![Vec::new(); 4];
    for (i, line) in text.lines().skip(1).enumerate() {
        let start = format!("{},{},\"", 600 + i / 8, i % 8 + 1);
        let payload = line.strip_prefix(&start).and_then(|rest| rest.strip_suffix('"'));
        let cards = parse_raw_cards(payload.expect("the payload stands in quotes"))
            .expect("the payload tells cards")
            .expect("the payload tells cards");
        resolve_round(&cards).expect("a complete round");
        sessions[i / 8].extend(cards);
    }
    for cards in &sessions {
        let mut shoe = Shoe::new(1).expect("one deck");
        shoe.remove_many(cards).expect("no card is dealt twice from one deck");
        assert!(cards.len() >= 4 * 8);
    }
}
