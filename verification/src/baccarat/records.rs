//! Recorded rounds: reading rows, judging each one and describing the whole data set.

use vstd::prelude::*;

use crate::baccarat::hand::BaccaratHand;
use crate::baccarat::provider;
use crate::baccarat::provider::{PayloadView, ProviderDataError};
use crate::baccarat::round;
use crate::baccarat::round::{RoundOutcome, RoundResult};
use crate::card::Card;
use crate::text;

verus! {

/// A row of recorded rounds. Rows of generated rounds have no key of their own, no times and no
/// recorded result.
#[derive(Debug)]
pub struct CsvRound {
    /// The unique key of the row at its source.
    pub source_pk: Option<String>,
    pub table_id: u64,
    /// The shoe at the table.
    pub session_id: u64,
    /// The number of the round in the shoe.
    pub round_no: u32,
    pub started_at: Option<String>,
    pub settled_at: Option<String>,
    /// The cards as a `b:..;p:..` payload.
    pub raw_cards: String,
    /// The recorded result, of which the low three bits name the main outcome.
    pub result_code: Option<u64>,
}

impl CsvRound {
    /// A row of a generated round.
    pub fn generated(session_id: u64, round_no: u32, raw_cards: String) -> (row: CsvRound)
        ensures
            row == (CsvRound {
                source_pk: None,
                table_id: 1,
                session_id,
                round_no,
                started_at: None,
                settled_at: None,
                raw_cards,
                result_code: None,
            }),
    {
        CsvRound {
            source_pk: None,
            table_id: 1,
            session_id,
            round_no,
            started_at: None,
            settled_at: None,
            raw_cards,
            result_code: None,
        }
    }
}

/// A text that may be missing.
pub open spec fn text_of(text: Option<String>) -> Option<Seq<char>> {
    match text {
        Some(text) => Some(text@),
        None => None,
    }
}

/// How a row is judged.
#[derive(Debug, Clone, Copy, PartialEq, Eq, Structural)]
pub enum RowVerdict {
    /// The cards make up a round that ends as recorded.
    Valid,
    /// There are no cards.
    Empty,
    /// The cards make up no round, or the recorded result names no outcome.
    Invalid,
    /// The round ends otherwise than recorded.
    Mismatch,
}

/// The winner of a list of dealt cards.
pub open spec fn winner_of(cards: Seq<Card>) -> RoundOutcome {
    round::winner(round::player_hand_of(cards).points(), round::banker_hand_of(cards).points())
}

/// Whether a list of cards is one complete round.
pub open spec fn is_round(cards: Seq<Card>) -> bool {
    round::dealing_error(round::card_points(cards)) is None
}

/// How a row is judged.
pub open spec fn row_verdict(row: CsvRound) -> RowVerdict {
    match provider::payload_of(row.raw_cards@) {
        PayloadView::Nothing => RowVerdict::Empty,
        PayloadView::Cards(cards) => if !is_round(cards) {
            RowVerdict::Invalid
        } else {
            match row.result_code {
                None => RowVerdict::Valid,
                Some(code) => match provider::recorded_outcome(code) {
                    None => RowVerdict::Invalid,
                    Some(recorded) => if recorded == winner_of(cards) {
                        RowVerdict::Valid
                    } else {
                        RowVerdict::Mismatch
                    },
                },
            }
        },
        _ => RowVerdict::Invalid,
    }
}

/// The cards of a row, where its payload tells any.
pub open spec fn row_cards(row: CsvRound) -> Option<Seq<Card>> {
    match provider::payload_of(row.raw_cards@) {
        PayloadView::Cards(cards) => Some(cards),
        _ => None,
    }
}

/// The outcome of the cards of a row, where they make up a round.
pub open spec fn row_outcome(row: CsvRound) -> Option<RoundOutcome> {
    match row_cards(row) {
        Some(cards) => if is_round(cards) {
            Some(winner_of(cards))
        } else {
            None
        },
        None => None,
    }
}

/// The banker's final points of a row, where its cards make up a round.
pub open spec fn row_banker_total(row: CsvRound) -> Option<int> {
    match row_cards(row) {
        Some(cards) => if is_round(cards) {
            Some(round::banker_hand_of(cards).points())
        } else {
            None
        },
        None => None,
    }
}

/// What a payload that tells no cards is said to be.
pub open spec fn payload_message(payload: PayloadView) -> Seq<char> {
    match payload {
        PayloadView::Malformed(raw) => "无法解析开奖内容："@ + raw,
        PayloadView::BadCodeText(code) => "牌码不是 u8："@ + code,
        PayloadView::BadCode(code) => "未知来源牌码："@ + text::decimal(code),
        PayloadView::BadShape(banker, player) => "非法手牌数量：庄 "@ + text::decimal(banker)
            + " 张，闲 "@ + text::decimal(player) + " 张"@,
        _ => Seq::empty(),
    }
}

/// The capitalised name of an outcome.
pub open spec fn outcome_title(outcome: RoundOutcome) -> Seq<char> {
    match outcome {
        RoundOutcome::Player => "Player"@,
        RoundOutcome::Banker => "Banker"@,
        RoundOutcome::Tie => "Tie"@,
    }
}

/// What is wrong with a row, in words; nothing where it is valid or empty.
pub open spec fn row_message(row: CsvRound) -> Option<Seq<char>> {
    let payload = provider::payload_of(row.raw_cards@);
    match payload {
        PayloadView::Nothing => None,
        PayloadView::Cards(cards) => match round::dealing_error(round::card_points(cards)) {
            Some(error) => Some("牌序不符合百家乐补牌规则："@ + error.message()),
            None => match row.result_code {
                None => None,
                Some(code) => match provider::recorded_outcome(code) {
                    None => Some(
                        (ProviderDataError::MainOutcomeBits {
                            result_code: code,
                            bits: code % 8,
                        }).message(),
                    ),
                    Some(recorded) => if recorded == winner_of(cards) {
                        None
                    } else {
                        Some(
                            "数据库结果 "@ + outcome_title(recorded) + " 与 Rust 结果 "@
                                + outcome_title(winner_of(cards)) + " 不一致"@,
                        )
                    },
                },
            },
        },
        _ => Some(payload_message(payload)),
    }
}

/// The time of a row as it is shown: the recorded one, or the line that the row stands on.
pub open spec fn row_label(row: CsvRound, index: int) -> Seq<char> {
    match row.started_at {
        Some(time) => time@,
        None => "CSV 第 "@ + text::decimal((index + 2) as nat) + " 行"@,
    }
}

/// A row after it has been judged.
#[derive(Debug)]
pub struct LoadedRound {
    pub table_id: u64,
    pub session_id: u64,
    pub round_no: u32,
    /// The recorded time, or the line that the row stands on.
    pub started_at: String,
    /// Whether the time was recorded.
    pub has_started_at: bool,
    pub cards: Option<Vec<Card>>,
    pub outcome: Option<RoundOutcome>,
    pub banker_total: Option<u8>,
    /// What is wrong with the row.
    pub validation_error: Option<String>,
}

impl LoadedRound {
    /// Whether this is what a row tells.
    pub open spec fn tells(self, row: CsvRound, index: int) -> bool {
        &&& self.table_id == row.table_id
        &&& self.session_id == row.session_id
        &&& self.round_no == row.round_no
        &&& self.started_at@ == row_label(row, index)
        &&& self.has_started_at == (row.started_at is Some)
        &&& match self.cards {
            Some(cards) => row_cards(row) == Some(cards@),
            None => row_cards(row) is None,
        }
        &&& self.outcome == row_outcome(row)
        &&& match self.banker_total {
            Some(total) => row_banker_total(row) == Some(total as int),
            None => row_banker_total(row) is None,
        }
        &&& text_of(self.validation_error) == row_message(row)
    }

    /// Whether the row can be replayed: it has cards and nothing is wrong with it.
    pub open spec fn playable(self) -> bool {
        self.cards is Some && self.validation_error is None
    }

    /// Whether the row can be read and tells no cards.
    pub open spec fn blank(self) -> bool {
        self.cards is None && self.validation_error is None
    }

    /// A playable row has the cards of one complete round, with its outcome.
    pub open spec fn wf(self) -> bool {
        self.playable() ==> {
            &&& is_round(self.cards->0@)
            &&& self.outcome == Some(winner_of(self.cards->0@))
            &&& self.banker_total == Some(
                round::banker_hand_of(self.cards->0@).points() as u8,
            )
        }
    }

    /// The shoe that the row belongs to.
    pub open spec fn session(self) -> (u64, u64) {
        (self.table_id, self.session_id)
    }

    /// The place of the row: table, shoe and round.
    pub open spec fn place(self) -> (u64, u64, u32) {
        (self.table_id, self.session_id, self.round_no)
    }

    /// The recorded time; nothing where none was recorded.
    pub open spec fn time(self) -> Seq<char> {
        if self.has_started_at {
            self.started_at@
        } else {
            Seq::empty()
        }
    }
}

/// The name of an outcome with a capital.
fn outcome_debug(outcome: RoundOutcome) -> (name: &'static str)
    ensures
        name@ == outcome_title(outcome),
{
    match outcome {
        RoundOutcome::Player => "Player",
        RoundOutcome::Banker => "Banker",
        RoundOutcome::Tie => "Tie",
    }
}

/// Judges a row by itself.
pub fn validate_source_round(source: &CsvRound, index: usize) -> (result: (LoadedRound, RowVerdict))
    requires
        index + 2 <= u64::MAX,
    ensures
        result.0.tells(*source, index as int),
        result.0.wf(),
        result.1 == row_verdict(*source),
{
    let label: String = match &source.started_at {
        Some(time) => time.clone(),
        None => {
            let mut label: String = "CSV 第 ".to_owned();
            text::push_decimal(&mut label, index as u64 + 2);
            label.append(" 行");
            label
        },
    };
    let mut loaded: LoadedRound = LoadedRound {
        table_id: source.table_id,
        session_id: source.session_id,
        round_no: source.round_no,
        started_at: label,
        has_started_at: source.started_at.is_some(),
        cards: None,
        outcome: None,
        banker_total: None,
        validation_error: None,
    };
    let cards: Vec<Card> = match provider::parse_raw_cards(source.raw_cards.as_str()) {
        Ok(Some(cards)) => cards,
        Ok(None) => {
            return (loaded, RowVerdict::Empty);
        },
        Err(error) => {
            loaded.validation_error = Some(error.to_string());
            return (loaded, RowVerdict::Invalid);
        },
    };
    let result: RoundResult = match round::resolve_round(cards.as_slice()) {
        Ok(result) => result,
        Err(error) => {
            loaded.cards = Some(cards);
            loaded.validation_error = Some(
                "牌序不符合百家乐补牌规则：".to_owned().concat(error.to_string().as_str()),
            );
            return (loaded, RowVerdict::Invalid);
        },
    };
    let calculated: RoundOutcome = result.outcome();
    let banker_hand: BaccaratHand = result.banker_hand();
    loaded.cards = Some(cards);
    loaded.outcome = Some(calculated);
    loaded.banker_total = Some(banker_hand.total());
    let code: u64 = match source.result_code {
        Some(code) => code,
        None => {
            return (loaded, RowVerdict::Valid);
        },
    };
    let recorded: RoundOutcome = match provider::decode_recorded_outcome(code) {
        Ok(recorded) => recorded,
        Err(error) => {
            loaded.validation_error = Some(error.to_string());
            return (loaded, RowVerdict::Invalid);
        },
    };
    if recorded != calculated {
        let mut message: String = "数据库结果 ".to_owned();
        message.append(outcome_debug(recorded));
        message.append(" 与 Rust 结果 ");
        message.append(outcome_debug(calculated));
        message.append(" 不一致");
        loaded.validation_error = Some(message);
        return (loaded, RowVerdict::Mismatch);
    }
    (loaded, RowVerdict::Valid)
}

/// The number of bytes of a character in UTF-8.
pub open spec fn width(c: char) -> int {
    let code = c as u32;
    if code < 0x80 {
        1
    } else if code < 0x800 {
        2
    } else if code < 0x10000 {
        3
    } else {
        4
    }
}

/// The number of bytes of a text in UTF-8.
pub open spec fn byte_length(s: Seq<char>) -> int
    decreases s.len(),
{
    if s.len() == 0 {
        0
    } else {
        byte_length(s.drop_last()) + width(s.last())
    }
}

/// The date at the start of a time: its first ten bytes, where they end with a character.
pub open spec fn date_of(time: Seq<char>) -> Option<Seq<char>> {
    if exists|n: int| 0 <= n <= time.len() && #[trigger] byte_length(time.take(n)) == 10 {
        Some(
            time.take(
                choose|n: int| 0 <= n <= time.len() && #[trigger] byte_length(time.take(n)) == 10,
            ),
        )
    } else {
        None
    }
}

proof fn lemma_byte_length_grows(s: Seq<char>, a: int, b: int)
    requires
        0 <= a <= b <= s.len(),
    ensures
        byte_length(s.take(b)) >= byte_length(s.take(a)) + (b - a),
        byte_length(s.take(a)) >= a,
    decreases b,
{
    if a < b {
        lemma_byte_length_grows(s, a, b - 1);
        assert(s.take(b).drop_last() =~= s.take(b - 1));
    } else if a > 0 {
        lemma_byte_length_grows(s, a - 1, b - 1);
        assert(s.take(a).drop_last() =~= s.take(a - 1));
    }
}

fn char_width(c: char) -> (bytes: usize)
    ensures
        bytes == width(c),
{
    let code: u32 = c as u32;
    if code < 0x80 {
        1
    } else if code < 0x800 {
        2
    } else if code < 0x10000 {
        3
    } else {
        4
    }
}

/// Reads the date at the start of a time.
pub fn read_date(time: &Vec<char>) -> (date: Option<Vec<char>>)
    ensures
        match date {
            Some(date) => date_of(time@) == Some(date@),
            None => date_of(time@) is None,
        },
{
    let mut bytes: usize = 0;
    let mut n: usize = 0;
    while n < time.len() && bytes < 10
        invariant
            n <= time.len(),
            bytes == byte_length(time@.take(n as int)),
            bytes <= 13,
            forall|m: int| 0 <= m < n ==> #[trigger] byte_length(time@.take(m)) < 10,
        decreases time.len() - n,
    {
        proof {
            assert(time@.take(n + 1).drop_last() =~= time@.take(n as int));
        }
        bytes = bytes + char_width(time[n]);
        n = n + 1;
    }
    proof {
        assert forall|m: int|
            0 <= m <= time.len() && #[trigger] byte_length(time@.take(m)) == 10 implies m == n by {
            if m > n {
                lemma_byte_length_grows(time@, n as int, m);
            }
        }
    }
    if bytes == 10 {
        assert(byte_length(time@.take(n as int)) == 10);
        let date: Vec<char> = text::part_of(time, 0, n);
        assert(date@ =~= time@.take(n as int));
        Some(date)
    } else {
        None
    }
}

/// What a data set looks like.
#[derive(Debug)]
pub struct CsvDatasetReport {
    pub total_rows: u64,
    pub table_count: usize,
    pub session_count: usize,
    pub business_date_count: usize,
    pub business_date_min: String,
    pub business_date_max: String,
    pub started_at_min: String,
    pub started_at_max: String,
    pub settled_at_min: String,
    pub settled_at_max: String,
    pub duplicate_source_pk_rows: u64,
    pub duplicate_round_keys: u64,
}

impl CsvDatasetReport {
    /// Whether two reports say the same.
    pub open spec fn same(self, other: CsvDatasetReport) -> bool {
        &&& self.total_rows == other.total_rows
        &&& self.table_count == other.table_count
        &&& self.session_count == other.session_count
        &&& self.business_date_count == other.business_date_count
        &&& self.business_date_min@ == other.business_date_min@
        &&& self.business_date_max@ == other.business_date_max@
        &&& self.started_at_min@ == other.started_at_min@
        &&& self.started_at_max@ == other.started_at_max@
        &&& self.settled_at_min@ == other.settled_at_min@
        &&& self.settled_at_max@ == other.settled_at_max@
        &&& self.duplicate_source_pk_rows == other.duplicate_source_pk_rows
        &&& self.duplicate_round_keys == other.duplicate_round_keys
    }

    /// A report that says the same.
    pub fn duplicate(&self) -> (report: CsvDatasetReport)
        ensures
            report.same(*self),
    {
        CsvDatasetReport {
            total_rows: self.total_rows,
            table_count: self.table_count,
            session_count: self.session_count,
            business_date_count: self.business_date_count,
            business_date_min: self.business_date_min.clone(),
            business_date_max: self.business_date_max.clone(),
            started_at_min: self.started_at_min.clone(),
            started_at_max: self.started_at_max.clone(),
            settled_at_min: self.settled_at_min.clone(),
            settled_at_max: self.settled_at_max.clone(),
            duplicate_source_pk_rows: self.duplicate_source_pk_rows,
            duplicate_round_keys: self.duplicate_round_keys,
        }
    }
}

/// How the rows and shoes of a data set were judged.
#[derive(Debug, Clone, Copy, PartialEq, Eq)]
pub struct CsvQualityReport {
    pub valid_card_rows: u64,
    pub empty_card_rows: u64,
    pub invalid_card_rows: u64,
    pub outcome_mismatch_rows: u64,
    pub sessions_starting_at_one: u64,
    pub sessions_starting_mid_shoe: u64,
    pub sessions_with_round_gaps: u64,
    pub sessions_with_empty_cards: u64,
    pub sessions_with_invalid_rows: u64,
    pub fully_observable_sessions: u64,
    pub quarantined_rounds: u64,
}

/// Why a replay fails.
#[derive(Debug, Clone, PartialEq, Eq)]
pub enum CsvReplayError {
    /// The settings are refused.
    Configuration(String),
    /// The rows cannot be read.
    Csv(String),
    /// There are no rows.
    EmptyDataset,
    /// A time does not start with a date.
    InvalidTimestamp(String),
    /// A row or a round occurs more than once.
    DuplicateKeys { source_pk_rows: u64, round_keys: u64 },
    /// The weights of a round cannot be computed.
    Probability { table_id: u64, session_id: u64, round_no: u32, message: String },
    /// A stake cannot be computed.
    Strategy(String),
    /// The cards of a round are not all left in its shoe.
    ShoeState { table_id: u64, session_id: u64, round_no: u32, message: String },
}

/// A round of a shoe at a table, in words.
pub open spec fn place_message(table_id: u64, session_id: u64, round_no: u32) -> Seq<char> {
    "桌 "@ + text::decimal(table_id as nat) + " 牌靴 "@ + text::decimal(session_id as nat)
        + " 第 "@ + text::decimal(round_no as nat) + " 局"@
}

fn place_text(table_id: u64, session_id: u64, round_no: u32) -> (result: String)
    ensures
        result@ == place_message(table_id, session_id, round_no),
{
    let mut result: String = "桌 ".to_owned();
    text::push_decimal(&mut result, table_id);
    result.append(" 牌靴 ");
    text::push_decimal(&mut result, session_id);
    result.append(" 第 ");
    text::push_decimal(&mut result, round_no as u64);
    result.append(" 局");
    result
}

impl CsvReplayError {
    /// The message of the error.
    pub open spec fn message(self) -> Seq<char> {
        match self {
            CsvReplayError::Configuration(message) => message@,
            CsvReplayError::Csv(message) => "CSV 读取失败："@ + message@,
            CsvReplayError::EmptyDataset => "CSV 没有任何数据行"@,
            CsvReplayError::InvalidTimestamp(value) => "非法 started_at："@ + value@,
            CsvReplayError::DuplicateKeys { source_pk_rows, round_keys } =>
                "发现重复键：source_pk 重复 "@ + text::decimal(source_pk_rows as nat)
                + " 行，局键重复 "@ + text::decimal(round_keys as nat) + " 行"@,
            CsvReplayError::Probability { table_id, session_id, round_no, message } =>
                place_message(table_id, session_id, round_no) + "概率计算失败："@ + message@,
            CsvReplayError::Strategy(message) => "下注策略计算失败："@ + message@,
            CsvReplayError::ShoeState { table_id, session_id, round_no, message } =>
                place_message(table_id, session_id, round_no) + "扣牌失败："@ + message@,
        }
    }

    /// The message of the error.
    pub fn to_string(&self) -> (result: String)
        ensures
            result@ == self.message(),
    {
        match self {
            CsvReplayError::Configuration(message) => message.clone(),
            CsvReplayError::Csv(message) => {
                "CSV 读取失败：".to_owned().concat(message.as_str())
            },
            CsvReplayError::EmptyDataset => "CSV 没有任何数据行".to_owned(),
            CsvReplayError::InvalidTimestamp(value) => {
                "非法 started_at：".to_owned().concat(value.as_str())
            },
            CsvReplayError::DuplicateKeys { source_pk_rows, round_keys } => {
                let mut result: String = "发现重复键：source_pk 重复 ".to_owned();
                text::push_decimal(&mut result, *source_pk_rows);
                result.append(" 行，局键重复 ");
                text::push_decimal(&mut result, *round_keys);
                result.append(" 行");
                result
            },
            CsvReplayError::Probability { table_id, session_id, round_no, message } => {
                let mut result: String = place_text(*table_id, *session_id, *round_no);
                result.append("概率计算失败：");
                result.append(message.as_str());
                result
            },
            CsvReplayError::Strategy(message) => {
                "下注策略计算失败：".to_owned().concat(message.as_str())
            },
            CsvReplayError::ShoeState { table_id, session_id, round_no, message } => {
                let mut result: String = place_text(*table_id, *session_id, *round_no);
                result.append("扣牌失败：");
                result.append(message.as_str());
                result
            },
        }
    }
}

} // verus!
