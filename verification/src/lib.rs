//! Exact outcome weights and betting decisions for baccarat and blackjack shoes.

pub mod baccarat;
pub mod blackjack;
pub mod card;
pub mod cli;
pub mod counting;
pub mod csv_text;
pub mod exact;
pub mod number;
pub mod options;
pub mod order;
pub mod scale;
pub mod shoe;
pub mod sorting;
pub mod text;
pub mod web_api;

use vstd::prelude::*;

pub use baccarat::analysis::{
    BetMetrics, EffectiveBetMetrics, EffectiveMainBets, EffectiveSideBets, MainBetAnalysis,
};
pub use baccarat::bet::{BankerPayoutRule, MainBet, MainBetRules};
pub use baccarat::engine::{
    replay_rounds, CsvBetDetail, CsvReplaySummary, ReplayOutcome, ReplayStop,
};
pub use baccarat::ev::{analyze_main_bets, effective_ev, MainBetEv, SideBetAnalysis, SideBetMetrics};
pub use baccarat::hand::BaccaratHand;
pub use baccarat::kelly::{
    calculate_kelly_fraction, main_bet_kelly_outcomes, side_bet_kelly_outcomes,
    side_bet_kelly_outcomes_with_rebate, KellyOutcome,
};
pub use baccarat::ledger::{CsvBetBreakdown, CsvBetPerformance};
pub use baccarat::point_enumerate::{
    calculate_main_and_side_outcomes, calculate_main_outcomes, calculate_side_bet_outcomes,
};
pub use baccarat::probability::{OutcomeWeights, ProbabilityError};
pub use baccarat::rebate::RebateRule;
pub use baccarat::records::{CsvDatasetReport, CsvQualityReport, CsvReplayError};
pub use baccarat::replay::{CsvBetCounts, CsvReplayConfig, SideBetRoundLimits};
pub use baccarat::report::{replay_csv_rows, CsvReplayConfigSnapshot, CsvReplayReport};
pub use baccarat::risk::{
    BetPlan, BetPlanAction, BetPlanSkipReason, CombinedBetPlan, CombinedBetPlanAction, KellyError,
    KellyPolicy, KellyQuote, StakeSizingStrategy,
};
pub use baccarat::round::{resolve_round, RoundError, RoundOutcome, RoundResult};
pub use baccarat::side_bet::{Settlement, SideBet, SideBetRuleError, SideBetRules, SideBetWeights};
pub use baccarat::simulation::{
    generate_baccarat_csv, generate_baccarat_csv_text, BaccaratGenerationSummary,
    BaccaratShoeGenerator, BaccaratSimulationConfig, BaccaratSimulationError, GeneratedRound,
};
pub use baccarat::snapshot::{
    analyze_snapshot, decision_snapshot_from_weights, ActionSnapshot, BetSnapshot,
    DecisionSnapshot, SnapshotError, DECISION_SNAPSHOT_SCHEMA_VERSION, ENGINE_VERSION,
};
pub use baccarat::strategy::{
    BetAction, BetDecision, BetTarget, BettingPolicy, CombinedBetAction, CombinedBetDecision,
    SkipReason,
};
pub use blackjack::analysis::{analyze_blackjack_hand, BlackjackAnalysis};
pub use blackjack::{BlackjackAction, BlackjackActionEvs, BlackjackError, BlackjackRules};
pub use card::{Card, CardParseError, Rank, Suit};
pub use number::Number;
pub use scale::Scale;
pub use shoe::{Shoe, ShoeError, DEFAULT_DECKS, MAX_DECKS, MIN_DECKS};

verus! {

/// The name of the application as it is shown to its users.
pub const APP_NAME: &'static str = "真人桌面游戏概率与 EV 计算引擎";

} // verus!
