//! The settings of a replay, what it counts and how it names things.

use vstd::prelude::*;

use crate::baccarat::bet;
use crate::baccarat::bet::{MainBet, MainBetRules};
use crate::baccarat::hand::BaccaratHand;
use crate::baccarat::rebate::RebateRule;
use crate::baccarat::records::CsvReplayError;
use crate::baccarat::risk;
use crate::baccarat::risk::{KellyError, KellyPolicy, StakeSizingStrategy};
use crate::baccarat::round::RoundOutcome;
use crate::baccarat::side_bet::{Settlement, SideBet};
use crate::baccarat::strategy::BetTarget;
use crate::number;
use crate::number::Number;
use crate::order;
use crate::scale::Scale;
use crate::shoe::{Shoe, ShoeError, MAX_DECKS, MIN_DECKS};
use crate::text;

verus! {

/// The last round of a shoe in which each side bet may be made; zero stands for no limit.
#[derive(Debug, Clone, Copy, PartialEq, Eq, Structural)]
pub struct SideBetRoundLimits {
    pub any_pair: u32,
    pub banker_pair: u32,
    pub player_pair: u32,
    pub perfect_pair: u32,
    pub big: u32,
    pub small: u32,
    pub lucky_seven: u32,
    pub super_lucky_seven: u32,
    pub lucky_six: u32,
    pub banker_dragon_bonus: u32,
    pub player_dragon_bonus: u32,
}

/// The limits of the table: twenty rounds for big and small, forty-five for the perfect pair
/// and fifty for the others.
pub open spec fn table_round_limits() -> SideBetRoundLimits {
    SideBetRoundLimits {
        any_pair: 50,
        banker_pair: 50,
        player_pair: 50,
        perfect_pair: 45,
        big: 20,
        small: 20,
        lucky_seven: 50,
        super_lucky_seven: 50,
        lucky_six: 50,
        banker_dragon_bonus: 50,
        player_dragon_bonus: 50,
    }
}

impl Default for SideBetRoundLimits {
    /// The limits of the table.
    fn default() -> (limits: SideBetRoundLimits)
        ensures
            limits == table_round_limits(),
    {
        SideBetRoundLimits {
            any_pair: 50,
            banker_pair: 50,
            player_pair: 50,
            perfect_pair: 45,
            big: 20,
            small: 20,
            lucky_seven: 50,
            super_lucky_seven: 50,
            lucky_six: 50,
            banker_dragon_bonus: 50,
            player_dragon_bonus: 50,
        }
    }
}

impl SideBetRoundLimits {
    /// No limit on any bet.
    pub fn unlimited() -> (limits: SideBetRoundLimits)
        ensures
            forall|bet: SideBet| #[trigger] limits.of(bet) == 0,
    {
        SideBetRoundLimits {
            any_pair: 0,
            banker_pair: 0,
            player_pair: 0,
            perfect_pair: 0,
            big: 0,
            small: 0,
            lucky_seven: 0,
            super_lucky_seven: 0,
            lucky_six: 0,
            banker_dragon_bonus: 0,
            player_dragon_bonus: 0,
        }
    }

    /// The limit of a bet.
    pub open spec fn of(self, bet: SideBet) -> u32 {
        match bet {
            SideBet::AnyPair => self.any_pair,
            SideBet::BankerPair => self.banker_pair,
            SideBet::PlayerPair => self.player_pair,
            SideBet::PerfectPair => self.perfect_pair,
            SideBet::Big => self.big,
            SideBet::Small => self.small,
            SideBet::LuckySeven => self.lucky_seven,
            SideBet::SuperLuckySeven => self.super_lucky_seven,
            SideBet::LuckySix => self.lucky_six,
            SideBet::BankerDragonBonus => self.banker_dragon_bonus,
            SideBet::PlayerDragonBonus => self.player_dragon_bonus,
        }
    }

    /// Whether a bet may be made in a round.
    pub open spec fn permits(self, bet: SideBet, round_no: u32) -> bool {
        self.of(bet) == 0 || round_no <= self.of(bet)
    }

    /// Whether a bet may be made in a round.
    pub fn allows(self, side_bet: SideBet, round_no: u32) -> (allowed: bool)
        ensures
            allowed == self.permits(side_bet, round_no),
    {
        let max_round: u32 = match side_bet {
            SideBet::AnyPair => self.any_pair,
            SideBet::BankerPair => self.banker_pair,
            SideBet::PlayerPair => self.player_pair,
            SideBet::PerfectPair => self.perfect_pair,
            SideBet::Big => self.big,
            SideBet::Small => self.small,
            SideBet::LuckySeven => self.lucky_seven,
            SideBet::SuperLuckySeven => self.super_lucky_seven,
            SideBet::LuckySix => self.lucky_six,
            SideBet::BankerDragonBonus => self.banker_dragon_bonus,
            SideBet::PlayerDragonBonus => self.player_dragon_bonus,
        };
        max_round == 0 || round_no <= max_round
    }

    /// Which bets may be made in a round, in the order of [`SideBet::ALL`].
    pub fn allowed_in_round(self, round_no: u32) -> (allowed: [bool; 11])
        ensures
            forall|i: int|
                0 <= i < 11 ==> #[trigger] allowed@[i] == self.permits(SideBet::ALL@[i], round_no),
    {
        let mut allowed: [bool; 11] = [false; 11];
        let mut i: usize = 0;
        while i < 11
            invariant
                i <= 11,
                forall|j: int|
                    0 <= j < i ==> #[trigger] allowed@[j] == self.permits(
                        SideBet::ALL@[j],
                        round_no,
                    ),
            decreases 11 - i,
        {
            allowed[i] = self.allows(SideBet::ALL[i], round_no);
            i = i + 1;
        }
        allowed
    }

    /// The common limit of the three lucky bets; none where they differ or have no limit.
    pub fn common_lucky_max_round(self) -> (limit: Option<u32>)
        ensures
            limit == if self.lucky_six > 0 && self.lucky_six == self.lucky_seven && self.lucky_six
                == self.super_lucky_seven {
                Some(self.lucky_six)
            } else {
                None
            },
    {
        if self.lucky_six > 0 && self.lucky_six == self.lucky_seven && self.lucky_six
            == self.super_lucky_seven {
            Some(self.lucky_six)
        } else {
            None
        }
    }
}

/// The settings of a replay.
#[derive(Debug, Clone, Copy, PartialEq, Eq)]
pub struct CsvReplayConfig<E> {
    pub decks: u8,
    pub rules: MainBetRules<E>,
    pub rebate_rate: E,
    pub minimum_effective_ev: E,
    pub minimum_side_bet_ev: E,
    pub initial_bankroll: E,
    /// How stakes are chosen and limited.
    pub kelly: KellyPolicy<E>,
    pub side_bet_round_limits: SideBetRoundLimits,
    pub allow_multiple_bets: bool,
}

/// Why settings are refused.
#[derive(Debug, Clone, PartialEq, Eq)]
pub enum ReplayConfigError<E> {
    Decks(ShoeError),
    RebateRate,
    MinimumEv,
    MinimumSideBetEv,
    Bankroll,
    Stakes(KellyError<E>),
}

impl<E> ReplayConfigError<E> {
    /// The message of the error, given that of a stake error.
    pub open spec fn message(self, stakes: Seq<char>) -> Seq<char> {
        match self {
            ReplayConfigError::Decks(error) => error.message(),
            ReplayConfigError::RebateRate => "返水比例必须是 0..=1 内的有限小数"@,
            ReplayConfigError::MinimumEv => "最低有效 EV 必须是有限数字"@,
            ReplayConfigError::MinimumSideBetEv => "边注最低 EV 必须是有限数字"@,
            ReplayConfigError::Bankroll => "初始本金必须是有限正数"@,
            ReplayConfigError::Stakes(_) => stakes,
        }
    }

    /// The refusal of the replay, given the message of a stake error.
    pub fn into_replay_error(self, stakes: String) -> (error: CsvReplayError)
        ensures
            error matches CsvReplayError::Configuration(message) && message@ == self.message(
                stakes@,
            ),
    {
        let message: String = match self {
            ReplayConfigError::Decks(error) => error.to_string(),
            ReplayConfigError::RebateRate => "返水比例必须是 0..=1 内的有限小数".to_owned(),
            ReplayConfigError::MinimumEv => "最低有效 EV 必须是有限数字".to_owned(),
            ReplayConfigError::MinimumSideBetEv => "边注最低 EV 必须是有限数字".to_owned(),
            ReplayConfigError::Bankroll => "初始本金必须是有限正数".to_owned(),
            ReplayConfigError::Stakes(_) => stakes,
        };
        CsvReplayError::Configuration(message)
    }
}

/// What is wrong with settings, if anything is.
pub open spec fn config_error<E: Copy + PartialOrd>(
    scale: Scale<E>,
    config: CsvReplayConfig<E>,
) -> Option<ReplayConfigError<E>> {
    let kelly = config.kelly;
    let stakes = risk::policy_error(
        scale,
        kelly.strategy,
        kelly.max_fraction,
        kelly.max_round_stake,
        kelly.table_limit,
    );
    if !(MIN_DECKS <= config.decks <= MAX_DECKS) {
        Some(ReplayConfigError::Decks(ShoeError::InvalidDeckCount { decks: config.decks }))
    } else if !scale.fraction(config.rebate_rate) {
        Some(ReplayConfigError::RebateRate)
    } else if !scale.finite(config.minimum_effective_ev) {
        Some(ReplayConfigError::MinimumEv)
    } else if !scale.finite(config.minimum_side_bet_ev) {
        Some(ReplayConfigError::MinimumSideBetEv)
    } else if !scale.positive(config.initial_bankroll) {
        Some(ReplayConfigError::Bankroll)
    } else {
        match stakes {
            Some(error) => Some(ReplayConfigError::Stakes(error)),
            None => if scale.amount(kelly.side_bet_limit) {
                None
            } else {
                Some(
                    ReplayConfigError::Stakes(
                        KellyError::InvalidSideBetLimit { value: kelly.side_bet_limit },
                    ),
                )
            },
        }
    }
}

impl<E: Copy + PartialOrd> CsvReplayConfig<E> {
    /// Settings from their parts, with the limits of the table on rounds and one bet per round.
    pub open spec fn of(
        decks: u8,
        rules: MainBetRules<E>,
        strategy: StakeSizingStrategy<E>,
        rebate_rate: E,
        minimum_effective_ev: E,
        minimum_side_bet_ev: E,
        initial_bankroll: E,
        max_fraction: E,
        max_round_stake: E,
        table_limit: E,
        side_bet_limit: E,
    ) -> CsvReplayConfig<E> {
        CsvReplayConfig {
            decks,
            rules,
            rebate_rate,
            minimum_effective_ev,
            minimum_side_bet_ev,
            initial_bankroll,
            kelly: KellyPolicy {
                strategy,
                max_fraction,
                max_round_stake,
                table_limit,
                side_bet_limit,
            },
            side_bet_round_limits: table_round_limits(),
            allow_multiple_bets: false,
        }
    }

    /// Settings with the same threshold and limit for side bets as for the others.
    pub fn with_strategy(
        scale: Scale<E>,
        decks: u8,
        rules: MainBetRules<E>,
        stake_strategy: StakeSizingStrategy<E>,
        rebate_rate: E,
        minimum_effective_ev: E,
        initial_bankroll: E,
        max_fraction: E,
        max_round_stake: E,
        table_limit: E,
    ) -> (result: Result<CsvReplayConfig<E>, ReplayConfigError<E>>)
        ensures
            order::comparable::<E>() ==> {
                let config = Self::of(
                    decks,
                    rules,
                    stake_strategy,
                    rebate_rate,
                    minimum_effective_ev,
                    minimum_effective_ev,
                    initial_bankroll,
                    max_fraction,
                    max_round_stake,
                    table_limit,
                    max_round_stake,
                );
                match config_error(scale, config) {
                    Some(error) => result == Err::<CsvReplayConfig<E>, ReplayConfigError<E>>(error),
                    None => result == Ok::<CsvReplayConfig<E>, ReplayConfigError<E>>(config),
                }
            },
    {
        CsvReplayConfig::with_side_bets(
            scale,
            decks,
            rules,
            stake_strategy,
            rebate_rate,
            minimum_effective_ev,
            minimum_effective_ev,
            initial_bankroll,
            max_fraction,
            max_round_stake,
            table_limit,
            max_round_stake,
        )
    }

    /// Settings with a threshold and a limit of their own for side bets.
    pub fn with_side_bets(
        scale: Scale<E>,
        decks: u8,
        rules: MainBetRules<E>,
        stake_strategy: StakeSizingStrategy<E>,
        rebate_rate: E,
        minimum_effective_ev: E,
        minimum_side_bet_ev: E,
        initial_bankroll: E,
        max_fraction: E,
        max_round_stake: E,
        table_limit: E,
        side_bet_limit: E,
    ) -> (result: Result<CsvReplayConfig<E>, ReplayConfigError<E>>)
        ensures
            order::comparable::<E>() ==> {
                let config = Self::of(
                    decks,
                    rules,
                    stake_strategy,
                    rebate_rate,
                    minimum_effective_ev,
                    minimum_side_bet_ev,
                    initial_bankroll,
                    max_fraction,
                    max_round_stake,
                    table_limit,
                    side_bet_limit,
                );
                match config_error(scale, config) {
                    Some(error) => result == Err::<CsvReplayConfig<E>, ReplayConfigError<E>>(error),
                    None => result == Ok::<CsvReplayConfig<E>, ReplayConfigError<E>>(config),
                }
            },
    {
        match Shoe::new(decks) {
            Ok(_) => {},
            Err(error) => {
                return Err(ReplayConfigError::Decks(error));
            },
        }
        if !scale.is_fraction(rebate_rate) {
            return Err(ReplayConfigError::RebateRate);
        }
        if !scale.is_finite(minimum_effective_ev) {
            return Err(ReplayConfigError::MinimumEv);
        }
        if !scale.is_finite(minimum_side_bet_ev) {
            return Err(ReplayConfigError::MinimumSideBetEv);
        }
        if !scale.is_positive(initial_bankroll) {
            return Err(ReplayConfigError::Bankroll);
        }
        let policy: KellyPolicy<E> = match KellyPolicy::with_strategy(
            scale,
            stake_strategy,
            max_fraction,
            max_round_stake,
            table_limit,
        ) {
            Ok(policy) => policy,
            Err(error) => {
                return Err(ReplayConfigError::Stakes(error));
            },
        };
        let kelly: KellyPolicy<E> = match policy.with_side_bet_limit(scale, side_bet_limit) {
            Ok(kelly) => kelly,
            Err(error) => {
                return Err(ReplayConfigError::Stakes(error));
            },
        };
        Ok(
            CsvReplayConfig {
                decks,
                rules,
                rebate_rate,
                minimum_effective_ev,
                minimum_side_bet_ev,
                initial_bankroll,
                kelly,
                side_bet_round_limits: SideBetRoundLimits::default(),
                allow_multiple_bets: false,
            },
        )
    }

    /// The settings with one limit on the rounds of the three lucky bets.
    pub fn with_lucky_bet_max_round(self, max_round: u32) -> (config: CsvReplayConfig<E>)
        ensures
            config == (CsvReplayConfig {
                side_bet_round_limits: SideBetRoundLimits {
                    lucky_six: max_round,
                    lucky_seven: max_round,
                    super_lucky_seven: max_round,
                    ..self.side_bet_round_limits
                },
                ..self
            }),
    {
        let mut config: CsvReplayConfig<E> = self;
        config.side_bet_round_limits.lucky_six = max_round;
        config.side_bet_round_limits.lucky_seven = max_round;
        config.side_bet_round_limits.super_lucky_seven = max_round;
        config
    }

    /// The settings with other limits on the rounds of side bets.
    pub fn with_side_bet_round_limits(self, limits: SideBetRoundLimits) -> (config:
        CsvReplayConfig<E>)
        ensures
            config == (CsvReplayConfig { side_bet_round_limits: limits, ..self }),
    {
        let mut config: CsvReplayConfig<E> = self;
        config.side_bet_round_limits = limits;
        config
    }

    /// The settings with or without several bets in one round.
    pub fn with_multiple_bets(self, enabled: bool) -> (config: CsvReplayConfig<E>)
        ensures
            config == (CsvReplayConfig { allow_multiple_bets: enabled, ..self }),
    {
        let mut config: CsvReplayConfig<E> = self;
        config.allow_multiple_bets = enabled;
        config
    }

    /// The rebate: none at a rate of zero.
    pub fn rebate(self, zero: E) -> (rebate: RebateRule<E>)
        ensures
            order::comparable::<E>() ==> rebate == if order::above(self.rebate_rate, zero) {
                RebateRule::AllExceptMainBetTie { rate: self.rebate_rate }
            } else {
                RebateRule::NoRebate
            },
    {
        if order::is_above(self.rebate_rate, zero) {
            RebateRule::AllExceptMainBetTie { rate: self.rebate_rate }
        } else {
            RebateRule::NoRebate
        }
    }
}

impl<E: Number> CsvReplayConfig<E> {
    /// Settings with standard payouts and full Kelly stakes.
    pub fn new(
        scale: Scale<E>,
        decks: u8,
        rebate_rate: E,
        minimum_effective_ev: E,
        initial_bankroll: E,
        max_fraction: E,
        max_round_stake: E,
        table_limit: E,
    ) -> (result: Result<CsvReplayConfig<E>, ReplayConfigError<E>>)
        requires
            number::arithmetic::<E>(),
        ensures
            ({
                let config = Self::of(
                    decks,
                    bet::standard_table().in_units::<E>(),
                    StakeSizingStrategy::FullKelly,
                    rebate_rate,
                    minimum_effective_ev,
                    minimum_effective_ev,
                    initial_bankroll,
                    max_fraction,
                    max_round_stake,
                    table_limit,
                    max_round_stake,
                );
                match config_error(scale, config) {
                    Some(error) => result == Err::<CsvReplayConfig<E>, ReplayConfigError<E>>(error),
                    None => result == Ok::<CsvReplayConfig<E>, ReplayConfigError<E>>(config),
                }
            }),
    {
        CsvReplayConfig::with_strategy(
            scale,
            decks,
            MainBetRules::standard().per_unit::<E>(),
            StakeSizingStrategy::FullKelly,
            rebate_rate,
            minimum_effective_ev,
            initial_bankroll,
            max_fraction,
            max_round_stake,
            table_limit,
        )
    }
}

/// How a bet that was made ended, by its payout alone.
#[derive(Debug, Clone, Copy, PartialEq, Eq, Structural)]
pub enum BetResult {
    Win,
    Loss,
    Push,
}

impl BetResult {
    /// The stable name of the result.
    pub open spec fn name(self) -> Seq<char> {
        match self {
            BetResult::Win => "win"@,
            BetResult::Loss => "loss"@,
            BetResult::Push => "push"@,
        }
    }

    /// The stable name of the result.
    pub fn as_str(self) -> (name: &'static str)
        ensures
            name@ == self.name(),
    {
        match self {
            BetResult::Win => "win",
            BetResult::Loss => "loss",
            BetResult::Push => "push",
        }
    }

    /// The result of a settlement: a win pays more than nothing.
    pub open spec fn of<P: PartialOrd>(settlement: Settlement<P>, zero: P) -> BetResult {
        match settlement {
            Settlement::Lose => BetResult::Loss,
            Settlement::Push => BetResult::Push,
            Settlement::Win(payout) => if order::above(payout, zero) {
                BetResult::Win
            } else if order::above(zero, payout) {
                BetResult::Loss
            } else {
                BetResult::Push
            },
        }
    }

    /// Tells the result of a settlement.
    pub fn from_settlement<P: Copy + PartialOrd>(settlement: Settlement<P>, zero: P) -> (result:
        BetResult)
        ensures
            order::comparable::<P>() ==> result == Self::of(settlement, zero),
    {
        match settlement {
            Settlement::Lose => BetResult::Loss,
            Settlement::Push => BetResult::Push,
            Settlement::Win(payout) => if order::is_above(payout, zero) {
                BetResult::Win
            } else if order::is_above(zero, payout) {
                BetResult::Loss
            } else {
                BetResult::Push
            },
        }
    }
}

/// How often each bet was counted.
#[derive(Debug, Clone, Copy, PartialEq, Eq, Structural)]
pub struct CsvBetCounts {
    pub player: u64,
    pub banker: u64,
    pub tie: u64,
    pub any_pair: u64,
    pub banker_pair: u64,
    pub player_pair: u64,
    pub perfect_pair: u64,
    pub big: u64,
    pub small: u64,
    pub lucky_seven: u64,
    pub super_lucky_seven: u64,
    pub lucky_six: u64,
    pub banker_dragon_bonus: u64,
    pub player_dragon_bonus: u64,
}

/// Nothing counted.
pub open spec fn no_bets() -> CsvBetCounts {
    CsvBetCounts {
        player: 0,
        banker: 0,
        tie: 0,
        any_pair: 0,
        banker_pair: 0,
        player_pair: 0,
        perfect_pair: 0,
        big: 0,
        small: 0,
        lucky_seven: 0,
        super_lucky_seven: 0,
        lucky_six: 0,
        banker_dragon_bonus: 0,
        player_dragon_bonus: 0,
    }
}

impl Default for CsvBetCounts {
    /// Nothing counted.
    fn default() -> (counts: CsvBetCounts)
        ensures
            counts == no_bets(),
    {
        CsvBetCounts {
            player: 0,
            banker: 0,
            tie: 0,
            any_pair: 0,
            banker_pair: 0,
            player_pair: 0,
            perfect_pair: 0,
            big: 0,
            small: 0,
            lucky_seven: 0,
            super_lucky_seven: 0,
            lucky_six: 0,
            banker_dragon_bonus: 0,
            player_dragon_bonus: 0,
        }
    }
}

impl CsvBetCounts {
    /// The count of a bet.
    pub open spec fn of(self, bet: BetTarget) -> u64 {
        match bet {
            BetTarget::Main(MainBet::Player) => self.player,
            BetTarget::Main(MainBet::Banker) => self.banker,
            BetTarget::Main(MainBet::Tie) => self.tie,
            BetTarget::Side(SideBet::AnyPair) => self.any_pair,
            BetTarget::Side(SideBet::BankerPair) => self.banker_pair,
            BetTarget::Side(SideBet::PlayerPair) => self.player_pair,
            BetTarget::Side(SideBet::PerfectPair) => self.perfect_pair,
            BetTarget::Side(SideBet::Big) => self.big,
            BetTarget::Side(SideBet::Small) => self.small,
            BetTarget::Side(SideBet::LuckySeven) => self.lucky_seven,
            BetTarget::Side(SideBet::SuperLuckySeven) => self.super_lucky_seven,
            BetTarget::Side(SideBet::LuckySix) => self.lucky_six,
            BetTarget::Side(SideBet::BankerDragonBonus) => self.banker_dragon_bonus,
            BetTarget::Side(SideBet::PlayerDragonBonus) => self.player_dragon_bonus,
        }
    }

    /// All counts together.
    pub open spec fn total(self) -> int {
        self.player + self.banker + self.tie + self.any_pair + self.banker_pair + self.player_pair
            + self.perfect_pair + self.big + self.small + self.lucky_seven + self.super_lucky_seven
            + self.lucky_six + self.banker_dragon_bonus + self.player_dragon_bonus
    }

    /// The counts with a bet counted once more.
    pub open spec fn plus(self, bet: BetTarget) -> CsvBetCounts {
        match bet {
            BetTarget::Main(MainBet::Player) => CsvBetCounts {
                player: (self.player + 1) as u64,
                ..self
            },
            BetTarget::Main(MainBet::Banker) => CsvBetCounts {
                banker: (self.banker + 1) as u64,
                ..self
            },
            BetTarget::Main(MainBet::Tie) => CsvBetCounts {
                tie: (self.tie + 1) as u64,
                ..self
            },
            BetTarget::Side(SideBet::AnyPair) => CsvBetCounts {
                any_pair: (self.any_pair + 1) as u64,
                ..self
            },
            BetTarget::Side(SideBet::BankerPair) => CsvBetCounts {
                banker_pair: (self.banker_pair + 1) as u64,
                ..self
            },
            BetTarget::Side(SideBet::PlayerPair) => CsvBetCounts {
                player_pair: (self.player_pair + 1) as u64,
                ..self
            },
            BetTarget::Side(SideBet::PerfectPair) => CsvBetCounts {
                perfect_pair: (self.perfect_pair + 1) as u64,
                ..self
            },
            BetTarget::Side(SideBet::Big) => CsvBetCounts {
                big: (self.big + 1) as u64,
                ..self
            },
            BetTarget::Side(SideBet::Small) => CsvBetCounts {
                small: (self.small + 1) as u64,
                ..self
            },
            BetTarget::Side(SideBet::LuckySeven) => CsvBetCounts {
                lucky_seven: (self.lucky_seven + 1) as u64,
                ..self
            },
            BetTarget::Side(SideBet::SuperLuckySeven) => CsvBetCounts {
                super_lucky_seven: (self.super_lucky_seven + 1) as u64,
                ..self
            },
            BetTarget::Side(SideBet::LuckySix) => CsvBetCounts {
                lucky_six: (self.lucky_six + 1) as u64,
                ..self
            },
            BetTarget::Side(SideBet::BankerDragonBonus) => CsvBetCounts {
                banker_dragon_bonus: (self.banker_dragon_bonus + 1) as u64,
                ..self
            },
            BetTarget::Side(SideBet::PlayerDragonBonus) => CsvBetCounts {
                player_dragon_bonus: (self.player_dragon_bonus + 1) as u64,
                ..self
            },
        }
    }

    /// Counts a bet once more, and no other.
    pub fn increment(&mut self, bet: BetTarget)
        requires
            old(self).of(bet) < u64::MAX,
        ensures
            *final(self) == old(self).plus(bet),
            final(self).of(bet) == old(self).of(bet) + 1,
            forall|other: BetTarget|
                other != bet ==> #[trigger] final(self).of(other) == old(self).of(other),
            final(self).total() == old(self).total() + 1,
    {
        match bet {
            BetTarget::Main(MainBet::Player) => self.player = self.player + 1,
            BetTarget::Main(MainBet::Banker) => self.banker = self.banker + 1,
            BetTarget::Main(MainBet::Tie) => self.tie = self.tie + 1,
            BetTarget::Side(SideBet::AnyPair) => self.any_pair = self.any_pair + 1,
            BetTarget::Side(SideBet::BankerPair) => self.banker_pair = self.banker_pair + 1,
            BetTarget::Side(SideBet::PlayerPair) => self.player_pair = self.player_pair + 1,
            BetTarget::Side(SideBet::PerfectPair) => self.perfect_pair = self.perfect_pair + 1,
            BetTarget::Side(SideBet::Big) => self.big = self.big + 1,
            BetTarget::Side(SideBet::Small) => self.small = self.small + 1,
            BetTarget::Side(SideBet::LuckySeven) => self.lucky_seven = self.lucky_seven + 1,
            BetTarget::Side(SideBet::SuperLuckySeven) => {
                self.super_lucky_seven = self.super_lucky_seven + 1
            },
            BetTarget::Side(SideBet::LuckySix) => self.lucky_six = self.lucky_six + 1,
            BetTarget::Side(SideBet::BankerDragonBonus) => {
                self.banker_dragon_bonus = self.banker_dragon_bonus + 1
            },
            BetTarget::Side(SideBet::PlayerDragonBonus) => {
                self.player_dragon_bonus = self.player_dragon_bonus + 1
            },
        }
    }
}

/// What a replay has counted.
#[derive(Debug, Clone, Copy, PartialEq, Eq, Structural)]
pub struct ReplayTally {
    /// The best bet of each round.
    pub candidate_bets: CsvBetCounts,
    /// The bets that were made.
    pub placed_bets: CsvBetCounts,
    pub placed_bet_count: u64,
    pub skipped_bets: u64,
    pub wins: u64,
    pub losses: u64,
    pub pushes: u64,
}

impl ReplayTally {
    /// The bets that were made add up, by bet and by result.
    pub open spec fn reconciles(self) -> bool {
        &&& self.placed_bets.total() == self.placed_bet_count
        &&& self.wins + self.losses + self.pushes == self.placed_bet_count
    }

    /// A tally of nothing.
    pub open spec fn nothing() -> ReplayTally {
        ReplayTally {
            candidate_bets: no_bets(),
            placed_bets: no_bets(),
            placed_bet_count: 0,
            skipped_bets: 0,
            wins: 0,
            losses: 0,
            pushes: 0,
        }
    }

    /// A tally of nothing.
    pub fn new() -> (tally: ReplayTally)
        ensures
            tally == ReplayTally::nothing(),
            tally.reconciles(),
    {
        ReplayTally {
            candidate_bets: CsvBetCounts::default(),
            placed_bets: CsvBetCounts::default(),
            placed_bet_count: 0,
            skipped_bets: 0,
            wins: 0,
            losses: 0,
            pushes: 0,
        }
    }

    /// The tally with the best bet of one more round.
    pub open spec fn with_candidate(self, bet: BetTarget) -> ReplayTally {
        ReplayTally { candidate_bets: self.candidate_bets.plus(bet), ..self }
    }

    /// The tally with one more bet that was made.
    pub open spec fn with_placed(self, bet: BetTarget, result: BetResult) -> ReplayTally {
        ReplayTally {
            placed_bets: self.placed_bets.plus(bet),
            placed_bet_count: (self.placed_bet_count + 1) as u64,
            wins: (self.wins + if result == BetResult::Win {
                1int
            } else {
                0int
            }) as u64,
            losses: (self.losses + if result == BetResult::Loss {
                1int
            } else {
                0int
            }) as u64,
            pushes: (self.pushes + if result == BetResult::Push {
                1int
            } else {
                0int
            }) as u64,
            ..self
        }
    }

    /// The tally with one more bet that was planned and not made.
    pub open spec fn with_skipped(self) -> ReplayTally {
        ReplayTally { skipped_bets: (self.skipped_bets + 1) as u64, ..self }
    }

    /// Counts the best bet of a round.
    pub fn note_candidate(&mut self, bet: BetTarget)
        requires
            old(self).candidate_bets.of(bet) < u64::MAX,
        ensures
            *final(self) == old(self).with_candidate(bet),
    {
        self.candidate_bets.increment(bet);
    }

    /// Counts a bet that was made, with its result.
    pub fn note_placed(&mut self, bet: BetTarget, result: BetResult)
        requires
            old(self).reconciles(),
            old(self).placed_bet_count < u64::MAX,
        ensures
            final(self).reconciles(),
            *final(self) == old(self).with_placed(bet, result),
    {
        self.placed_bets.increment(bet);
        self.placed_bet_count = self.placed_bet_count + 1;
        match result {
            BetResult::Win => self.wins = self.wins + 1,
            BetResult::Loss => self.losses = self.losses + 1,
            BetResult::Push => self.pushes = self.pushes + 1,
        }
    }

    /// Counts a bet that was planned and not made.
    pub fn note_skipped(&mut self)
        requires
            old(self).skipped_bets < u64::MAX,
        ensures
            *final(self) == old(self).with_skipped(),
    {
        self.skipped_bets = self.skipped_bets + 1;
    }
}

/// The name of an outcome.
pub open spec fn outcome_label(outcome: RoundOutcome) -> Seq<char> {
    match outcome {
        RoundOutcome::Player => "player"@,
        RoundOutcome::Banker => "banker"@,
        RoundOutcome::Tie => "tie"@,
    }
}

/// The name of an outcome.
pub fn outcome_name(outcome: RoundOutcome) -> (name: &'static str)
    ensures
        name@ == outcome_label(outcome),
{
    match outcome {
        RoundOutcome::Player => "player",
        RoundOutcome::Banker => "banker",
        RoundOutcome::Tie => "tie",
    }
}

/// The cards of a hand, separated by spaces.
pub open spec fn hand_label(hand: BaccaratHand) -> Seq<char> {
    let pair = hand.first_card.name() + " "@ + hand.second_card.name();
    match hand.third_card {
        Some(card) => pair + " "@ + card.name(),
        None => pair,
    }
}

/// Writes the cards of a hand, separated by spaces.
pub fn format_hand_cards(hand: BaccaratHand) -> (result: String)
    ensures
        result@ == hand_label(hand),
{
    let mut result: String = hand.first_card().to_string();
    result.append(" ");
    result.append(hand.second_card().to_string().as_str());
    match hand.third_card() {
        Some(card) => {
            result.append(" ");
            result.append(card.to_string().as_str());
        },
        None => {},
    }
    result
}

/// The text without a byte order mark at its start.
pub open spec fn unmarked(input: Seq<char>) -> Seq<char> {
    if input.len() > 0 && input[0] as u32 == 0xfeff {
        input.skip(1)
    } else {
        input
    }
}

/// Copies a text without a byte order mark at its start.
pub fn strip_byte_order_mark(input: &str) -> (result: String)
    ensures
        result@ == unmarked(input@),
{
    let chars: Vec<char> = text::chars_of(input);
    let result: String = if chars.len() > 0 && chars[0] as u32 == 0xfeff {
        text::text_of(&chars, 1, chars.len())
    } else {
        text::text_of(&chars, 0, chars.len())
    };
    assert(result@ =~= unmarked(input@));
    result
}

} // verus!
