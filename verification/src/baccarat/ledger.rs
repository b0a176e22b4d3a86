//! The money of a replay: what each kind of bet staked and earned, and how the bankroll moved.
//!
//! Amounts are numbers of a type `E` that the caller picks; they are added, subtracted and
//! compared by the operators of that type.

use core::ops::{Add, Sub};
use vstd::prelude::*;
use vstd::std_specs::ops::{AddSpec, SubSpec};

use crate::baccarat::bet::MainBet;
use crate::baccarat::side_bet::SideBet;
use crate::baccarat::strategy::BetTarget;
use crate::order;

verus! {

/// Whether the operators of a type follow its order, its sums and its differences.
pub open spec fn computable<E: Copy + PartialOrd + Add<Output = E> + Sub<Output = E>>() -> bool {
    order::comparable::<E>() && E::obeys_add_spec() && E::obeys_sub_spec()
}

/// Whether a value may come out as a sum.
pub open spec fn is_sum<E: Copy + Add<Output = E>>(a: E, b: E, sum: E) -> bool {
    E::obeys_add_spec() ==> sum == a.add_spec(b)
}

/// Whether a value may come out as a difference.
pub open spec fn is_difference<E: Copy + Sub<Output = E>>(a: E, b: E, difference: E) -> bool {
    E::obeys_sub_spec() ==> difference == a.sub_spec(b)
}

/// Whether a value may come out as the higher of two.
pub open spec fn is_higher<E: Copy + PartialOrd>(a: E, b: E, higher: E) -> bool {
    order::comparable::<E>() ==> higher == order::higher(a, b)
}

/// What one kind of bet staked and earned.
#[derive(Debug, Clone, Copy, PartialEq, Eq)]
pub struct CsvBetPerformance<E> {
    pub count: u64,
    /// Bets with a payout, whatever the rebate.
    pub win_count: u64,
    /// Bets that lost, whatever the rebate.
    pub loss_count: u64,
    pub push_count: u64,
    pub total_stake: E,
    /// The profits and losses together, rebates included.
    pub total_profit: E,
    /// The profits alone, rebates included.
    pub gross_profit: E,
    /// The losses alone as positive amounts, rebates included.
    pub gross_loss: E,
    /// The profits alone, without rebates.
    pub base_gross_profit: E,
    /// The losses alone as positive amounts, without rebates.
    pub base_gross_loss: E,
}

impl<E: Copy + PartialOrd + Add<Output = E> + Sub<Output = E>> CsvBetPerformance<E> {
    /// Every bet won, lost or was returned.
    pub open spec fn reconciles(self) -> bool {
        self.win_count + self.loss_count + self.push_count == self.count
    }

    /// Nothing staked and nothing earned.
    pub open spec fn nothing(zero: E) -> CsvBetPerformance<E> {
        CsvBetPerformance {
            count: 0,
            win_count: 0,
            loss_count: 0,
            push_count: 0,
            total_stake: zero,
            total_profit: zero,
            gross_profit: zero,
            gross_loss: zero,
            base_gross_profit: zero,
            base_gross_loss: zero,
        }
    }

    /// The performance with one more bet.
    pub open spec fn with_bet(self, amount: E, base: E, rebate: E, zero: E) -> CsvBetPerformance<
        E,
    > {
        let actual = base.add_spec(rebate);
        let won = order::above(base, zero);
        let lost = !won && order::above(zero, base);
        let gained = order::above(actual, zero);
        CsvBetPerformance {
            count: (self.count + 1) as u64,
            win_count: if won {
                (self.win_count + 1) as u64
            } else {
                self.win_count
            },
            loss_count: if lost {
                (self.loss_count + 1) as u64
            } else {
                self.loss_count
            },
            push_count: if !won && !lost {
                (self.push_count + 1) as u64
            } else {
                self.push_count
            },
            total_stake: self.total_stake.add_spec(amount),
            total_profit: self.total_profit.add_spec(actual),
            gross_profit: if gained {
                self.gross_profit.add_spec(actual)
            } else {
                self.gross_profit
            },
            gross_loss: if !gained && order::above(zero, actual) {
                self.gross_loss.add_spec(zero.sub_spec(actual))
            } else {
                self.gross_loss
            },
            base_gross_profit: if won {
                self.base_gross_profit.add_spec(base)
            } else {
                self.base_gross_profit
            },
            base_gross_loss: if lost {
                self.base_gross_loss.add_spec(zero.sub_spec(base))
            } else {
                self.base_gross_loss
            },
        }
    }

    /// Whether a profit can be taken in.
    pub open spec fn takes(self, actual: E, zero: E) -> bool {
        &&& self.total_profit.add_req(actual)
        &&& self.gross_profit.add_req(actual)
        &&& zero.sub_req(actual)
        &&& forall|loss: E| #[trigger]
            is_difference(zero, actual, loss) ==> self.gross_loss.add_req(loss)
    }

    /// Whether the sums for one more bet can be computed.
    pub open spec fn has_room(self, amount: E, base: E, rebate: E, zero: E) -> bool {
        &&& self.count < u64::MAX
        &&& base.add_req(rebate)
        &&& self.total_stake.add_req(amount)
        &&& self.base_gross_profit.add_req(base)
        &&& zero.sub_req(base)
        &&& forall|loss: E| #[trigger]
            is_difference(zero, base, loss) ==> self.base_gross_loss.add_req(loss)
        &&& forall|actual: E| #[trigger] is_sum(base, rebate, actual) ==> self.takes(actual, zero)
    }

    /// A performance of nothing.
    pub fn new(zero: E) -> (performance: CsvBetPerformance<E>)
        ensures
            performance == Self::nothing(zero),
            performance.reconciles(),
    {
        CsvBetPerformance {
            count: 0,
            win_count: 0,
            loss_count: 0,
            push_count: 0,
            total_stake: zero,
            total_profit: zero,
            gross_profit: zero,
            gross_loss: zero,
            base_gross_profit: zero,
            base_gross_loss: zero,
        }
    }

    /// Records one more bet: its stake, its profit without the rebate, and the rebate.
    pub fn record(&mut self, amount: E, base: E, rebate: E, zero: E)
        requires
            old(self).reconciles(),
            old(self).has_room(amount, base, rebate, zero),
        ensures
            final(self).reconciles(),
            computable::<E>() ==> *final(self) == old(self).with_bet(amount, base, rebate, zero),
    {
        let actual: E = base + rebate;
        assert(is_sum(base, rebate, actual));
        self.count = self.count + 1;
        self.total_stake = self.total_stake + amount;
        self.total_profit = self.total_profit + actual;
        if order::is_above(base, zero) {
            self.win_count = self.win_count + 1;
            self.base_gross_profit = self.base_gross_profit + base;
        } else if order::is_above(zero, base) {
            self.loss_count = self.loss_count + 1;
            let loss: E = zero - base;
            assert(is_difference(zero, base, loss));
            self.base_gross_loss = self.base_gross_loss + loss;
        } else {
            self.push_count = self.push_count + 1;
        }
        if order::is_above(actual, zero) {
            self.gross_profit = self.gross_profit + actual;
        } else if order::is_above(zero, actual) {
            let loss: E = zero - actual;
            assert(is_difference(zero, actual, loss));
            self.gross_loss = self.gross_loss + loss;
        }
    }
}

/// With whole amounts the profits less the losses are the total, and one more bet keeps that;
/// without rebates they change by the profit of the bet.
pub proof fn lemma_profits_reconcile(
    before: CsvBetPerformance<i64>,
    amount: i64,
    base: i64,
    rebate: i64,
)
    requires
        before.gross_profit - before.gross_loss == before.total_profit,
        i64::MIN < base + rebate <= i64::MAX,
        i64::MIN < base,
        i64::MIN <= before.total_profit + base + rebate <= i64::MAX,
        before.gross_profit + base + rebate <= i64::MAX,
        before.gross_loss - base - rebate <= i64::MAX,
        before.base_gross_profit + base <= i64::MAX,
        before.base_gross_loss - base <= i64::MAX,
        before.gross_profit >= 0,
        before.gross_loss >= 0,
        before.base_gross_profit >= 0,
        before.base_gross_loss >= 0,
    ensures
        ({
            let after = before.with_bet(amount, base, rebate, 0);
            &&& after.gross_profit - after.gross_loss == after.total_profit
            &&& after.total_profit == before.total_profit + base + rebate
            &&& (after.base_gross_profit - after.base_gross_loss) - (before.base_gross_profit
                - before.base_gross_loss) == base
        }),
{
}

/// What each kind of bet staked and earned.
#[derive(Debug, Clone, Copy, PartialEq, Eq)]
pub struct CsvBetBreakdown<E> {
    pub player: CsvBetPerformance<E>,
    pub banker: CsvBetPerformance<E>,
    pub tie: CsvBetPerformance<E>,
    pub any_pair: CsvBetPerformance<E>,
    pub banker_pair: CsvBetPerformance<E>,
    pub player_pair: CsvBetPerformance<E>,
    pub perfect_pair: CsvBetPerformance<E>,
    pub big: CsvBetPerformance<E>,
    pub small: CsvBetPerformance<E>,
    pub lucky_seven: CsvBetPerformance<E>,
    pub super_lucky_seven: CsvBetPerformance<E>,
    pub lucky_six: CsvBetPerformance<E>,
    pub banker_dragon_bonus: CsvBetPerformance<E>,
    pub player_dragon_bonus: CsvBetPerformance<E>,
}

impl<E: Copy + PartialOrd + Add<Output = E> + Sub<Output = E>> CsvBetBreakdown<E> {
    /// The performance of a bet.
    pub open spec fn of(self, bet: BetTarget) -> CsvBetPerformance<E> {
        match bet {
            BetTarget::Main(MainBet::Player) => self.player,
            BetTarget::Main(MainBet::Banker) => self.banker,
            BetTarget::Main(MainBet::Tie) => self.tie,
            BetTarget::Side(SideBet::AnyPair) => self.any_pair,
            BetTarget::Side(SideBet::BankerPair) => self.banker_pair,
            BetTarget::Side(SideBet::PlayerPair) => self.player_pair,
            BetTarget::Side(SideBet::PerfectPair) => self.perfect_pair,
            BetTarget::Side(SideBet::Big) => self.big,
            BetTarget::Side(SideBet::Small) => self.small,
            BetTarget::Side(SideBet::LuckySeven) => self.lucky_seven,
            BetTarget::Side(SideBet::SuperLuckySeven) => self.super_lucky_seven,
            BetTarget::Side(SideBet::LuckySix) => self.lucky_six,
            BetTarget::Side(SideBet::BankerDragonBonus) => self.banker_dragon_bonus,
            BetTarget::Side(SideBet::PlayerDragonBonus) => self.player_dragon_bonus,
        }
    }

    /// The breakdown with one more bet.
    pub open spec fn with_bet(self, bet: BetTarget, amount: E, base: E, rebate: E, zero: E) -> (
        CsvBetBreakdown<E>) {
        match bet {
            BetTarget::Main(MainBet::Player) => CsvBetBreakdown {
                player: self.player.with_bet(amount, base, rebate, zero),
                ..self
            },
            BetTarget::Main(MainBet::Banker) => CsvBetBreakdown {
                banker: self.banker.with_bet(amount, base, rebate, zero),
                ..self
            },
            BetTarget::Main(MainBet::Tie) => CsvBetBreakdown {
                tie: self.tie.with_bet(amount, base, rebate, zero),
                ..self
            },
            BetTarget::Side(SideBet::AnyPair) => CsvBetBreakdown {
                any_pair: self.any_pair.with_bet(amount, base, rebate, zero),
                ..self
            },
            BetTarget::Side(SideBet::BankerPair) => CsvBetBreakdown {
                banker_pair: self.banker_pair.with_bet(amount, base, rebate, zero),
                ..self
            },
            BetTarget::Side(SideBet::PlayerPair) => CsvBetBreakdown {
                player_pair: self.player_pair.with_bet(amount, base, rebate, zero),
                ..self
            },
            BetTarget::Side(SideBet::PerfectPair) => CsvBetBreakdown {
                perfect_pair: self.perfect_pair.with_bet(amount, base, rebate, zero),
                ..self
            },
            BetTarget::Side(SideBet::Big) => CsvBetBreakdown {
                big: self.big.with_bet(amount, base, rebate, zero),
                ..self
            },
            BetTarget::Side(SideBet::Small) => CsvBetBreakdown {
                small: self.small.with_bet(amount, base, rebate, zero),
                ..self
            },
            BetTarget::Side(SideBet::LuckySeven) => CsvBetBreakdown {
                lucky_seven: self.lucky_seven.with_bet(amount, base, rebate, zero),
                ..self
            },
            BetTarget::Side(SideBet::SuperLuckySeven) => CsvBetBreakdown {
                super_lucky_seven: self.super_lucky_seven.with_bet(amount, base, rebate, zero),
                ..self
            },
            BetTarget::Side(SideBet::LuckySix) => CsvBetBreakdown {
                lucky_six: self.lucky_six.with_bet(amount, base, rebate, zero),
                ..self
            },
            BetTarget::Side(SideBet::BankerDragonBonus) => CsvBetBreakdown {
                banker_dragon_bonus: self.banker_dragon_bonus.with_bet(amount, base, rebate, zero),
                ..self
            },
            BetTarget::Side(SideBet::PlayerDragonBonus) => CsvBetBreakdown {
                player_dragon_bonus: self.player_dragon_bonus.with_bet(amount, base, rebate, zero),
                ..self
            },
        }
    }

    /// A breakdown of nothing.
    pub open spec fn nothing(zero: E) -> CsvBetBreakdown<E> {
        let nothing = CsvBetPerformance::<E>::nothing(zero);
        CsvBetBreakdown {
            player: nothing,
            banker: nothing,
            tie: nothing,
            any_pair: nothing,
            banker_pair: nothing,
            player_pair: nothing,
            perfect_pair: nothing,
            big: nothing,
            small: nothing,
            lucky_seven: nothing,
            super_lucky_seven: nothing,
            lucky_six: nothing,
            banker_dragon_bonus: nothing,
            player_dragon_bonus: nothing,
        }
    }

    /// A breakdown of nothing.
    pub fn new(zero: E) -> (breakdown: CsvBetBreakdown<E>)
        ensures
            breakdown == Self::nothing(zero),
    {
        let nothing: CsvBetPerformance<E> = CsvBetPerformance::new(zero);
        CsvBetBreakdown {
            player: nothing,
            banker: nothing,
            tie: nothing,
            any_pair: nothing,
            banker_pair: nothing,
            player_pair: nothing,
            perfect_pair: nothing,
            big: nothing,
            small: nothing,
            lucky_seven: nothing,
            super_lucky_seven: nothing,
            lucky_six: nothing,
            banker_dragon_bonus: nothing,
            player_dragon_bonus: nothing,
        }
    }

    /// Records one more bet under its kind, and under no other.
    pub fn record(&mut self, bet: BetTarget, amount: E, base: E, rebate: E, zero: E)
        requires
            old(self).of(bet).reconciles(),
            old(self).of(bet).has_room(amount, base, rebate, zero),
        ensures
            final(self).of(bet).reconciles(),
            computable::<E>() ==> *final(self) == old(self).with_bet(
                bet,
                amount,
                base,
                rebate,
                zero,
            ),
            forall|other: BetTarget|
                other != bet ==> #[trigger] final(self).of(other) == old(self).of(other),
    {
        match bet {
            BetTarget::Main(MainBet::Player) => self.player.record(amount, base, rebate, zero),
            BetTarget::Main(MainBet::Banker) => self.banker.record(amount, base, rebate, zero),
            BetTarget::Main(MainBet::Tie) => self.tie.record(amount, base, rebate, zero),
            BetTarget::Side(SideBet::AnyPair) => self.any_pair.record(amount, base, rebate, zero),
            BetTarget::Side(SideBet::BankerPair) => {
                self.banker_pair.record(amount, base, rebate, zero)
            },
            BetTarget::Side(SideBet::PlayerPair) => {
                self.player_pair.record(amount, base, rebate, zero)
            },
            BetTarget::Side(SideBet::PerfectPair) => {
                self.perfect_pair.record(amount, base, rebate, zero)
            },
            BetTarget::Side(SideBet::Big) => self.big.record(amount, base, rebate, zero),
            BetTarget::Side(SideBet::Small) => self.small.record(amount, base, rebate, zero),
            BetTarget::Side(SideBet::LuckySeven) => {
                self.lucky_seven.record(amount, base, rebate, zero)
            },
            BetTarget::Side(SideBet::SuperLuckySeven) => {
                self.super_lucky_seven.record(amount, base, rebate, zero)
            },
            BetTarget::Side(SideBet::LuckySix) => self.lucky_six.record(amount, base, rebate, zero),
            BetTarget::Side(SideBet::BankerDragonBonus) => {
                self.banker_dragon_bonus.record(amount, base, rebate, zero)
            },
            BetTarget::Side(SideBet::PlayerDragonBonus) => {
                self.player_dragon_bonus.record(amount, base, rebate, zero)
            },
        }
    }
}

/// How the bankroll of a replay moves.
#[derive(Debug, Clone, Copy, PartialEq, Eq)]
pub struct Bankroll<E> {
    pub initial: E,
    pub current: E,
    /// The highest bankroll after a round, or the first one.
    pub maximum: E,
    /// The lowest bankroll after a round, or the first one.
    pub minimum: E,
    /// The largest fall from an earlier maximum.
    pub maximum_drawdown: E,
    /// The largest fall as a part of the earlier maximum.
    pub maximum_drawdown_rate: E,
    /// The largest single stake.
    pub maximum_single_stake: E,
    /// The largest stake of a round.
    pub maximum_round_stake: E,
}

impl<E: Copy + PartialOrd + Add<Output = E> + Sub<Output = E>> Bankroll<E> {
    /// The bankroll before the first round.
    pub open spec fn start(initial: E, zero: E) -> Bankroll<E> {
        Bankroll {
            initial,
            current: initial,
            maximum: initial,
            minimum: initial,
            maximum_drawdown: zero,
            maximum_drawdown_rate: zero,
            maximum_single_stake: zero,
            maximum_round_stake: zero,
        }
    }

    /// The fall from the highest bankroll after a round with the given profit.
    pub open spec fn drawdown_after(self, profit: E, zero: E) -> E {
        let current = self.current.add_spec(profit);
        order::higher(order::higher(self.maximum, current).sub_spec(current), zero)
    }

    /// The bankroll after a round: the bets of a round are settled together.
    pub open spec fn after_round(self, stake: E, profit: E, zero: E) -> Bankroll<E> {
        let current = self.current.add_spec(profit);
        Bankroll {
            current,
            maximum: order::higher(self.maximum, current),
            minimum: order::lower(self.minimum, current),
            maximum_drawdown: order::higher(
                self.maximum_drawdown,
                self.drawdown_after(profit, zero),
            ),
            maximum_round_stake: order::higher(self.maximum_round_stake, stake),
            ..self
        }
    }

    /// Whether the sums after a round can be computed.
    pub open spec fn has_room(self, profit: E) -> bool {
        &&& self.current.add_req(profit)
        &&& forall|current: E, maximum: E|
            #[trigger] is_sum(self.current, profit, current) && #[trigger] is_higher(
                self.maximum,
                current,
                maximum,
            ) ==> maximum.sub_req(current)
    }

    /// The bankroll before the first round.
    pub fn new(initial: E, zero: E) -> (bankroll: Bankroll<E>)
        ensures
            bankroll == Self::start(initial, zero),
    {
        Bankroll {
            initial,
            current: initial,
            maximum: initial,
            minimum: initial,
            maximum_drawdown: zero,
            maximum_drawdown_rate: zero,
            maximum_single_stake: zero,
            maximum_round_stake: zero,
        }
    }

    /// Takes note of a single stake.
    pub fn note_stake(&mut self, amount: E)
        ensures
            order::comparable::<E>() ==> *final(self) == (Bankroll {
                maximum_single_stake: order::higher(old(self).maximum_single_stake, amount),
                ..*old(self)
            }),
    {
        self.maximum_single_stake = order::higher_of(self.maximum_single_stake, amount);
    }

    /// Settles all bets of a round and tells the fall from the highest bankroll.
    pub fn close_round(&mut self, stake: E, profit: E, zero: E) -> (drawdown: E)
        requires
            old(self).has_room(profit),
        ensures
            computable::<E>() ==> *final(self) == old(self).after_round(stake, profit, zero),
            computable::<E>() ==> drawdown == old(self).drawdown_after(profit, zero),
    {
        let current: E = self.current + profit;
        let maximum: E = order::higher_of(self.maximum, current);
        proof {
            assert(is_sum(self.current, profit, current));
            assert(is_higher(self.maximum, current, maximum));
        }
        let drawdown: E = order::higher_of(maximum - current, zero);
        *self =
        Bankroll {
            initial: self.initial,
            current,
            maximum,
            minimum: order::lower_of(self.minimum, current),
            maximum_drawdown: order::higher_of(self.maximum_drawdown, drawdown),
            maximum_drawdown_rate: self.maximum_drawdown_rate,
            maximum_single_stake: self.maximum_single_stake,
            maximum_round_stake: order::higher_of(self.maximum_round_stake, stake),
        };
        drawdown
    }

    /// Takes note of a fall as a part of the highest bankroll.
    pub fn note_drawdown_rate(&mut self, rate: E)
        ensures
            order::comparable::<E>() ==> *final(self) == (Bankroll {
                maximum_drawdown_rate: order::higher(old(self).maximum_drawdown_rate, rate),
                ..*old(self)
            }),
    {
        self.maximum_drawdown_rate = order::higher_of(self.maximum_drawdown_rate, rate);
    }
}

/// With whole amounts the bankroll after a round lies between the lowest and the highest one,
/// and its fall from the highest is at most the largest fall.
pub proof fn lemma_bankroll_stays_in_its_range(
    before: Bankroll<i64>,
    stake: i64,
    profit: i64,
)
    requires
        before.minimum <= before.current <= before.maximum,
        i64::MIN <= before.current + profit <= i64::MAX,
        order::higher(before.maximum, (before.current + profit) as i64) - (before.current + profit)
            <= i64::MAX,
    ensures
        ({
            let after = before.after_round(stake, profit, 0);
            &&& after.current == before.current + profit
            &&& after.minimum <= after.current <= after.maximum
            &&& after.maximum - after.current <= after.maximum_drawdown
            &&& after.maximum_drawdown >= before.maximum_drawdown
        }),
{
}

} // verus!
