//! Expected values of the bets, and which bet has the largest.
//!
//! The values are numbers of a type `E` that the caller picks; nothing here computes with them.

use vstd::prelude::*;

use crate::baccarat::bet::MainBet;
use crate::baccarat::side_bet::SideBet;
use crate::order;

verus! {

/// The chance and the expected net profit of one bet per unit of stake.
#[derive(Debug, Clone, Copy, PartialEq, Eq)]
pub struct BetMetrics<E> {
    pub probability: E,
    pub ev: E,
}

impl<E: Copy> BetMetrics<E> {
    /// Metrics from their parts.
    pub fn new(probability: E, ev: E) -> (metrics: BetMetrics<E>)
        ensures
            metrics == (BetMetrics { probability, ev }),
    {
        BetMetrics { probability, ev }
    }

    /// The chance that the bet names the outcome.
    pub fn probability(self) -> (probability: E)
        ensures
            probability == self.probability,
    {
        self.probability
    }

    /// The expected net profit per unit of stake.
    pub fn ev(self) -> (ev: E)
        ensures
            ev == self.ev,
    {
        self.ev
    }
}

/// The expected values of one bet with the rebate taken into account.
#[derive(Debug, Clone, Copy, PartialEq, Eq)]
pub struct EffectiveBetMetrics<E> {
    pub probability: E,
    /// The expected net profit from the payouts.
    pub base_ev: E,
    /// The expected rebate.
    pub rebate_ev: E,
    /// Both together.
    pub effective_ev: E,
}

impl<E: Copy> EffectiveBetMetrics<E> {
    /// The chance that the bet names the outcome.
    pub fn probability(self) -> (probability: E)
        ensures
            probability == self.probability,
    {
        self.probability
    }

    /// The expected net profit from the payouts.
    pub fn base_ev(self) -> (ev: E)
        ensures
            ev == self.base_ev,
    {
        self.base_ev
    }

    /// The expected rebate.
    pub fn rebate_ev(self) -> (ev: E)
        ensures
            ev == self.rebate_ev,
    {
        self.rebate_ev
    }

    /// The expected net profit with the rebate.
    pub fn effective_ev(self) -> (ev: E)
        ensures
            ev == self.effective_ev,
    {
        self.effective_ev
    }
}

/// The main bet with the largest of three values, the earliest where several rank alike.
pub open spec fn best_main_bet<E: PartialOrd>(player: E, banker: E, tie: E) -> MainBet {
    MainBet::ALL@[order::first_best(seq![player, banker, tie], 3)]
}

/// Picks the main bet with the largest value, the earliest where several rank alike.
pub fn pick_main_bet<E: Copy + PartialOrd>(player: E, banker: E, tie: E) -> (bet: MainBet)
    ensures
        order::comparable::<E>() ==> bet == best_main_bet(player, banker, tie),
{
    proof {
        reveal_with_fuel(order::first_best, 3);
        let values = seq![player, banker, tie];
        assert(values[0] == player && values[1] == banker && values[2] == tie);
    }
    let mut bet: MainBet = MainBet::Player;
    let mut largest: E = player;
    if order::is_above(banker, largest) {
        bet = MainBet::Banker;
        largest = banker;
    }
    if order::is_above(tie, largest) {
        bet = MainBet::Tie;
    }
    bet
}

/// The metrics of the three main bets.
#[derive(Debug, Clone, Copy, PartialEq, Eq)]
pub struct MainBetAnalysis<E> {
    pub player: BetMetrics<E>,
    pub banker: BetMetrics<E>,
    pub tie: BetMetrics<E>,
}

impl<E: Copy + PartialOrd> MainBetAnalysis<E> {
    /// The metrics of a bet.
    pub open spec fn of(self, bet: MainBet) -> BetMetrics<E> {
        match bet {
            MainBet::Player => self.player,
            MainBet::Banker => self.banker,
            MainBet::Tie => self.tie,
        }
    }

    /// The metrics of the player bet.
    pub fn player(self) -> (metrics: BetMetrics<E>)
        ensures
            metrics == self.player,
    {
        self.player
    }

    /// The metrics of the banker bet.
    pub fn banker(self) -> (metrics: BetMetrics<E>)
        ensures
            metrics == self.banker,
    {
        self.banker
    }

    /// The metrics of the tie bet.
    pub fn tie(self) -> (metrics: BetMetrics<E>)
        ensures
            metrics == self.tie,
    {
        self.tie
    }

    /// The metrics of a bet.
    pub fn metrics(self, bet: MainBet) -> (metrics: BetMetrics<E>)
        ensures
            metrics == self.of(bet),
    {
        match bet {
            MainBet::Player => self.player,
            MainBet::Banker => self.banker,
            MainBet::Tie => self.tie,
        }
    }

    /// The main bet with the largest expected value, which may still be negative; the earliest
    /// where several rank alike.
    pub fn optimal_bet(self) -> (bet: MainBet)
        ensures
            order::comparable::<E>() ==> bet == best_main_bet(
                self.player.ev,
                self.banker.ev,
                self.tie.ev,
            ),
    {
        pick_main_bet(self.player.ev, self.banker.ev, self.tie.ev)
    }

    /// The expected value of the optimal bet.
    pub fn optimal_ev(self) -> (ev: E)
        ensures
            order::comparable::<E>() ==> ev == self.of(
                best_main_bet(self.player.ev, self.banker.ev, self.tie.ev),
            ).ev,
    {
        self.metrics(self.optimal_bet()).ev
    }
}

/// The metrics of the three main bets with the rebate taken into account.
#[derive(Debug, Clone, Copy, PartialEq, Eq)]
pub struct EffectiveMainBets<E> {
    pub player: EffectiveBetMetrics<E>,
    pub banker: EffectiveBetMetrics<E>,
    pub tie: EffectiveBetMetrics<E>,
}

impl<E: Copy + PartialOrd> EffectiveMainBets<E> {
    /// The metrics of a bet.
    pub open spec fn of(self, bet: MainBet) -> EffectiveBetMetrics<E> {
        match bet {
            MainBet::Player => self.player,
            MainBet::Banker => self.banker,
            MainBet::Tie => self.tie,
        }
    }

    /// The main bet with the largest effective value.
    pub open spec fn best(self) -> MainBet {
        best_main_bet(self.player.effective_ev, self.banker.effective_ev, self.tie.effective_ev)
    }

    /// The metrics of a bet.
    pub fn effective_metrics(self, bet: MainBet) -> (metrics: EffectiveBetMetrics<E>)
        ensures
            metrics == self.of(bet),
    {
        match bet {
            MainBet::Player => self.player,
            MainBet::Banker => self.banker,
            MainBet::Tie => self.tie,
        }
    }

    /// The main bet with the largest effective value, the earliest where several rank alike.
    pub fn optimal_effective_bet(self) -> (bet: MainBet)
        ensures
            order::comparable::<E>() ==> bet == self.best(),
    {
        pick_main_bet(self.player.effective_ev, self.banker.effective_ev, self.tie.effective_ev)
    }

    /// The effective value of the optimal bet.
    pub fn optimal_effective_ev(self) -> (ev: E)
        ensures
            order::comparable::<E>() ==> ev == self.of(self.best()).effective_ev,
    {
        self.effective_metrics(self.optimal_effective_bet()).effective_ev
    }
}

/// The metrics of the side bets with a rebate, in the order of [`SideBet::ALL`].
#[derive(Debug, Clone, Copy, PartialEq, Eq)]
pub struct EffectiveSideBets<E> {
    pub metrics: [EffectiveBetMetrics<E>; 11],
}

impl<E: Copy> EffectiveSideBets<E> {
    /// The metrics of a bet.
    pub fn effective_metrics(self, bet: SideBet) -> (metrics: EffectiveBetMetrics<E>)
        ensures
            metrics == self.metrics@[bet.position()],
    {
        self.metrics[bet.index()]
    }
}

} // verus!
