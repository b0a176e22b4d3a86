//! Rebates: the part of every stake that is paid back besides the payouts.

use vstd::prelude::*;

use crate::baccarat::bet::MainBet;
use crate::baccarat::round::RoundOutcome;

verus! {

/// When a rebate is paid, with `P` the type of its rate.
#[derive(Debug, Clone, Copy, PartialEq, Eq)]
pub enum RebateRule<P> {
    /// Never.
    NoRebate,
    /// On every bet but a player or banker bet that a tie returns.
    AllExceptMainBetTie { rate: P },
}

impl<P: Copy> RebateRule<P> {
    /// The rate of a bet for which the rule pays; none where no rebate is paid.
    pub open spec fn rate_where(self, paid: bool) -> Option<P> {
        match self {
            RebateRule::NoRebate => None,
            RebateRule::AllExceptMainBetTie { rate } => if paid {
                Some(rate)
            } else {
                None
            },
        }
    }

    /// Whether the rule is meant for a main bet that ends with the outcome.
    pub open spec fn covers(bet: MainBet, outcome: RoundOutcome) -> bool {
        bet == MainBet::Tie || outcome != RoundOutcome::Tie
    }

    /// The rate for a main bet and the outcome of the round; none where no rebate is paid.
    pub fn rate_for(self, bet: MainBet, outcome: RoundOutcome) -> (rate: Option<P>)
        ensures
            rate == self.rate_where(Self::covers(bet, outcome)),
    {
        match self {
            RebateRule::NoRebate => None,
            RebateRule::AllExceptMainBetTie { rate } => match (bet, outcome) {
                (MainBet::Player, RoundOutcome::Tie) => None,
                (MainBet::Banker, RoundOutcome::Tie) => None,
                _ => Some(rate),
            },
        }
    }

    /// The rate for a side bet, whatever its outcome; none where no rebate is paid.
    pub fn rate_for_side_bet(self) -> (rate: Option<P>)
        ensures
            rate == self.rate_where(true),
    {
        match self {
            RebateRule::NoRebate => None,
            RebateRule::AllExceptMainBetTie { rate } => Some(rate),
        }
    }
}

} // verus!
