//! The three main bets and what they pay.

use vstd::prelude::*;

use crate::baccarat::round::RoundOutcome;
use crate::baccarat::side_bet::Settlement;

verus! {

/// A bet on the winner of the round.
#[derive(Debug, Clone, Copy, PartialEq, Eq, Structural)]
pub enum MainBet {
    /// Wins when the player wins.
    Player,
    /// Wins when the banker wins.
    Banker,
    /// Wins when both sides finish with the same points.
    Tie,
}

impl MainBet {
    /// Every main bet, in the order in which equal values are preferred.
    pub const ALL: [MainBet; 3] = [MainBet::Player, MainBet::Banker, MainBet::Tie];

    /// The stable name of the bet.
    pub open spec fn name(self) -> Seq<char> {
        match self {
            MainBet::Player => "player"@,
            MainBet::Banker => "banker"@,
            MainBet::Tie => "tie"@,
        }
    }

    /// The stable name of the bet.
    pub fn as_str(self) -> (name: &'static str)
        ensures
            name@ == self.name(),
    {
        match self {
            MainBet::Player => "player",
            MainBet::Banker => "banker",
            MainBet::Tie => "tie",
        }
    }
}

/// What a winning banker bet pays, with `P` the type of a net payout.
#[derive(Debug, Clone, Copy, PartialEq, Eq)]
pub enum BankerPayoutRule<P> {
    /// Every banker win pays the same.
    Commission { net_payout: P },
    /// A banker win with six points pays less than the others.
    NoCommission { normal_net_payout: P, six_net_payout: P },
}

/// Net payouts of the main bets, with `P` the type of a payout.
///
/// A payout is the profit on one unit of stake; the returned stake is not part of it.
#[derive(Debug, Clone, Copy, PartialEq, Eq)]
pub struct MainBetRules<P> {
    pub player_payout: P,
    pub banker_rule: BankerPayoutRule<P>,
    pub tie_payout: P,
}

impl<P: Copy> MainBetRules<P> {
    /// The payout of a banker win with the given points.
    pub open spec fn banker_pays(self, banker_total: int) -> P {
        match self.banker_rule {
            BankerPayoutRule::Commission { net_payout } => net_payout,
            BankerPayoutRule::NoCommission { normal_net_payout, six_net_payout } => if banker_total
                == 6 {
                six_net_payout
            } else {
                normal_net_payout
            },
        }
    }

    /// How a main bet ends when the banker finishes with the given points.
    pub open spec fn settled(
        self,
        bet: MainBet,
        outcome: RoundOutcome,
        banker_total: int,
    ) -> Settlement<P> {
        match (bet, outcome) {
            (MainBet::Player, RoundOutcome::Player) => Settlement::Win(self.player_payout),
            (MainBet::Player, RoundOutcome::Banker) => Settlement::Lose,
            (MainBet::Player, RoundOutcome::Tie) => Settlement::Push,
            (MainBet::Banker, RoundOutcome::Player) => Settlement::Lose,
            (MainBet::Banker, RoundOutcome::Banker) => Settlement::Win(
                self.banker_pays(banker_total),
            ),
            (MainBet::Banker, RoundOutcome::Tie) => Settlement::Push,
            (MainBet::Tie, RoundOutcome::Tie) => Settlement::Win(self.tie_payout),
            (MainBet::Tie, _) => Settlement::Lose,
        }
    }

    /// Rules in which every banker win pays the same.
    pub fn with_payouts(player_payout: P, banker_payout: P, tie_payout: P) -> (rules: MainBetRules<
        P,
    >)
        ensures
            rules == (MainBetRules {
                player_payout,
                banker_rule: BankerPayoutRule::Commission { net_payout: banker_payout },
                tie_payout,
            }),
    {
        MainBetRules::with_banker_rule(
            player_payout,
            BankerPayoutRule::Commission { net_payout: banker_payout },
            tie_payout,
        )
    }

    /// Rules from their parts.
    pub fn with_banker_rule(
        player_payout: P,
        banker_rule: BankerPayoutRule<P>,
        tie_payout: P,
    ) -> (rules: MainBetRules<P>)
        ensures
            rules == (MainBetRules { player_payout, banker_rule, tie_payout }),
    {
        MainBetRules { player_payout, banker_rule, tie_payout }
    }

    /// The payout of a winning player bet.
    pub fn player_payout(self) -> (payout: P)
        ensures
            payout == self.player_payout,
    {
        self.player_payout
    }

    /// The payout of a banker win with other points than six.
    pub fn banker_payout(self) -> (payout: P)
        ensures
            forall|total: int| total != 6 ==> payout == #[trigger] self.banker_pays(total),
    {
        match self.banker_rule {
            BankerPayoutRule::Commission { net_payout } => net_payout,
            BankerPayoutRule::NoCommission { normal_net_payout, six_net_payout: _ } =>
                normal_net_payout,
        }
    }

    /// How banker wins are paid.
    pub fn banker_rule(self) -> (rule: BankerPayoutRule<P>)
        ensures
            rule == self.banker_rule,
    {
        self.banker_rule
    }

    /// The payout of a banker win with the given points.
    pub fn banker_payout_for_total(self, banker_total: u8) -> (payout: P)
        ensures
            payout == self.banker_pays(banker_total as int),
    {
        match self.banker_rule {
            BankerPayoutRule::Commission { net_payout } => net_payout,
            BankerPayoutRule::NoCommission { normal_net_payout, six_net_payout } => {
                if banker_total == 6 {
                    six_net_payout
                } else {
                    normal_net_payout
                }
            },
        }
    }

    /// The payout of a winning tie bet.
    pub fn tie_payout(self) -> (payout: P)
        ensures
            payout == self.tie_payout,
    {
        self.tie_payout
    }

    /// Settles a main bet without looking at the banker's points, which are taken not to be six.
    pub fn settle(self, bet: MainBet, outcome: RoundOutcome) -> (settlement: Settlement<P>)
        ensures
            forall|total: int|
                total != 6 ==> settlement == #[trigger] self.settled(bet, outcome, total),
    {
        match (bet, outcome) {
            (MainBet::Player, RoundOutcome::Player) => Settlement::Win(self.player_payout),
            (MainBet::Player, RoundOutcome::Banker) => Settlement::Lose,
            (MainBet::Player, RoundOutcome::Tie) => Settlement::Push,
            (MainBet::Banker, RoundOutcome::Player) => Settlement::Lose,
            (MainBet::Banker, RoundOutcome::Banker) => Settlement::Win(self.banker_payout()),
            (MainBet::Banker, RoundOutcome::Tie) => Settlement::Push,
            (MainBet::Tie, RoundOutcome::Player) => Settlement::Lose,
            (MainBet::Tie, RoundOutcome::Banker) => Settlement::Lose,
            (MainBet::Tie, RoundOutcome::Tie) => Settlement::Win(self.tie_payout),
        }
    }

    /// Settles a main bet when the banker finishes with the given points.
    pub fn settle_with_banker_total(
        self,
        bet: MainBet,
        outcome: RoundOutcome,
        banker_total: u8,
    ) -> (settlement: Settlement<P>)
        ensures
            settlement == self.settled(bet, outcome, banker_total as int),
    {
        match (bet, outcome) {
            (MainBet::Banker, RoundOutcome::Banker) => Settlement::Win(
                self.banker_payout_for_total(banker_total),
            ),
            _ => {
                let settlement: Settlement<P> = self.settle(bet, outcome);
                assert(settlement == self.settled(bet, outcome, 0));
                settlement
            },
        }
    }
}

/// The common rules in hundredths of the stake: even money, five percent commission, eight
/// to one.
pub open spec fn standard_table() -> MainBetRules<u32> {
    MainBetRules {
        player_payout: 100,
        banker_rule: BankerPayoutRule::Commission { net_payout: 95 },
        tie_payout: 800,
    }
}

/// The rules without commission in hundredths of the stake: a banker win with six points pays
/// half.
pub open spec fn no_commission_table() -> MainBetRules<u32> {
    MainBetRules {
        player_payout: 100,
        banker_rule: BankerPayoutRule::NoCommission { normal_net_payout: 100, six_net_payout: 50 },
        tie_payout: 800,
    }
}

impl MainBetRules<u32> {
    /// The common rules, in hundredths of the stake.
    pub fn standard() -> (rules: MainBetRules<u32>)
        ensures
            rules == standard_table(),
    {
        MainBetRules::with_banker_rule(100, BankerPayoutRule::Commission { net_payout: 95 }, 800)
    }

    /// The rules without commission, in hundredths of the stake.
    pub fn no_commission() -> (rules: MainBetRules<u32>)
        ensures
            rules == no_commission_table(),
    {
        MainBetRules::with_banker_rule(
            100,
            BankerPayoutRule::NoCommission { normal_net_payout: 100, six_net_payout: 50 },
            800,
        )
    }
}

impl Default for MainBetRules<u32> {
    /// The common rules, in hundredths of the stake.
    fn default() -> (rules: MainBetRules<u32>)
        ensures
            rules == standard_table(),
    {
        MainBetRules::standard()
    }
}

/// A main bet is returned exactly when it is on a side and the round is a tie, and it wins
/// exactly when it names the outcome.
pub proof fn lemma_main_bets_win_lose_or_push<P: Copy>(
    rules: MainBetRules<P>,
    bet: MainBet,
    outcome: RoundOutcome,
    banker_total: int,
)
    ensures
        rules.settled(bet, outcome, banker_total) is Push <==> bet != MainBet::Tie && outcome
            == RoundOutcome::Tie,
        rules.settled(bet, outcome, banker_total) is Win <==> (match bet {
            MainBet::Player => outcome == RoundOutcome::Player,
            MainBet::Banker => outcome == RoundOutcome::Banker,
            MainBet::Tie => outcome == RoundOutcome::Tie,
        }),
{
}

} // verus!
