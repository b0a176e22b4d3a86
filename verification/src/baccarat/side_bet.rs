//! Side bets: when they win, what they pay and how many deals win them.

use vstd::prelude::*;

use crate::baccarat::hand::BaccaratHand;
use crate::baccarat::round::{RoundOutcome, RoundResult};
use crate::order;
use crate::scale::Scale;

verus! {

/// A side bet.
#[derive(Debug, Clone, Copy, PartialEq, Eq, Structural)]
pub enum SideBet {
    /// Either side's two initial cards have the same rank.
    AnyPair,
    /// The banker's two initial cards have the same rank.
    BankerPair,
    /// The player's two initial cards have the same rank.
    PlayerPair,
    /// Either side's two initial cards are the same card.
    PerfectPair,
    /// The round uses five or six cards.
    Big,
    /// The round uses four cards.
    Small,
    /// The player wins with seven, by the number of the player's cards.
    LuckySeven,
    /// The player's seven beats the banker's six, by the number of all cards.
    SuperLuckySeven,
    /// The banker wins with six, by the number of the banker's cards.
    LuckySix,
    /// The banker wins by four or more without a natural; naturals push.
    BankerDragonBonus,
    /// The player wins by four or more without a natural; naturals push.
    PlayerDragonBonus,
}

impl SideBet {
    /// Every side bet, in the order in which equal values are preferred.
    pub const ALL: [SideBet; 11] = [
        SideBet::AnyPair,
        SideBet::BankerPair,
        SideBet::PlayerPair,
        SideBet::PerfectPair,
        SideBet::Big,
        SideBet::Small,
        SideBet::LuckySeven,
        SideBet::SuperLuckySeven,
        SideBet::LuckySix,
        SideBet::BankerDragonBonus,
        SideBet::PlayerDragonBonus,
    ];

    /// The number of different payouts of the bet.
    pub open spec fn tiers(self) -> int {
        match self {
            SideBet::LuckySeven => 2,
            SideBet::SuperLuckySeven => 3,
            SideBet::LuckySix => 2,
            SideBet::BankerDragonBonus => 6,
            SideBet::PlayerDragonBonus => 6,
            _ => 1,
        }
    }

    /// The position of the bet in the order of preference.
    pub open spec fn position(self) -> int {
        match self {
            SideBet::AnyPair => 0,
            SideBet::BankerPair => 1,
            SideBet::PlayerPair => 2,
            SideBet::PerfectPair => 3,
            SideBet::Big => 4,
            SideBet::Small => 5,
            SideBet::LuckySeven => 6,
            SideBet::SuperLuckySeven => 7,
            SideBet::LuckySix => 8,
            SideBet::BankerDragonBonus => 9,
            SideBet::PlayerDragonBonus => 10,
        }
    }

    /// The position of the bet in [`SideBet::ALL`].
    pub fn index(self) -> (index: usize)
        ensures
            index == self.position(),
            index < 11,
            SideBet::ALL@[index as int] == self,
    {
        match self {
            SideBet::AnyPair => 0,
            SideBet::BankerPair => 1,
            SideBet::PlayerPair => 2,
            SideBet::PerfectPair => 3,
            SideBet::Big => 4,
            SideBet::Small => 5,
            SideBet::LuckySeven => 6,
            SideBet::SuperLuckySeven => 7,
            SideBet::LuckySix => 8,
            SideBet::BankerDragonBonus => 9,
            SideBet::PlayerDragonBonus => 10,
        }
    }

    /// The stable name of the bet.
    pub open spec fn name(self) -> Seq<char> {
        match self {
            SideBet::AnyPair => "any_pair"@,
            SideBet::BankerPair => "banker_pair"@,
            SideBet::PlayerPair => "player_pair"@,
            SideBet::PerfectPair => "perfect_pair"@,
            SideBet::Big => "big"@,
            SideBet::Small => "small"@,
            SideBet::LuckySeven => "lucky_seven"@,
            SideBet::SuperLuckySeven => "super_lucky_seven"@,
            SideBet::LuckySix => "lucky_six"@,
            SideBet::BankerDragonBonus => "banker_dragon_bonus"@,
            SideBet::PlayerDragonBonus => "player_dragon_bonus"@,
        }
    }

    /// The stable name of the bet.
    pub fn as_str(self) -> (name: &'static str)
        ensures
            name@ == self.name(),
    {
        match self {
            SideBet::AnyPair => "any_pair",
            SideBet::BankerPair => "banker_pair",
            SideBet::PlayerPair => "player_pair",
            SideBet::PerfectPair => "perfect_pair",
            SideBet::Big => "big",
            SideBet::Small => "small",
            SideBet::LuckySeven => "lucky_seven",
            SideBet::SuperLuckySeven => "super_lucky_seven",
            SideBet::LuckySix => "lucky_six",
            SideBet::BankerDragonBonus => "banker_dragon_bonus",
            SideBet::PlayerDragonBonus => "player_dragon_bonus",
        }
    }
}

/// How a bet ends on a finished round, before any payout is looked up.
#[derive(Debug, Clone, Copy, PartialEq, Eq, Structural)]
pub enum SideVerdict {
    /// The stake is lost.
    Lose,
    /// The stake is returned.
    Push,
    /// The bet wins in the given payout tier.
    Tier(u8),
}

/// What a settled bet pays for one unit of stake, with `P` the type of a net payout.
#[derive(Debug, Clone, Copy, PartialEq, Eq)]
pub enum Settlement<P> {
    /// The stake is lost.
    Lose,
    /// The stake is returned.
    Push,
    /// The stake is returned with this net payout.
    Win(P),
}

/// Whether the two initial cards have the same rank.
pub open spec fn is_pair(hand: BaccaratHand) -> bool {
    hand.first_card.rank == hand.second_card.rank
}

/// Whether the two initial cards are the same card.
pub open spec fn is_perfect_pair(hand: BaccaratHand) -> bool {
    hand.first_card == hand.second_card
}

/// The dragon bonus tier of a winning margin.
pub open spec fn margin_verdict(margin: int) -> SideVerdict {
    if margin >= 4 {
        SideVerdict::Tier((margin - 4) as u8)
    } else {
        SideVerdict::Lose
    }
}

/// How a side bet that looks only at points and card numbers ends, given each side's final
/// points and number of cards.
pub open spec fn points_verdict(
    bet: SideBet,
    player: int,
    banker: int,
    player_cards: int,
    banker_cards: int,
) -> SideVerdict {
    let cards = player_cards + banker_cards;
    let player_natural = player_cards == 2 && player >= 8;
    let banker_natural = banker_cards == 2 && banker >= 8;
    match bet {
        SideBet::Big => if cards >= 5 {
            SideVerdict::Tier(0)
        } else {
            SideVerdict::Lose
        },
        SideBet::Small => if cards == 4 {
            SideVerdict::Tier(0)
        } else {
            SideVerdict::Lose
        },
        SideBet::LuckySeven => if player == 7 && player > banker {
            if player_cards == 2 {
                SideVerdict::Tier(0)
            } else {
                SideVerdict::Tier(1)
            }
        } else {
            SideVerdict::Lose
        },
        SideBet::SuperLuckySeven => if player == 7 && banker == 6 {
            if cards == 4 {
                SideVerdict::Tier(0)
            } else if cards == 5 {
                SideVerdict::Tier(1)
            } else {
                SideVerdict::Tier(2)
            }
        } else {
            SideVerdict::Lose
        },
        SideBet::LuckySix => if banker == 6 && banker > player {
            if banker_cards == 2 {
                SideVerdict::Tier(0)
            } else {
                SideVerdict::Tier(1)
            }
        } else {
            SideVerdict::Lose
        },
        SideBet::BankerDragonBonus => if banker > player {
            if banker_natural {
                SideVerdict::Push
            } else {
                margin_verdict(banker - player)
            }
        } else if banker == player && player_natural && banker_natural {
            SideVerdict::Push
        } else {
            SideVerdict::Lose
        },
        SideBet::PlayerDragonBonus => if player > banker {
            if player_natural {
                SideVerdict::Push
            } else {
                margin_verdict(player - banker)
            }
        } else if banker == player && player_natural && banker_natural {
            SideVerdict::Push
        } else {
            SideVerdict::Lose
        },
        _ => SideVerdict::Lose,
    }
}

/// How a side bet ends on two final hands.
pub open spec fn side_verdict(
    bet: SideBet,
    player: BaccaratHand,
    banker: BaccaratHand,
) -> SideVerdict {
    match bet {
        SideBet::AnyPair => if is_pair(player) || is_pair(banker) {
            SideVerdict::Tier(0)
        } else {
            SideVerdict::Lose
        },
        SideBet::BankerPair => if is_pair(banker) {
            SideVerdict::Tier(0)
        } else {
            SideVerdict::Lose
        },
        SideBet::PlayerPair => if is_pair(player) {
            SideVerdict::Tier(0)
        } else {
            SideVerdict::Lose
        },
        SideBet::PerfectPair => if is_perfect_pair(player) || is_perfect_pair(banker) {
            SideVerdict::Tier(0)
        } else {
            SideVerdict::Lose
        },
        _ => points_verdict(
            bet,
            player.points(),
            banker.points(),
            player.size(),
            banker.size(),
        ),
    }
}

/// Ends a side bet on a finished round.
pub fn judge_side_bet(bet: SideBet, round: RoundResult) -> (verdict: SideVerdict)
    ensures
        verdict == side_verdict(bet, round.player(), round.banker()),
        verdict matches SideVerdict::Tier(tier) ==> tier < bet.tiers(),
{
    let player: BaccaratHand = round.player_hand();
    let banker: BaccaratHand = round.banker_hand();
    let player_pair: bool = player.first_card().rank() == player.second_card().rank();
    let banker_pair: bool = banker.first_card().rank() == banker.second_card().rank();
    let player_perfect_pair: bool = player.first_card() == player.second_card();
    let banker_perfect_pair: bool = banker.first_card() == banker.second_card();
    let outcome: RoundOutcome = round.outcome();
    let player_total: u8 = player.total();
    let banker_total: u8 = banker.total();
    let cards: u8 = round.card_count();
    match bet {
        SideBet::AnyPair => if player_pair || banker_pair {
            SideVerdict::Tier(0)
        } else {
            SideVerdict::Lose
        },
        SideBet::BankerPair => if banker_pair {
            SideVerdict::Tier(0)
        } else {
            SideVerdict::Lose
        },
        SideBet::PlayerPair => if player_pair {
            SideVerdict::Tier(0)
        } else {
            SideVerdict::Lose
        },
        SideBet::PerfectPair => if player_perfect_pair || banker_perfect_pair {
            SideVerdict::Tier(0)
        } else {
            SideVerdict::Lose
        },
        SideBet::Big => if cards >= 5 {
            SideVerdict::Tier(0)
        } else {
            SideVerdict::Lose
        },
        SideBet::Small => if cards == 4 {
            SideVerdict::Tier(0)
        } else {
            SideVerdict::Lose
        },
        SideBet::LuckySeven => if player_total == 7 && player_total > banker_total {
            if player.card_count() == 2 {
                SideVerdict::Tier(0)
            } else {
                SideVerdict::Tier(1)
            }
        } else {
            SideVerdict::Lose
        },
        SideBet::SuperLuckySeven => if player_total == 7 && banker_total == 6 {
            if cards == 4 {
                SideVerdict::Tier(0)
            } else if cards == 5 {
                SideVerdict::Tier(1)
            } else {
                SideVerdict::Tier(2)
            }
        } else {
            SideVerdict::Lose
        },
        SideBet::LuckySix => if outcome == RoundOutcome::Banker && banker_total == 6 {
            if banker.card_count() == 2 {
                SideVerdict::Tier(0)
            } else {
                SideVerdict::Tier(1)
            }
        } else {
            SideVerdict::Lose
        },
        SideBet::BankerDragonBonus => {
            if outcome == RoundOutcome::Banker {
                if banker.is_natural() {
                    SideVerdict::Push
                } else {
                    judge_margin(banker_total - player_total)
                }
            } else if outcome == RoundOutcome::Tie && player.is_natural() && banker.is_natural() {
                SideVerdict::Push
            } else {
                SideVerdict::Lose
            }
        },
        SideBet::PlayerDragonBonus => {
            if outcome == RoundOutcome::Player {
                if player.is_natural() {
                    SideVerdict::Push
                } else {
                    judge_margin(player_total - banker_total)
                }
            } else if outcome == RoundOutcome::Tie && player.is_natural() && banker.is_natural() {
                SideVerdict::Push
            } else {
                SideVerdict::Lose
            }
        },
    }
}

fn judge_margin(margin: u8) -> (verdict: SideVerdict)
    requires
        margin < 10,
    ensures
        verdict == margin_verdict(margin as int),
        verdict matches SideVerdict::Tier(tier) ==> tier < 6,
{
    if margin >= 4 {
        SideVerdict::Tier(margin - 4)
    } else {
        SideVerdict::Lose
    }
}

/// Net payouts of the side bets, with `P` the type of a payout.
#[derive(Debug, Clone, Copy, PartialEq, Eq)]
pub struct SideBetRules<P> {
    pub any_pair: P,
    pub banker_pair: P,
    pub player_pair: P,
    pub perfect_pair: P,
    pub big: P,
    pub small: P,
    pub lucky_seven: [P; 2],
    pub super_lucky_seven: [P; 3],
    pub lucky_six: [P; 2],
    pub dragon_bonus_by_margin: [P; 6],
}

impl<P: Copy> SideBetRules<P> {
    /// The net payout of a bet in a tier.
    pub open spec fn payout_at(self, bet: SideBet, tier: int) -> P {
        match bet {
            SideBet::AnyPair => self.any_pair,
            SideBet::BankerPair => self.banker_pair,
            SideBet::PlayerPair => self.player_pair,
            SideBet::PerfectPair => self.perfect_pair,
            SideBet::Big => self.big,
            SideBet::Small => self.small,
            SideBet::LuckySeven => self.lucky_seven@[tier],
            SideBet::SuperLuckySeven => self.super_lucky_seven@[tier],
            SideBet::LuckySix => self.lucky_six@[tier],
            SideBet::BankerDragonBonus => self.dragon_bonus_by_margin@[tier],
            SideBet::PlayerDragonBonus => self.dragon_bonus_by_margin@[tier],
        }
    }

    /// The payout of a verdict.
    pub open spec fn settled(self, bet: SideBet, verdict: SideVerdict) -> Settlement<P> {
        match verdict {
            SideVerdict::Lose => Settlement::Lose,
            SideVerdict::Push => Settlement::Push,
            SideVerdict::Tier(tier) => Settlement::Win(self.payout_at(bet, tier as int)),
        }
    }

    /// The net payout of a bet with a single payout; none for a bet with several.
    pub fn payout(self, bet: SideBet) -> (payout: Option<P>)
        ensures
            payout == if bet.tiers() == 1 {
                Some(self.payout_at(bet, 0))
            } else {
                None
            },
    {
        match bet {
            SideBet::AnyPair => Some(self.any_pair),
            SideBet::BankerPair => Some(self.banker_pair),
            SideBet::PlayerPair => Some(self.player_pair),
            SideBet::PerfectPair => Some(self.perfect_pair),
            SideBet::Big => Some(self.big),
            SideBet::Small => Some(self.small),
            _ => None,
        }
    }

    /// The payouts of the player's two-card and three-card lucky seven.
    pub fn lucky_seven_payouts(self) -> (payouts: [P; 2])
        ensures
            payouts == self.lucky_seven,
    {
        self.lucky_seven
    }

    /// The payouts of the super lucky seven with four, five and six cards.
    pub fn super_lucky_seven_payouts(self) -> (payouts: [P; 3])
        ensures
            payouts == self.super_lucky_seven,
    {
        self.super_lucky_seven
    }

    /// The payouts of the banker's two-card and three-card lucky six.
    pub fn lucky_six_payouts(self) -> (payouts: [P; 2])
        ensures
            payouts == self.lucky_six,
    {
        self.lucky_six
    }

    /// The dragon bonus payouts of the margins four to nine.
    pub fn dragon_bonus_payouts(self) -> (payouts: [P; 6])
        ensures
            payouts == self.dragon_bonus_by_margin,
    {
        self.dragon_bonus_by_margin
    }

    /// The net payout of a bet in one of its tiers.
    pub fn tier_payout(self, bet: SideBet, tier: u8) -> (payout: P)
        requires
            tier < bet.tiers(),
        ensures
            payout == self.payout_at(bet, tier as int),
    {
        match bet {
            SideBet::AnyPair => self.any_pair,
            SideBet::BankerPair => self.banker_pair,
            SideBet::PlayerPair => self.player_pair,
            SideBet::PerfectPair => self.perfect_pair,
            SideBet::Big => self.big,
            SideBet::Small => self.small,
            SideBet::LuckySeven => self.lucky_seven[tier as usize],
            SideBet::SuperLuckySeven => self.super_lucky_seven[tier as usize],
            SideBet::LuckySix => self.lucky_six[tier as usize],
            SideBet::BankerDragonBonus => self.dragon_bonus_by_margin[tier as usize],
            SideBet::PlayerDragonBonus => self.dragon_bonus_by_margin[tier as usize],
        }
    }

    /// Settles a side bet on a finished round.
    pub fn settle(self, bet: SideBet, round: RoundResult) -> (settlement: Settlement<P>)
        ensures
            settlement == self.settled(bet, side_verdict(bet, round.player(), round.banker())),
    {
        match judge_side_bet(bet, round) {
            SideVerdict::Lose => Settlement::Lose,
            SideVerdict::Push => Settlement::Push,
            SideVerdict::Tier(tier) => Settlement::Win(self.tier_payout(bet, tier)),
        }
    }
}

/// Why a paytable is refused: the first payout that is negative or not finite.
#[derive(Debug, Clone, Copy, PartialEq, Eq)]
pub struct SideBetRuleError<P> {
    /// The name of the payout.
    pub field: &'static str,
    pub value: P,
}

/// The names of the payouts that can be set.
pub open spec fn payout_names() -> Seq<Seq<char>> {
    seq![
        "any_pair"@,
        "banker_pair"@,
        "player_pair"@,
        "perfect_pair"@,
        "big"@,
        "small"@,
        "lucky_seven_two_cards"@,
        "lucky_seven_three_cards"@,
        "super_lucky_seven_four_cards"@,
        "super_lucky_seven_five_cards"@,
        "super_lucky_seven_six_cards"@,
    ]
}

/// The position of the first payout that is no amount; the length where all are.
pub open spec fn first_refused<P: Copy + PartialOrd>(
    scale: Scale<P>,
    payouts: Seq<P>,
    from: int,
) -> int
    decreases payouts.len() - from,
{
    if from >= payouts.len() {
        payouts.len() as int
    } else if !scale.amount(payouts[from]) {
        from
    } else {
        first_refused(scale, payouts, from + 1)
    }
}

impl<P: Copy + PartialOrd> SideBetRules<P> {
    /// The paytable with other payouts for all bets but the lucky six and the dragon bonus.
    pub fn with_payouts(
        self,
        scale: Scale<P>,
        any_pair: P,
        banker_pair: P,
        player_pair: P,
        perfect_pair: P,
        big: P,
        small: P,
        lucky_seven_two_cards: P,
        lucky_seven_three_cards: P,
        super_lucky_seven_four_cards: P,
        super_lucky_seven_five_cards: P,
        super_lucky_seven_six_cards: P,
    ) -> (result: Result<SideBetRules<P>, SideBetRuleError<P>>)
        ensures
            order::comparable::<P>() ==> {
                let payouts = seq![
                    any_pair,
                    banker_pair,
                    player_pair,
                    perfect_pair,
                    big,
                    small,
                    lucky_seven_two_cards,
                    lucky_seven_three_cards,
                    super_lucky_seven_four_cards,
                    super_lucky_seven_five_cards,
                    super_lucky_seven_six_cards,
                ];
                let refused = first_refused(scale, payouts, 0);
                match result {
                    Ok(_) => refused == payouts.len(),
                    Err(error) => refused < payouts.len() && error.field@ == payout_names()[refused]
                        && error.value == payouts[refused],
                }
            },
            result matches Ok(rules) ==> {
                &&& rules.any_pair == any_pair
                &&& rules.banker_pair == banker_pair
                &&& rules.player_pair == player_pair
                &&& rules.perfect_pair == perfect_pair
                &&& rules.big == big
                &&& rules.small == small
                &&& rules.lucky_seven@ == seq![lucky_seven_two_cards, lucky_seven_three_cards]
                &&& rules.super_lucky_seven@ == seq![
                    super_lucky_seven_four_cards,
                    super_lucky_seven_five_cards,
                    super_lucky_seven_six_cards,
                ]
                &&& rules.lucky_six == self.lucky_six
                &&& rules.dragon_bonus_by_margin == self.dragon_bonus_by_margin
            },
    {
        let payouts: [(&'static str, P); 11] = [
            ("any_pair", any_pair),
            ("banker_pair", banker_pair),
            ("player_pair", player_pair),
            ("perfect_pair", perfect_pair),
            ("big", big),
            ("small", small),
            ("lucky_seven_two_cards", lucky_seven_two_cards),
            ("lucky_seven_three_cards", lucky_seven_three_cards),
            ("super_lucky_seven_four_cards", super_lucky_seven_four_cards),
            ("super_lucky_seven_five_cards", super_lucky_seven_five_cards),
            ("super_lucky_seven_six_cards", super_lucky_seven_six_cards),
        ];
        let ghost wanted = seq![
            any_pair,
            banker_pair,
            player_pair,
            perfect_pair,
            big,
            small,
            lucky_seven_two_cards,
            lucky_seven_three_cards,
            super_lucky_seven_four_cards,
            super_lucky_seven_five_cards,
            super_lucky_seven_six_cards,
        ];
        let mut i: usize = 0;
        while i < 11
            invariant
                i <= 11,
                wanted.len() == 11,
                forall|j: int|
                    0 <= j < 11 ==> (#[trigger] payouts@[j]).0@ == payout_names()[j]
                        && payouts@[j].1 == wanted[j],
                order::comparable::<P>() ==> first_refused(scale, wanted, 0) == first_refused(
                    scale,
                    wanted,
                    i as int,
                ),
                wanted == seq![
                    any_pair,
                    banker_pair,
                    player_pair,
                    perfect_pair,
                    big,
                    small,
                    lucky_seven_two_cards,
                    lucky_seven_three_cards,
                    super_lucky_seven_four_cards,
                    super_lucky_seven_five_cards,
                    super_lucky_seven_six_cards,
                ],
            decreases 11 - i,
        {
            let (field, value): (&'static str, P) = payouts[i];
            if !scale.is_amount(value) {
                return Err(SideBetRuleError { field, value });
            }
            i = i + 1;
        }
        Ok(
            SideBetRules {
                any_pair,
                banker_pair,
                player_pair,
                perfect_pair,
                big,
                small,
                lucky_seven: [lucky_seven_two_cards, lucky_seven_three_cards],
                super_lucky_seven: [
                    super_lucky_seven_four_cards,
                    super_lucky_seven_five_cards,
                    super_lucky_seven_six_cards,
                ],
                lucky_six: self.lucky_six,
                dragon_bonus_by_margin: self.dragon_bonus_by_margin,
            },
        )
    }
}

/// The default paytable in hundredths of the stake.
pub open spec fn macau_table() -> SideBetRules<u32> {
    SideBetRules {
        any_pair: 500,
        banker_pair: 1100,
        player_pair: 1100,
        perfect_pair: 2500,
        big: 50,
        small: 150,
        lucky_seven: [600, 1500],
        super_lucky_seven: [3000, 4000, 10000],
        lucky_six: [1200, 1800],
        dragon_bonus_by_margin: [100, 200, 300, 500, 1000, 3000],
    }
}

impl SideBetRules<u32> {
    /// The default paytable, in hundredths of the stake.
    pub fn macau_lucky_seven() -> (rules: SideBetRules<u32>)
        ensures
            rules == macau_table(),
    {
        SideBetRules {
            any_pair: 500,
            banker_pair: 1100,
            player_pair: 1100,
            perfect_pair: 2500,
            big: 50,
            small: 150,
            lucky_seven: [600, 1500],
            super_lucky_seven: [3000, 4000, 10000],
            lucky_six: [1200, 1800],
            dragon_bonus_by_margin: [100, 200, 300, 500, 1000, 3000],
        }
    }
}

impl Default for SideBetRules<u32> {
    /// The default paytable, in hundredths of the stake.
    fn default() -> (rules: SideBetRules<u32>)
        ensures
            rules == macau_table(),
    {
        SideBetRules::macau_lucky_seven()
    }
}

/// How many ordered six-card deals win each side bet in each tier, or return its stake.
#[derive(Debug, Clone, Copy, PartialEq, Eq)]
pub struct SideBetWeights {
    total: u64,
    any_pair: u64,
    banker_pair: u64,
    player_pair: u64,
    perfect_pair: u64,
    big: u64,
    small: u64,
    lucky_seven: [u64; 2],
    super_lucky_seven: [u64; 3],
    lucky_six: [u64; 2],
    banker_dragon_bonus_tiers: [u64; 6],
    banker_dragon_bonus_push: u64,
    player_dragon_bonus_tiers: [u64; 6],
    player_dragon_bonus_push: u64,
}

impl SideBetWeights {
    /// The number of all deals.
    pub closed spec fn denominator(self) -> nat {
        self.total as nat
    }

    /// The number of deals that win a bet in a tier.
    pub closed spec fn tier(self, bet: SideBet, tier: int) -> nat {
        match bet {
            SideBet::AnyPair => self.any_pair as nat,
            SideBet::BankerPair => self.banker_pair as nat,
            SideBet::PlayerPair => self.player_pair as nat,
            SideBet::PerfectPair => self.perfect_pair as nat,
            SideBet::Big => self.big as nat,
            SideBet::Small => self.small as nat,
            SideBet::LuckySeven => self.lucky_seven@[tier] as nat,
            SideBet::SuperLuckySeven => self.super_lucky_seven@[tier] as nat,
            SideBet::LuckySix => self.lucky_six@[tier] as nat,
            SideBet::BankerDragonBonus => self.banker_dragon_bonus_tiers@[tier] as nat,
            SideBet::PlayerDragonBonus => self.player_dragon_bonus_tiers@[tier] as nat,
        }
    }

    /// The number of deals that return the stake of a bet.
    pub closed spec fn push(self, bet: SideBet) -> nat {
        match bet {
            SideBet::BankerDragonBonus => self.banker_dragon_bonus_push as nat,
            SideBet::PlayerDragonBonus => self.player_dragon_bonus_push as nat,
            _ => 0,
        }
    }

    /// The number of deals that win a bet in any tier.
    pub open spec fn wins(self, bet: SideBet) -> nat {
        match bet {
            SideBet::LuckySeven => self.tier(bet, 0) + self.tier(bet, 1),
            SideBet::SuperLuckySeven => self.tier(bet, 0) + self.tier(bet, 1) + self.tier(bet, 2),
            SideBet::LuckySix => self.tier(bet, 0) + self.tier(bet, 1),
            SideBet::BankerDragonBonus => self.tier(bet, 0) + self.tier(bet, 1) + self.tier(bet, 2)
                + self.tier(bet, 3) + self.tier(bet, 4) + self.tier(bet, 5),
            SideBet::PlayerDragonBonus => self.tier(bet, 0) + self.tier(bet, 1) + self.tier(bet, 2)
                + self.tier(bet, 3) + self.tier(bet, 4) + self.tier(bet, 5),
            _ => self.tier(bet, 0),
        }
    }

    /// Weights from their parts.
    pub fn new(
        total: u64,
        any_pair: u64,
        banker_pair: u64,
        player_pair: u64,
        perfect_pair: u64,
        big: u64,
        small: u64,
        lucky_seven_two_cards: u64,
        lucky_seven_three_cards: u64,
        super_lucky_seven_four_cards: u64,
        super_lucky_seven_five_cards: u64,
        super_lucky_seven_six_cards: u64,
        lucky_six_two_cards: u64,
        lucky_six_three_cards: u64,
        banker_dragon_bonus_tiers: [u64; 6],
        banker_dragon_bonus_push: u64,
        player_dragon_bonus_tiers: [u64; 6],
        player_dragon_bonus_push: u64,
    ) -> (weights: SideBetWeights)
        requires
            any_pair <= total,
            banker_pair <= total,
            player_pair <= total,
            perfect_pair <= total,
            big <= total,
            small <= total,
            lucky_seven_two_cards <= total,
            lucky_seven_three_cards <= total,
            super_lucky_seven_four_cards <= total,
            super_lucky_seven_five_cards <= total,
            super_lucky_seven_six_cards <= total,
            lucky_six_two_cards <= total,
            lucky_six_three_cards <= total,
            forall|i: int| 0 <= i < 6 ==> #[trigger] banker_dragon_bonus_tiers@[i] <= total,
            banker_dragon_bonus_push <= total,
            forall|i: int| 0 <= i < 6 ==> #[trigger] player_dragon_bonus_tiers@[i] <= total,
            player_dragon_bonus_push <= total,
        ensures
            weights.denominator() == total,
            weights.tier(SideBet::AnyPair, 0) == any_pair,
            weights.tier(SideBet::BankerPair, 0) == banker_pair,
            weights.tier(SideBet::PlayerPair, 0) == player_pair,
            weights.tier(SideBet::PerfectPair, 0) == perfect_pair,
            weights.tier(SideBet::Big, 0) == big,
            weights.tier(SideBet::Small, 0) == small,
            weights.tier(SideBet::LuckySeven, 0) == lucky_seven_two_cards,
            weights.tier(SideBet::LuckySeven, 1) == lucky_seven_three_cards,
            weights.tier(SideBet::SuperLuckySeven, 0) == super_lucky_seven_four_cards,
            weights.tier(SideBet::SuperLuckySeven, 1) == super_lucky_seven_five_cards,
            weights.tier(SideBet::SuperLuckySeven, 2) == super_lucky_seven_six_cards,
            weights.tier(SideBet::LuckySix, 0) == lucky_six_two_cards,
            weights.tier(SideBet::LuckySix, 1) == lucky_six_three_cards,
            forall|i: int|
                0 <= i < 6 ==> #[trigger] weights.tier(SideBet::BankerDragonBonus, i)
                    == banker_dragon_bonus_tiers@[i],
            forall|i: int|
                0 <= i < 6 ==> #[trigger] weights.tier(SideBet::PlayerDragonBonus, i)
                    == player_dragon_bonus_tiers@[i],
            forall|bet: SideBet| #[trigger]
                weights.push(bet) == match bet {
                    SideBet::BankerDragonBonus => banker_dragon_bonus_push as nat,
                    SideBet::PlayerDragonBonus => player_dragon_bonus_push as nat,
                    _ => 0,
                },
    {
        SideBetWeights {
            total,
            any_pair,
            banker_pair,
            player_pair,
            perfect_pair,
            big,
            small,
            lucky_seven: [lucky_seven_two_cards, lucky_seven_three_cards],
            super_lucky_seven: [
                super_lucky_seven_four_cards,
                super_lucky_seven_five_cards,
                super_lucky_seven_six_cards,
            ],
            lucky_six: [lucky_six_two_cards, lucky_six_three_cards],
            banker_dragon_bonus_tiers,
            banker_dragon_bonus_push,
            player_dragon_bonus_tiers,
            player_dragon_bonus_push,
        }
    }

    /// The number of all deals.
    pub fn total_weight(self) -> (weight: u64)
        ensures
            weight == self.denominator(),
    {
        self.total
    }

    /// The number of deals that win a bet.
    pub fn win_weight(self, bet: SideBet) -> (weight: u64)
        requires
            self.wins(bet) <= u64::MAX,
        ensures
            weight == self.wins(bet),
    {
        match bet {
            SideBet::AnyPair => self.any_pair,
            SideBet::BankerPair => self.banker_pair,
            SideBet::PlayerPair => self.player_pair,
            SideBet::PerfectPair => self.perfect_pair,
            SideBet::Big => self.big,
            SideBet::Small => self.small,
            SideBet::LuckySeven => self.lucky_seven[0] + self.lucky_seven[1],
            SideBet::SuperLuckySeven => self.super_lucky_seven[0] + self.super_lucky_seven[1]
                + self.super_lucky_seven[2],
            SideBet::LuckySix => self.lucky_six[0] + self.lucky_six[1],
            SideBet::BankerDragonBonus => self.banker_dragon_bonus_tiers[0]
                + self.banker_dragon_bonus_tiers[1] + self.banker_dragon_bonus_tiers[2]
                + self.banker_dragon_bonus_tiers[3] + self.banker_dragon_bonus_tiers[4]
                + self.banker_dragon_bonus_tiers[5],
            SideBet::PlayerDragonBonus => self.player_dragon_bonus_tiers[0]
                + self.player_dragon_bonus_tiers[1] + self.player_dragon_bonus_tiers[2]
                + self.player_dragon_bonus_tiers[3] + self.player_dragon_bonus_tiers[4]
                + self.player_dragon_bonus_tiers[5],
        }
    }

    /// The number of deals that win a bet in one of its tiers.
    pub fn tier_weight(self, bet: SideBet, tier: u8) -> (weight: u64)
        requires
            tier < bet.tiers(),
        ensures
            weight == self.tier(bet, tier as int),
    {
        match bet {
            SideBet::AnyPair => self.any_pair,
            SideBet::BankerPair => self.banker_pair,
            SideBet::PlayerPair => self.player_pair,
            SideBet::PerfectPair => self.perfect_pair,
            SideBet::Big => self.big,
            SideBet::Small => self.small,
            SideBet::LuckySeven => self.lucky_seven[tier as usize],
            SideBet::SuperLuckySeven => self.super_lucky_seven[tier as usize],
            SideBet::LuckySix => self.lucky_six[tier as usize],
            SideBet::BankerDragonBonus => self.banker_dragon_bonus_tiers[tier as usize],
            SideBet::PlayerDragonBonus => self.player_dragon_bonus_tiers[tier as usize],
        }
    }

    /// The number of deals that return the stake of a bet.
    pub fn push_weight(self, bet: SideBet) -> (weight: u64)
        ensures
            weight == self.push(bet),
    {
        match bet {
            SideBet::BankerDragonBonus => self.banker_dragon_bonus_push,
            SideBet::PlayerDragonBonus => self.player_dragon_bonus_push,
            _ => 0,
        }
    }

    /// The deals of the player's two-card and three-card lucky seven.
    pub fn lucky_seven_tier_weights(self) -> (weights: [u64; 2])
        ensures
            forall|i: int|
                0 <= i < 2 ==> #[trigger] weights@[i] == self.tier(SideBet::LuckySeven, i),
    {
        self.lucky_seven
    }

    /// The deals of the super lucky seven with four, five and six cards.
    pub fn super_lucky_seven_tier_weights(self) -> (weights: [u64; 3])
        ensures
            forall|i: int|
                0 <= i < 3 ==> #[trigger] weights@[i] == self.tier(SideBet::SuperLuckySeven, i),
    {
        self.super_lucky_seven
    }

    /// The deals of the banker's two-card and three-card lucky six.
    pub fn lucky_six_tier_weights(self) -> (weights: [u64; 2])
        ensures
            forall|i: int| 0 <= i < 2 ==> #[trigger] weights@[i] == self.tier(SideBet::LuckySix, i),
    {
        self.lucky_six
    }

    /// The deals of the banker dragon bonus for the margins four to nine.
    pub fn banker_dragon_bonus_tier_weights(self) -> (weights: [u64; 6])
        ensures
            forall|i: int|
                0 <= i < 6 ==> #[trigger] weights@[i] == self.tier(SideBet::BankerDragonBonus, i),
    {
        self.banker_dragon_bonus_tiers
    }

    /// The deals of the player dragon bonus for the margins four to nine.
    pub fn player_dragon_bonus_tier_weights(self) -> (weights: [u64; 6])
        ensures
            forall|i: int|
                0 <= i < 6 ==> #[trigger] weights@[i] == self.tier(SideBet::PlayerDragonBonus, i),
    {
        self.player_dragon_bonus_tiers
    }

    /// The deals that return the stake of the banker dragon bonus.
    pub fn banker_dragon_bonus_push_weight(self) -> (weight: u64)
        ensures
            weight == self.push(SideBet::BankerDragonBonus),
    {
        self.banker_dragon_bonus_push
    }

    /// The deals that return the stake of the player dragon bonus.
    pub fn player_dragon_bonus_push_weight(self) -> (weight: u64)
        ensures
            weight == self.push(SideBet::PlayerDragonBonus),
    {
        self.player_dragon_bonus_push
    }
}

} // verus!
