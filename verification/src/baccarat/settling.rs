//! Laws of the settlement of side bets.

use vstd::prelude::*;

use crate::baccarat::deals;
use crate::baccarat::hand::BaccaratHand;
use crate::baccarat::round;
use crate::baccarat::side_bet;
use crate::baccarat::side_bet::{Settlement, SideBet, SideBetRules, SideBetWeights, SideVerdict};
use crate::card::Card;
use crate::shoe::ShoeView;

verus! {

/// How a side bet is settled on two final hands.
pub open spec fn settlement<P: Copy>(
    rules: SideBetRules<P>,
    bet: SideBet,
    player: BaccaratHand,
    banker: BaccaratHand,
) -> Settlement<P> {
    rules.settled(bet, side_bet::side_verdict(bet, player, banker))
}

/// By how many points the side of a dragon bonus wins; less than nothing where it loses.
pub open spec fn margin(bet: SideBet, player: BaccaratHand, banker: BaccaratHand) -> int {
    if bet == SideBet::BankerDragonBonus {
        banker.points() - player.points()
    } else {
        player.points() - banker.points()
    }
}

/// Whether the side of a dragon bonus has eight or nine points with two cards.
pub open spec fn has_natural(bet: SideBet, player: BaccaratHand, banker: BaccaratHand) -> bool {
    if bet == SideBet::BankerDragonBonus {
        banker.third_card is None && banker.points() >= 8
    } else {
        player.third_card is None && player.points() >= 8
    }
}

/// A dragon bonus pays by the margin of its side: without a natural the entry for a margin from
/// four to nine, and nothing for a smaller one. A win with a natural, and a tie of two naturals,
/// return the stake; all else loses it.
pub proof fn lemma_dragon_bonus_pays_by_margin<P: Copy>(
    rules: SideBetRules<P>,
    bet: SideBet,
    player: BaccaratHand,
    banker: BaccaratHand,
)
    requires
        bet == SideBet::BankerDragonBonus || bet == SideBet::PlayerDragonBonus,
    ensures
        ({
            let m = margin(bet, player, banker);
            let settled = settlement(rules, bet, player, banker);
            let both = player.third_card is None && banker.third_card is None && player.points()
                >= 8 && banker.points() >= 8;
            &&& m <= 9
            &&& m > 0 && has_natural(bet, player, banker) ==> settled == Settlement::<P>::Push
            &&& m >= 4 && !has_natural(bet, player, banker) ==> settled == Settlement::Win(
                rules.dragon_bonus_by_margin@[m - 4],
            )
            &&& 0 < m < 4 && !has_natural(bet, player, banker) ==> settled
                == Settlement::<P>::Lose
            &&& m == 0 ==> settled == if both {
                Settlement::<P>::Push
            } else {
                Settlement::<P>::Lose
            }
            &&& m < 0 ==> settled == Settlement::<P>::Lose
        }),
{
    assert(0 <= player.points() <= 9 && 0 <= banker.points() <= 9);
}

/// Of two rounds that the side of a dragon bonus wins by four or more without a natural, the one
/// with the larger margin ends in the higher tier, and only equal margins end in the same one.
pub proof fn lemma_a_larger_margin_is_a_higher_tier(
    bet: SideBet,
    player: BaccaratHand,
    banker: BaccaratHand,
    other_player: BaccaratHand,
    other_banker: BaccaratHand,
)
    requires
        bet == SideBet::BankerDragonBonus || bet == SideBet::PlayerDragonBonus,
        margin(bet, player, banker) >= 4,
        margin(bet, other_player, other_banker) >= 4,
        !has_natural(bet, player, banker),
        !has_natural(bet, other_player, other_banker),
    ensures
        match (
            side_bet::side_verdict(bet, player, banker),
            side_bet::side_verdict(bet, other_player, other_banker),
        ) {
            (SideVerdict::Tier(one), SideVerdict::Tier(two)) => {
                &&& 0 <= one < 6 && 0 <= two < 6
                &&& two - one == margin(bet, other_player, other_banker) - margin(
                    bet,
                    player,
                    banker,
                )
            },
            _ => false,
        },
{
    assert(0 <= player.points() <= 9 && 0 <= banker.points() <= 9);
    assert(0 <= other_player.points() <= 9 && 0 <= other_banker.points() <= 9);
}

/// The two sides are treated alike: when the hands change places, so do the bets on a side.
pub proof fn lemma_sides_are_treated_alike(player: BaccaratHand, banker: BaccaratHand)
    ensures
        side_bet::side_verdict(SideBet::PlayerDragonBonus, player, banker)
            == side_bet::side_verdict(SideBet::BankerDragonBonus, banker, player),
        side_bet::side_verdict(SideBet::PlayerPair, player, banker) == side_bet::side_verdict(
            SideBet::BankerPair,
            banker,
            player,
        ),
        side_bet::side_verdict(SideBet::AnyPair, player, banker) == side_bet::side_verdict(
            SideBet::AnyPair,
            banker,
            player,
        ),
        side_bet::side_verdict(SideBet::PerfectPair, player, banker) == side_bet::side_verdict(
            SideBet::PerfectPair,
            banker,
            player,
        ),
        side_bet::side_verdict(SideBet::Big, player, banker) == side_bet::side_verdict(
            SideBet::Big,
            banker,
            player,
        ),
        side_bet::side_verdict(SideBet::Small, player, banker) == side_bet::side_verdict(
            SideBet::Small,
            banker,
            player,
        ),
{
}

/// The number of cards of a hand.
pub open spec fn cards(hand: BaccaratHand) -> int {
    if hand.third_card is Some {
        3
    } else {
        2
    }
}

/// A bet on the first two cards or on the number of cards wins its payout where they are what it
/// says, and loses otherwise: a pair has two cards of one rank, a perfect one two of the same
/// card, and exactly one of the bets on the number of cards wins.
pub proof fn lemma_card_bets_win_on_what_they_name<P: Copy>(
    rules: SideBetRules<P>,
    player: BaccaratHand,
    banker: BaccaratHand,
)
    ensures
        ({
            let player_pair = player.first_card.rank == player.second_card.rank;
            let banker_pair = banker.first_card.rank == banker.second_card.rank;
            let player_same = player_pair && player.first_card.suit == player.second_card.suit;
            let banker_same = banker_pair && banker.first_card.suit == banker.second_card.suit;
            let all = (if player.third_card is Some {
                3int
            } else {
                2int
            }) + (if banker.third_card is Some {
                3int
            } else {
                2int
            });
            let lost = Settlement::<P>::Lose;
            &&& settlement(rules, SideBet::PlayerPair, player, banker) == if player_pair {
                Settlement::Win(rules.player_pair)
            } else {
                lost
            }
            &&& settlement(rules, SideBet::BankerPair, player, banker) == if banker_pair {
                Settlement::Win(rules.banker_pair)
            } else {
                lost
            }
            &&& settlement(rules, SideBet::AnyPair, player, banker) == if player_pair
                || banker_pair {
                Settlement::Win(rules.any_pair)
            } else {
                lost
            }
            &&& settlement(rules, SideBet::PerfectPair, player, banker) == if player_same
                || banker_same {
                Settlement::Win(rules.perfect_pair)
            } else {
                lost
            }
            &&& settlement(rules, SideBet::Big, player, banker) == if all == 4 {
                lost
            } else {
                Settlement::Win(rules.big)
            }
            &&& settlement(rules, SideBet::Small, player, banker) == if all == 4 {
                Settlement::Win(rules.small)
            } else {
                lost
            }
        }),
{
}

/// The lucky bets win on a seven of the player or a six of the banker that wins the round, and
/// pay by the number of cards: the winner's own for the lucky seven and the lucky six, and those
/// of both for the super lucky seven, a seven against a six.
pub proof fn lemma_lucky_bets_pay_by_cards<P: Copy>(
    rules: SideBetRules<P>,
    player: BaccaratHand,
    banker: BaccaratHand,
)
    ensures
        ({
            let own = cards(player);
            let theirs = cards(banker);
            let lost = Settlement::<P>::Lose;
            &&& settlement(rules, SideBet::LuckySeven, player, banker) == if player.points() == 7
                && banker.points() < 7 {
                Settlement::Win(rules.lucky_seven@[own - 2])
            } else {
                lost
            }
            &&& settlement(rules, SideBet::LuckySix, player, banker) == if banker.points() == 6
                && player.points() < 6 {
                Settlement::Win(rules.lucky_six@[theirs - 2])
            } else {
                lost
            }
            &&& settlement(rules, SideBet::SuperLuckySeven, player, banker) == if player.points()
                == 7 && banker.points() == 6 {
                Settlement::Win(rules.super_lucky_seven@[own + theirs - 4])
            } else {
                lost
            }
        }),
{
}

/// The deals that win a dragon bonus in a tier are those that its side wins without a natural by
/// the margin of the tier; those that return its stake have naturals.
pub proof fn lemma_dragon_tiers_count_margins(
    shoe: ShoeView,
    weights: SideBetWeights,
    bet: SideBet,
    tier: int,
)
    requires
        deals::are_side_weights(weights, shoe),
        bet == SideBet::BankerDragonBonus || bet == SideBet::PlayerDragonBonus,
        0 <= tier < 6,
    ensures
        weights.tier(bet, tier) == deals::deals(
            shoe,
            |cards: Seq<Card>|
                margin(bet, round::player_hand_of(cards), round::banker_hand_of(cards)) == tier + 4
                    && !has_natural(
                    bet,
                    round::player_hand_of(cards),
                    round::banker_hand_of(cards),
                ),
        ),
{
    let won = |cards: Seq<Card>|
        margin(bet, round::player_hand_of(cards), round::banker_hand_of(cards)) == tier + 4
            && !has_natural(bet, round::player_hand_of(cards), round::banker_hand_of(cards));
    let event = deals::verdict_event(bet, SideVerdict::Tier(tier as u8));
    assert(weights.tier(bet, tier) == deals::deals(shoe, event));
    assert((|s: Seq<int>| won(deals::cards_at(s))) =~= (|s: Seq<int>| event(deals::cards_at(s))));
}

/// The payouts of the default table, in hundredths of the stake. Within a bet, more cards or a
/// larger margin pay more.
pub proof fn lemma_rarer_ends_pay_more()
    ensures
        ({
            let table = side_bet::macau_table();
            &&& table.any_pair == 500 && table.player_pair == 1100 && table.banker_pair == 1100
                && table.perfect_pair == 2500
            &&& table.big == 50 && table.small == 150
            &&& table.lucky_seven@ == seq![600u32, 1500]
            &&& table.super_lucky_seven@ == seq![3000u32, 4000, 10000]
            &&& table.lucky_six@ == seq![1200u32, 1800]
            &&& table.dragon_bonus_by_margin@ == seq![100u32, 200, 300, 500, 1000, 3000]
            &&& forall|i: int, j: int|
                0 <= i < j < 6 ==> #[trigger] table.dragon_bonus_by_margin@[i]
                    < #[trigger] table.dragon_bonus_by_margin@[j]
        }),
{
    let table = side_bet::macau_table();
    assert(table.lucky_seven@ =~= seq![600u32, 1500]);
    assert(table.super_lucky_seven@ =~= seq![3000u32, 4000, 10000]);
    assert(table.lucky_six@ =~= seq![1200u32, 1800]);
    assert(table.dragon_bonus_by_margin@ =~= seq![100u32, 200, 300, 500, 1000, 3000]);
}

} // verus!
