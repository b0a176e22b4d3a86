//! The analysis of a player's first two cards.

use vstd::prelude::*;

use crate::baccarat::ev;
use crate::blackjack;
use crate::blackjack::solver;
use crate::blackjack::solver::{Odds, Solver, SplitRules};
use crate::blackjack::{
    choose_action, prepare_blackjack_hand, value_name, BlackjackAction, BlackjackActionEvs,
    BlackjackError, BlackjackRules, BlackjackSituation, HandState,
};
use crate::card::Card;
use crate::number;
use crate::number::Number;
use crate::scale::Scale;
use crate::shoe::{Shoe, ShoeView};

verus! {

/// What the player's options are worth.
#[derive(Debug, Clone, Copy, PartialEq, Eq)]
pub struct BlackjackAnalysis<E> {
    pub player_total: u8,
    /// Whether an ace counts eleven.
    pub player_soft: bool,
    pub player_blackjack: bool,
    /// Whether both cards have the same rank, so that they can be split.
    pub pair: bool,
    /// The name of the value of the dealer's open card.
    pub dealer_upcard: &'static str,
    /// The chance of a dealer's natural before the dealer looks for one.
    pub dealer_blackjack_probability_before_peek: E,
    /// Whether the values are those after the dealer has looked for a natural.
    pub conditional_on_no_dealer_blackjack: bool,
    /// The expected net profit of the insurance per unit of its stake, where it is offered.
    pub insurance_ev: Option<E>,
    pub actions: BlackjackActionEvs<E>,
    pub optimal_action: BlackjackAction,
    pub optimal_ev: E,
    /// Whether the value of a split takes its two hands as if they were dealt apart.
    pub split_ev_is_independent_hand_estimate: bool,
    pub rules: BlackjackRules<E>,
}

/// The unseen cards of each value.
pub open spec fn unseen(shoe: ShoeView) -> Seq<u16> {
    blackjack::value_stock(shoe).map_values(|n: nat| n as u16)
}

/// What the rules see of a hand of cards.
pub open spec fn hand_of(cards: Seq<Card>) -> HandState {
    HandState {
        hard_total: blackjack::hard_points(cards) as u8,
        aces: blackjack::ace_count(cards) as u8,
        cards: cards.len() as u8,
    }
}

/// What all actions have in common.
pub open spec fn odds_of<E: Number>(
    shoe: ShoeView,
    upcard: Card,
    rules: BlackjackRules<E>,
) -> Odds {
    let up = blackjack::value_of(upcard.rank);
    Odds {
        hits_soft_17: rules.dealer_hits_soft_17,
        upcard: up,
        root: unseen(shoe),
        allowed: Seq::new(10, |i: int| blackjack::hole_possible(up, i)),
    }
}

/// The chance of a dealer's natural before the dealer looks for one.
pub open spec fn natural_chance<E: Number>(shoe: ShoeView, upcard: Card) -> E {
    let up = blackjack::value_of(upcard.rank);
    let stock = blackjack::value_stock(shoe);
    if up == 0 {
        number::quotient(
            number::small::<E>(stock[9] as int),
            number::small::<E>(shoe.total() as int),
        )
    } else if up == 9 {
        number::quotient(
            number::small::<E>(stock[0] as int),
            number::small::<E>(shoe.total() as int),
        )
    } else {
        number::small::<E>(0)
    }
}

/// The values of the actions on a hand that is no natural.
pub open spec fn action_values<E: Number>(
    shoe: ShoeView,
    player: Seq<Card>,
    upcard: Card,
    rules: BlackjackRules<E>,
) -> BlackjackActionEvs<E> {
    let odds = odds_of(shoe, upcard, rules);
    let counts = unseen(shoe);
    let hand = hand_of(player);
    let value = blackjack::value_of(player[0].rank);
    BlackjackActionEvs {
        stand: Some(solver::stand_value(odds, counts, shoe.total(), hand)),
        hit: Some(solver::hit_sum(odds, counts, shoe.total(), hand, 10)),
        double: Some(solver::double_sum(odds, counts, shoe.total(), hand, 10)),
        split: if player[0].rank == player[1].rank {
            Some(
                solver::split_value(
                    odds,
                    SplitRules {
                        double_after_split: rules.double_after_split,
                        hit_split_aces: rules.hit_split_aces,
                    },
                    counts,
                    shoe.total(),
                    value,
                ),
            )
        } else {
            None
        },
        surrender: if rules.late_surrender {
            Some(
                number::difference(
                    number::small::<E>(0),
                    number::quotient(number::small::<E>(1), number::small::<E>(2)),
                ),
            )
        } else {
            None
        },
    }
}

/// By how much an action must be better than one before it: a millionth of a millionth.
pub open spec fn margin<E: Number>() -> E {
    number::quotient(number::small::<E>(1), number::whole::<E>(1_000_000_000_000))
}

/// Whether an analysis is that of a hand.
pub open spec fn is_analysis<E: Number>(
    analysis: BlackjackAnalysis<E>,
    shoe: ShoeView,
    player: Seq<Card>,
    upcard: Card,
    rules: BlackjackRules<E>,
) -> bool {
    let hand = hand_of(player);
    let up = blackjack::value_of(upcard.rank);
    let chance = natural_chance::<E>(shoe, upcard);
    let natural = hand.points() == 21;
    let values = action_values(shoe, player, upcard, rules);
    let best = blackjack::best_action(
        values.stand->0,
        values.hit->0,
        values.double->0,
        values.split,
        values.surrender,
        margin::<E>(),
    );
    &&& analysis.player_total == hand.points()
    &&& analysis.player_soft == hand.soft()
    &&& analysis.player_blackjack == natural
    &&& analysis.pair == (player[0].rank == player[1].rank)
    &&& analysis.dealer_upcard@ == blackjack::value_label(up)
    &&& analysis.dealer_blackjack_probability_before_peek == chance
    &&& analysis.conditional_on_no_dealer_blackjack == (up == 0 || up == 9)
    &&& analysis.insurance_ev == if up == 0 {
        Some(
            number::difference(
                number::product(number::small::<E>(3), chance),
                number::small::<E>(1),
            ),
        )
    } else {
        None
    }
    &&& analysis.rules == rules
    &&& if natural {
        &&& analysis.actions == (BlackjackActionEvs {
            stand: Some(rules.blackjack_payout),
            hit: None,
            double: None,
            split: None,
            surrender: None,
        })
        &&& analysis.optimal_action == BlackjackAction::Blackjack
        &&& analysis.optimal_ev == rules.blackjack_payout
        &&& !analysis.split_ev_is_independent_hand_estimate
    } else {
        &&& analysis.actions == values
        &&& (analysis.optimal_action, analysis.optimal_ev) == best
        &&& analysis.split_ev_is_independent_hand_estimate == analysis.pair
    }
}

proof fn lemma_two_cards(player: Seq<Card>)
    requires
        player.len() == 2,
    ensures
        2 <= blackjack::hard_points(player) <= 20,
        0 <= blackjack::ace_count(player) <= 2,
        hand_of(player).points() == 21 ==> hand_of(player).soft(),
        blackjack::ace_count(player) == 2 ==> blackjack::hard_points(player) == 2,
{
    reveal_with_fuel(blackjack::hard_points, 3);
    reveal_with_fuel(blackjack::ace_count, 3);
    let first = player.drop_last();
    assert(first.drop_last() =~= Seq::empty());
    assert(first.last() == player[0]);
}

/// Analyses the player's first two cards against the dealer's open card. The shoe no longer
/// holds these three cards.
pub fn analyze_blackjack_hand<E: Number>(
    scale: Scale<E>,
    shoe_after_visible_cards: &Shoe,
    player_cards: &[Card],
    dealer_upcard: Card,
    rules: BlackjackRules<E>,
) -> (result: Result<BlackjackAnalysis<E>, BlackjackError<E>>)
    requires
        number::arithmetic::<E>(),
    ensures
        match blackjack::hand_error(
            scale,
            shoe_after_visible_cards@,
            player_cards@,
            dealer_upcard,
            rules,
        ) {
            Some(error) => result == Err::<BlackjackAnalysis<E>, BlackjackError<E>>(error),
            None => result matches Ok(analysis) && is_analysis(
                analysis,
                shoe_after_visible_cards@,
                player_cards@,
                dealer_upcard,
                rules,
            ),
        },
{
    let situation: BlackjackSituation = match prepare_blackjack_hand(
        scale,
        shoe_after_visible_cards,
        player_cards,
        dealer_upcard,
        rules,
    ) {
        Ok(situation) => situation,
        Err(error) => {
            return Err(error);
        },
    };
    let ghost shoe = shoe_after_visible_cards@;
    let ghost odds = odds_of(shoe, dealer_upcard, rules);
    let counts: [u16; 10] = situation.counts;
    let player: HandState = situation.player;
    let remaining: u32 = situation.total_unseen as u32;
    proof {
        lemma_two_cards(player_cards@);
        let stock = blackjack::value_stock(shoe);
        assert(stock.len() == 10);
        assert forall|i: int| 0 <= i < 10 implies #[trigger] counts@[i] == unseen(shoe)[i] by {
            assert(counts@.map_values(|n: u16| n as nat)[i] == stock[i]);
        }
        assert(counts@ =~= unseen(shoe));
        assert(situation.allowed_holes@ =~= odds.allowed);
        assert(player == hand_of(player_cards@));
    }
    let zero: E = E::from(0u32);
    let one: E = E::from(1u32);
    let chance: E = if situation.conditional_on_no_dealer_blackjack {
        E::from(situation.blackjack_holes as u32) / E::from(remaining)
    } else {
        zero
    };
    let insurance_ev: Option<E> = if situation.insurance_offered {
        Some(E::from(3u32) * chance - one)
    } else {
        None
    };
    if player.is_blackjack() {
        return Ok(
            BlackjackAnalysis {
                player_total: 21,
                player_soft: true,
                player_blackjack: true,
                pair: situation.pair,
                dealer_upcard: value_name(situation.upcard),
                dealer_blackjack_probability_before_peek: chance,
                conditional_on_no_dealer_blackjack: situation.conditional_on_no_dealer_blackjack,
                insurance_ev,
                actions: BlackjackActionEvs {
                    stand: Some(rules.blackjack_payout),
                    hit: None,
                    double: None,
                    split: None,
                    surrender: None,
                },
                optimal_action: BlackjackAction::Blackjack,
                optimal_ev: rules.blackjack_payout,
                split_ev_is_independent_hand_estimate: false,
                rules,
            },
        );
    }
    let mut solver: Solver<E> = Solver::new(
        rules.dealer_hits_soft_17,
        situation.upcard,
        counts,
        situation.allowed_holes,
    );
    let stand: E = solver.stand_ev(counts, remaining, player);
    let hit: E = solver.hit_ev(counts, remaining, player);
    let double: E = solver.double_ev(counts, remaining, player);
    let split: Option<E> = if situation.pair {
        let split_rules: SplitRules = SplitRules {
            double_after_split: rules.double_after_split,
            hit_split_aces: rules.hit_split_aces,
        };
        Some(solver.split_estimate(split_rules, counts, remaining, situation.pair_value))
    } else {
        None
    };
    let surrender: Option<E> = if rules.late_surrender {
        Some(zero - one / E::from(2u32))
    } else {
        None
    };
    let margin: E = one / number::number_of::<E>(1_000_000_000_000);
    let (optimal_action, optimal_ev): (BlackjackAction, E) = choose_action(
        stand,
        hit,
        double,
        split,
        surrender,
        margin,
    );
    Ok(
        BlackjackAnalysis {
            player_total: player.total(),
            player_soft: player.is_soft(),
            player_blackjack: false,
            pair: situation.pair,
            dealer_upcard: value_name(situation.upcard),
            dealer_blackjack_probability_before_peek: chance,
            conditional_on_no_dealer_blackjack: situation.conditional_on_no_dealer_blackjack,
            insurance_ev,
            actions: BlackjackActionEvs {
                stand: Some(stand),
                hit: Some(hit),
                double: Some(double),
                split,
                surrender,
            },
            optimal_action,
            optimal_ev,
            split_ev_is_independent_hand_estimate: split.is_some(),
            rules,
        },
    )
}

impl BlackjackRules<u32> {
    /// The rules with the payout per unit of stake.
    pub open spec fn in_units<E: Number>(self) -> BlackjackRules<E> {
        BlackjackRules {
            dealer_hits_soft_17: self.dealer_hits_soft_17,
            blackjack_payout: ev::hundredths(self.blackjack_payout),
            late_surrender: self.late_surrender,
            double_after_split: self.double_after_split,
            max_split_hands: self.max_split_hands,
            resplit_aces: self.resplit_aces,
            hit_split_aces: self.hit_split_aces,
        }
    }

    /// Gives the rules with the payout per unit of stake.
    pub fn per_unit<E: Number>(self) -> (rules: BlackjackRules<E>)
        requires
            number::arithmetic::<E>(),
        ensures
            rules == self.in_units::<E>(),
    {
        BlackjackRules {
            dealer_hits_soft_17: self.dealer_hits_soft_17,
            blackjack_payout: ev::from_hundredths(self.blackjack_payout),
            late_surrender: self.late_surrender,
            double_after_split: self.double_after_split,
            max_split_hands: self.max_split_hands,
            resplit_aces: self.resplit_aces,
            hit_split_aces: self.hit_split_aces,
        }
    }
}

} // verus!
