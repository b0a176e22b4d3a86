//! Laws of the analysis of a hand: what is shown of the insurance, the surrender and each action,
//! and which action is the best.

use vstd::prelude::*;

use crate::blackjack;
use crate::blackjack::analysis;
use crate::blackjack::analysis::BlackjackAnalysis;
use crate::blackjack::laws;
use crate::blackjack::solver::SplitRules;
use crate::blackjack::{BlackjackAction, BlackjackActionEvs, BlackjackRules, HandState};
use crate::card::{Card, Rank};
use crate::counting;
use crate::exact;
use crate::exact::exact;
use crate::number;
use crate::number::Number;
use crate::order;
use crate::scale::Scale;
use crate::shoe;
use crate::shoe::ShoeView;

verus! {

proof fn lemma_unseen_cards(shoe: ShoeView, n: int)
    requires
        shoe.wf(),
        0 <= n <= 10,
    ensures
        laws::cards_below(analysis::unseen(shoe), n) == counting::sum_to(
            n as nat,
            |i: int| blackjack::value_stock(shoe)[i],
        ),
        forall|i: int|
            0 <= i < 10 ==> #[trigger] analysis::unseen(shoe)[i] == blackjack::value_stock(shoe)[i],
        blackjack::value_stock(shoe).len() == 10,
    decreases n,
{
    let stock = blackjack::value_stock(shoe);
    blackjack::lemma_value_stock(shoe);
    shoe::lemma_total_within_decks(shoe);
    assert forall|i: int| 0 <= i < 10 implies #[trigger] analysis::unseen(shoe)[i] == stock[i] by {
        counting::lemma_count_at_most_total(stock, i);
    }
    if n > 0 {
        lemma_unseen_cards(shoe, n - 1);
    }
}

proof fn lemma_some_hidden<E: Number>(
    shoe: ShoeView,
    upcard: Card,
    rules: BlackjackRules<E>,
    hole: int,
    n: int,
)
    requires
        shoe.wf(),
        0 <= hole < n <= 10,
        blackjack::hole_possible(blackjack::value_of(upcard.rank), hole),
        blackjack::value_stock(shoe)[hole] > 0,
    ensures
        laws::hidden_below(
            analysis::odds_of(shoe, upcard, rules),
            analysis::unseen(shoe),
            n,
        ) > 0,
    decreases n,
{
    let odds = analysis::odds_of(shoe, upcard, rules);
    lemma_unseen_cards(shoe, 10);
    if hole < n - 1 {
        lemma_some_hidden(shoe, upcard, rules, hole, n - 1);
    } else {
        lemma_hidden_not_negative(odds, analysis::unseen(shoe), n - 1);
    }
}

proof fn lemma_hidden_not_negative(odds: crate::blackjack::solver::Odds, counts: Seq<u16>, n: int)
    ensures
        laws::hidden_below(odds, counts, n) >= 0,
    decreases n,
{
    if n > 0 {
        lemma_hidden_not_negative(odds, counts, n - 1);
    }
}

/// A hand that can be analysed can be played: one unseen card can be hidden while another is
/// drawn.
pub proof fn lemma_an_accepted_hand_can_be_played<E: Number>(
    scale: Scale<E>,
    shoe: ShoeView,
    player: Seq<Card>,
    upcard: Card,
    rules: BlackjackRules<E>,
)
    requires
        shoe.wf(),
        blackjack::hand_error(scale, shoe, player, upcard, rules) is None,
    ensures
        laws::playable(
            analysis::odds_of(shoe, upcard, rules),
            analysis::unseen(shoe),
            shoe.total(),
        ),
{
    lemma_unseen_cards(shoe, 10);
    blackjack::lemma_value_stock(shoe);
    shoe::lemma_total_within_decks(shoe);
    let hole = choose|i: int|
        0 <= i < 10 && blackjack::hole_possible(blackjack::value_of(upcard.rank), i)
            && #[trigger] blackjack::value_stock(shoe)[i] > 0;
    lemma_some_hidden(shoe, upcard, rules, hole, 10);
    let odds = analysis::odds_of(shoe, upcard, rules);
    assert(0 <= blackjack::value_of(upcard.rank) < 10);
    assert(odds.admits(analysis::unseen(shoe)));
}

/// The dealer's natural is as likely as the unseen cards that would make it, and the insurance,
/// which pays two for one on it, is worth what that says. It is offered on an ace alone.
pub proof fn lemma_insurance_is_a_bet_on_the_hidden_card<E: Number>(
    value: spec_fn(E) -> real,
    scale: Scale<E>,
    shoe: ShoeView,
    player: Seq<Card>,
    upcard: Card,
    rules: BlackjackRules<E>,
    shown: BlackjackAnalysis<E>,
)
    requires
        exact(value),
        shoe.wf(),
        blackjack::hand_error(scale, shoe, player, upcard, rules) is None,
        analysis::is_analysis(shown, shoe, player, upcard, rules),
    ensures
        ({
            let all = shoe.total() as real;
            let stock = blackjack::value_stock(shoe);
            let up = blackjack::value_of(upcard.rank);
            let making = if up == 0 {
                stock[9] as real
            } else if up == 9 {
                stock[0] as real
            } else {
                0 as real
            };
            &&& value(shown.dealer_blackjack_probability_before_peek) * all == making
            &&& match shown.insurance_ev {
                Some(insurance) => up == 0 && value(insurance) * all == 2 as real * making - (all
                    - making),
                None => up != 0,
            }
        }),
{
    let all = shoe.total() as real;
    let stock = blackjack::value_stock(shoe);
    shoe::lemma_total_within_decks(shoe);
    lemma_unseen_cards(shoe, 10);
    blackjack::lemma_value_stock(shoe);
    counting::lemma_count_at_most_total(stock, 9);
    counting::lemma_count_at_most_total(stock, 0);
    let q = value(analysis::natural_chance::<E>(shoe, upcard));
    assert((0 as real) * all == 0 as real) by (nonlinear_arith);
    assert((3 as real * q - 1 as real) * all == 2 as real * (q * all) - (all - q * all))
        by (nonlinear_arith);
}

/// Surrendering, where it is allowed, loses half a stake.
pub proof fn lemma_surrender_loses_half_a_stake<E: Number>(
    value: spec_fn(E) -> real,
    shoe: ShoeView,
    player: Seq<Card>,
    upcard: Card,
    rules: BlackjackRules<E>,
    shown: BlackjackAnalysis<E>,
)
    requires
        exact(value),
        analysis::is_analysis(shown, shoe, player, upcard, rules),
    ensures
        match shown.actions.surrender {
            Some(worth) => rules.late_surrender && !shown.player_blackjack && value(worth) + value(
                worth,
            ) == -1 as real,
            None => !rules.late_surrender || shown.player_blackjack,
        },
{
    let half = number::quotient(number::small::<E>(1), number::small::<E>(2));
    assert(value(half) * 2 as real == 1 as real);
    assert(value(half) + value(half) == value(half) * 2 as real) by (nonlinear_arith);
}

/// What is shown of the actions on a hand that is no natural, as means over the cards that can
/// come: standing, drawing, doubling with two stakes, and splitting a pair of one rank into two
/// hands with a stake each.
pub proof fn lemma_actions_are_worth_their_means<E: Number>(
    value: spec_fn(E) -> real,
    scale: Scale<E>,
    shoe: ShoeView,
    player: Seq<Card>,
    upcard: Card,
    rules: BlackjackRules<E>,
    shown: BlackjackAnalysis<E>,
)
    requires
        exact(value),
        shoe.wf(),
        blackjack::hand_error(scale, shoe, player, upcard, rules) is None,
        analysis::is_analysis(shown, shoe, player, upcard, rules),
        !shown.player_blackjack,
    ensures
        ({
            let odds = analysis::odds_of(shoe, upcard, rules);
            let counts = analysis::unseen(shoe);
            let all = shoe.total();
            let hand = analysis::hand_of(player);
            let pairs = laws::pairs_of(odds, counts);
            let number = laws::all_pairs(odds, counts, all);
            let split_rules = SplitRules {
                double_after_split: rules.double_after_split,
                hit_split_aces: rules.hit_split_aces,
            };
            let one = laws::weighed(
                pairs,
                laws::one_split_hand(
                    value,
                    odds,
                    split_rules,
                    counts,
                    all,
                    blackjack::value_of(player[0].rank),
                ),
                10,
            );
            &&& number > 0 as real
            &&& shown.actions.stand matches Some(stand) && value(stand) * laws::hidden_below(
                odds,
                counts,
                10,
            ) as real == laws::weighed(
                laws::hidden_of(odds, counts),
                laws::stood_against(value, odds, counts, all, hand.points()),
                10,
            )
            &&& shown.actions.hit matches Some(hit) && value(hit) * number == laws::weighed(
                pairs,
                laws::played_on(value, odds, counts, all, hand),
                10,
            )
            &&& shown.actions.double matches Some(double) && value(double) * number == 2 as real
                * laws::weighed(pairs, laws::stood_after(value, odds, counts, all, hand), 10)
            &&& match shown.actions.split {
                Some(split) => player[0].rank == player[1].rank && value(split) * number == one
                    + one,
                None => player[0].rank != player[1].rank,
            }
        }),
{
    lemma_an_accepted_hand_can_be_played(scale, shoe, player, upcard, rules);
    let odds = analysis::odds_of(shoe, upcard, rules);
    let counts = analysis::unseen(shoe);
    let hand = analysis::hand_of(player);
    let split_rules = SplitRules {
        double_after_split: rules.double_after_split,
        hit_split_aces: rules.hit_split_aces,
    };
    laws::lemma_some_card_comes_next(odds, counts, shoe.total(), 1 as real);
    lemma_two_cards_are_not_bust(player);
    laws::lemma_standing_compares_with_the_dealer(value, odds, counts, shoe.total(), hand);
    laws::lemma_hitting_is_the_mean_over_next_cards(value, odds, counts, shoe.total(), hand);
    laws::lemma_doubling_counts_two_stakes(value, odds, counts, shoe.total(), hand);
    laws::lemma_a_split_is_two_hands(
        value,
        odds,
        split_rules,
        counts,
        shoe.total(),
        blackjack::value_of(player[0].rank),
    );
}

proof fn lemma_two_cards_are_not_bust(player: Seq<Card>)
    requires
        player.len() == 2,
    ensures
        analysis::hand_of(player).points() <= 21,
        analysis::hand_of(player).points() >= 4 || analysis::hand_of(player).aces > 0,
{
    reveal_with_fuel(blackjack::hard_points, 3);
    reveal_with_fuel(blackjack::ace_count, 3);
    let first = player.drop_last();
    assert(first.drop_last() =~= Seq::empty());
    assert(first.last() == player[0]);
}

/// What is shown for an action.
pub open spec fn shown_for<E>(
    actions: BlackjackActionEvs<E>,
    action: BlackjackAction,
) -> Option<E> {
    match action {
        BlackjackAction::Blackjack => actions.stand,
        BlackjackAction::Stand => actions.stand,
        BlackjackAction::Hit => actions.hit,
        BlackjackAction::Double => actions.double,
        BlackjackAction::Split => actions.split,
        BlackjackAction::Surrender => actions.surrender,
    }
}

/// The best action is possible and worth what is shown as the best value, and no possible action
/// is worth more, but for at most a millionth of a millionth.
pub proof fn lemma_no_action_is_better<E: Number>(
    value: spec_fn(E) -> real,
    shoe: ShoeView,
    player: Seq<Card>,
    upcard: Card,
    rules: BlackjackRules<E>,
    shown: BlackjackAnalysis<E>,
    other: BlackjackAction,
)
    requires
        exact(value),
        analysis::is_analysis(shown, shoe, player, upcard, rules),
    ensures
        shown_for(shown.actions, shown.optimal_action) == Some(shown.optimal_ev),
        shown.optimal_action == BlackjackAction::Blackjack <==> shown.player_blackjack,
        shown_for(shown.actions, other) matches Some(worth) ==> (value(worth) - value(
            shown.optimal_ev,
        )) * 1_000_000_000_000int as real <= 1 as real,
{
    exact::lemma_whole(value, 1_000_000_000_000);
    let margin = analysis::margin::<E>();
    let m = value(margin);
    let t = 1_000_000_000_000int as real;
    assert(m * t == 1 as real);
    exact::lemma_quotient_sign(m, t, 1 as real);
    if !shown.player_blackjack {
        let values = shown.actions;
        let first = (BlackjackAction::Stand, values.stand->0);
        let second = blackjack::better_action(first, BlackjackAction::Hit, values.hit, margin);
        let third = blackjack::better_action(
            second,
            BlackjackAction::Double,
            values.double,
            margin,
        );
        let fourth = blackjack::better_action(third, BlackjackAction::Split, values.split, margin);
        let fifth = blackjack::better_action(
            fourth,
            BlackjackAction::Surrender,
            values.surrender,
            margin,
        );
        lemma_better(value, first, BlackjackAction::Hit, values.hit, margin);
        lemma_better(value, second, BlackjackAction::Double, values.double, margin);
        lemma_better(value, third, BlackjackAction::Split, values.split, margin);
        lemma_better(value, fourth, BlackjackAction::Surrender, values.surrender, margin);
        assert(fifth == (shown.optimal_action, shown.optimal_ev));
        if let Some(worth) = shown_for(shown.actions, other) {
            let d = value(worth) - value(shown.optimal_ev);
            assert(d <= m);
            exact::lemma_scale_order(d, m, t);
            assert(d * t <= 1 as real);
        }
    } else {
        assert((0 as real) * t == 0 as real) by (nonlinear_arith);
        if let Some(worth) = shown_for(shown.actions, other) {
            assert(value(worth) - value(shown.optimal_ev) == 0 as real);
        }
    }
}

proof fn lemma_better<E: Number>(
    value: spec_fn(E) -> real,
    best: (BlackjackAction, E),
    action: BlackjackAction,
    ev: Option<E>,
    margin: E,
)
    requires
        exact(value),
        value(margin) > 0 as real,
    ensures
        ({
            let next = blackjack::better_action(best, action, ev, margin);
            &&& value(next.1) >= value(best.1)
            &&& ev matches Some(worth) ==> value(worth) <= value(next.1) + value(margin)
            &&& next == best || next.0 == action && ev == Some(next.1)
        }),
{
    if let Some(worth) = ev {
        let raised = number::sum(best.1, margin);
        assert(order::above(worth, raised) <==> value(worth) > value(raised));
    }
}

/// Once the dealer has looked, the hidden card can be any that makes no natural with the open one,
/// and no other.
pub proof fn lemma_the_hidden_card_makes_no_natural(upcard: int, value: int)
    requires
        0 <= upcard < 10,
        0 <= value < 10,
    ensures
        blackjack::hole_possible(upcard, value) <==> (HandState {
            hard_total: 0,
            aces: 0,
            cards: 0,
        }).drawn(upcard).drawn(value).points() != 21,
{
}

/// A card adds its points to a hand: an ace eleven where that keeps the hand within twenty-one, as
/// long as no other ace counts eleven; and an ace that counts eleven counts one again where the hand
/// would go over.
pub proof fn lemma_a_card_adds_its_points(hand: HandState, value: int)
    requires
        hand.hard_total <= 30,
        hand.aces <= 21,
        hand.cards <= 21,
        0 <= value < 10,
    ensures
        ({
            let after = hand.drawn(value);
            let added = after.points() - hand.points();
            &&& added == value + 1 || value == 0 && added == 11 || hand.soft() && !after.soft()
                && added == value + 1 - 10
            &&& hand.soft() && hand.points() + value + 1 <= 21 ==> added == value + 1
            &&& !hand.soft() && value > 0 && hand.aces == 0 ==> added == value + 1
            &&& value == 0 && hand.hard_total <= 10 && !hand.soft() ==> added == 11
            &&& after.points() <= 21 <==> hand.hard_total + value + 1 <= 21
        }),
{
}

/// Two cards are a natural exactly when one is an ace and the other counts ten. A natural is worth
/// its payout and nothing is done with it.
pub proof fn lemma_a_natural_is_worth_its_payout<E: Number>(
    shoe: ShoeView,
    player: Seq<Card>,
    upcard: Card,
    rules: BlackjackRules<E>,
    shown: BlackjackAnalysis<E>,
)
    requires
        analysis::is_analysis(shown, shoe, player, upcard, rules),
        player.len() == 2,
    ensures
        shown.player_blackjack <==> {
            ||| player[0].rank == Rank::Ace && counts_ten(player[1].rank)
            ||| player[1].rank == Rank::Ace && counts_ten(player[0].rank)
        },
        shown.player_blackjack ==> shown.optimal_ev == rules.blackjack_payout
            && shown.optimal_action == BlackjackAction::Blackjack && shown.actions.stand == Some(
            rules.blackjack_payout,
        ) && shown.actions.hit is None && shown.actions.double is None && shown.actions.split is None
            && shown.actions.surrender is None,
        shown.conditional_on_no_dealer_blackjack <==> upcard.rank == Rank::Ace || counts_ten(
            upcard.rank,
        ),
{
    reveal_with_fuel(blackjack::hard_points, 3);
    reveal_with_fuel(blackjack::ace_count, 3);
    assert(player.drop_last().last() == player[0]);
    assert(player.last() == player[1]);
}

/// Whether cards of a rank count ten.
pub open spec fn counts_ten(rank: Rank) -> bool {
    rank == Rank::Ten || rank == Rank::Jack || rank == Rank::Queen || rank == Rank::King
}

} // verus!
