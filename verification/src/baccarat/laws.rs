//! Laws of the exact weights.

use vstd::prelude::*;

use crate::baccarat::deals;
use crate::baccarat::pairs;
use crate::baccarat::probability::OutcomeWeightsView;
use crate::baccarat::round;
use crate::baccarat::round::RoundOutcome;
use crate::baccarat::side_bet;
use crate::baccarat::side_bet::{SideBet, SideBetWeights, SideVerdict};
use crate::card::Card;
use crate::counting;
use crate::shoe::ShoeView;

verus! {

/// The deals of two disjoint events make up the deals of their union.
proof fn lemma_deals_split(
    shoe: ShoeView,
    whole: spec_fn(Seq<Card>) -> bool,
    left: spec_fn(Seq<Card>) -> bool,
    right: spec_fn(Seq<Card>) -> bool,
)
    requires
        forall|cards: Seq<Card>| #[trigger] whole(cards) == (left(cards) || right(cards)),
        forall|cards: Seq<Card>| !(#[trigger] left(cards) && right(cards)),
    ensures
        deals::deals(shoe, whole) == deals::deals(shoe, left) + deals::deals(shoe, right),
{
    counting::lemma_ways_split(
        shoe.counts,
        6,
        Seq::empty(),
        |s: Seq<int>| whole(deals::cards_at(s)),
        |s: Seq<int>| left(deals::cards_at(s)),
        |s: Seq<int>| right(deals::cards_at(s)),
    );
}

/// A smaller event has no more deals.
proof fn lemma_deals_subset(
    shoe: ShoeView,
    small: spec_fn(Seq<Card>) -> bool,
    large: spec_fn(Seq<Card>) -> bool,
)
    requires
        forall|cards: Seq<Card>| #[trigger] small(cards) ==> large(cards),
    ensures
        deals::deals(shoe, small) <= deals::deals(shoe, large),
{
    counting::lemma_ways_subset(
        shoe.counts,
        6,
        Seq::empty(),
        |s: Seq<int>| small(deals::cards_at(s)),
        |s: Seq<int>| large(deals::cards_at(s)),
    );
}

/// All deals.
proof fn lemma_deals_of_everything(shoe: ShoeView)
    ensures
        deals::deals(shoe, |cards: Seq<Card>| true) == counting::falling(shoe.total(), 6),
{
    let everything = |cards: Seq<Card>| true;
    counting::lemma_ways_of_everything(shoe.counts, 6, Seq::empty());
    assert((|s: Seq<int>| everything(deals::cards_at(s))) =~= (|s: Seq<int>| true));
}

/// The deals that win a bet in one of its first tiers.
spec fn tiers_below(bet: SideBet, n: int) -> spec_fn(Seq<Card>) -> bool {
    |cards: Seq<Card>|
        side_bet::side_verdict(
            bet,
            round::player_hand_of(cards),
            round::banker_hand_of(cards),
        ) matches SideVerdict::Tier(tier) && tier < n
}

proof fn lemma_tiers_add(shoe: ShoeView, bet: SideBet, n: int)
    requires
        0 <= n < 6,
    ensures
        deals::deals(shoe, tiers_below(bet, n + 1)) == deals::deals(shoe, tiers_below(bet, n))
            + deals::deals(shoe, deals::verdict_event(bet, SideVerdict::Tier(n as u8))),
        deals::deals(shoe, tiers_below(bet, 0)) == 0,
{
    lemma_deals_split(
        shoe,
        tiers_below(bet, n + 1),
        tiers_below(bet, n),
        deals::verdict_event(bet, SideVerdict::Tier(n as u8)),
    );
    let anything = |s: Seq<int>| true;
    counting::lemma_ways_of_none(
        shoe.counts,
        6,
        Seq::empty(),
        |s: Seq<int>| tiers_below(bet, 0)(deals::cards_at(s)),
        anything,
    );
}

/// A side bet wins, loses or pushes: the deals that win it in some tier and those that push
/// are no more than all deals. What is left over is lost.
pub proof fn lemma_wins_and_pushes_within_all(shoe: ShoeView, weights: SideBetWeights, bet: SideBet)
    requires
        shoe.wf(),
        deals::are_side_weights(weights, shoe),
    ensures
        weights.wins(bet) + weights.push(bet) + deals::deals(
            shoe,
            deals::verdict_event(bet, SideVerdict::Lose),
        ) == weights.denominator(),
        weights.wins(bet) + weights.push(bet) <= weights.denominator(),
        weights.wins(bet) <= u64::MAX,
{
    let n = bet.tiers();
    assert forall|t: int| 0 <= t < n implies #[trigger] weights.tier(bet, t) == deals::deals(
        shoe,
        deals::verdict_event(bet, SideVerdict::Tier(t as u8)),
    ) by {}
    lemma_tiers_add(shoe, bet, 0);
    lemma_tiers_add(shoe, bet, 1);
    lemma_tiers_add(shoe, bet, 2);
    lemma_tiers_add(shoe, bet, 3);
    lemma_tiers_add(shoe, bet, 4);
    lemma_tiers_add(shoe, bet, 5);
    assert(weights.wins(bet) == deals::deals(shoe, tiers_below(bet, n)));
    let push = deals::verdict_event(bet, SideVerdict::Push);
    let lose = deals::verdict_event(bet, SideVerdict::Lose);
    let returned = |cards: Seq<Card>| tiers_below(bet, n)(cards) || push(cards);
    let everything = |cards: Seq<Card>| true;
    lemma_deals_split(shoe, returned, tiers_below(bet, n), push);
    assert forall|cards: Seq<Card>| #[trigger] everything(cards) == (returned(cards) || lose(
        cards,
    )) by {
        lemma_tiers_are_all(bet, cards);
    }
    lemma_deals_split(shoe, everything, returned, lose);
    lemma_deals_of_everything(shoe);
    crate::shoe::lemma_total_within_decks(shoe);
    crate::baccarat::point_enumerate::lemma_falling_six_fits(shoe.total());
}

proof fn lemma_tiers_are_all(bet: SideBet, cards: Seq<Card>)
    ensures
        side_bet::side_verdict(
            bet,
            round::player_hand_of(cards),
            round::banker_hand_of(cards),
        ) matches SideVerdict::Tier(tier) ==> tier < bet.tiers(),
{
}

/// Every round is big or small, and none is both.
pub proof fn lemma_big_and_small_make_up_all(shoe: ShoeView, weights: SideBetWeights)
    requires
        shoe.wf(),
        deals::are_side_weights(weights, shoe),
    ensures
        weights.tier(SideBet::Big, 0) + weights.tier(SideBet::Small, 0) == weights.denominator(),
{
    let big = deals::verdict_event(SideBet::Big, SideVerdict::Tier(0));
    let small = deals::verdict_event(SideBet::Small, SideVerdict::Tier(0));
    let everything = |cards: Seq<Card>| true;
    lemma_deals_split(shoe, everything, big, small);
    lemma_deals_of_everything(shoe);
    assert(weights.tier(SideBet::Big, 0) == deals::deals(shoe, big));
    assert(weights.tier(SideBet::Small, 0) == deals::deals(shoe, small));
}

/// The banker and the player are as likely to be dealt a pair.
pub proof fn lemma_pairs_are_symmetric(shoe: ShoeView, weights: SideBetWeights)
    requires
        shoe.wf(),
        shoe.total() >= 6,
        deals::are_side_weights(weights, shoe),
    ensures
        weights.tier(SideBet::BankerPair, 0) == weights.tier(SideBet::PlayerPair, 0),
{
    pairs::lemma_pair_deals(shoe);
    pairs::lemma_player_match(deals::rank_stock(shoe));
    pairs::lemma_banker_match(deals::rank_stock(shoe));
    assert(weights.tier(SideBet::BankerPair, 0) == deals::deals(
        shoe,
        deals::verdict_event(SideBet::BankerPair, SideVerdict::Tier(0)),
    ));
    assert(weights.tier(SideBet::PlayerPair, 0) == deals::deals(
        shoe,
        deals::verdict_event(SideBet::PlayerPair, SideVerdict::Tier(0)),
    ));
}

/// Any pair is the union of the banker's and the player's pair: the deals with both are
/// counted once.
pub proof fn lemma_any_pair_is_the_union(shoe: ShoeView, weights: SideBetWeights)
    requires
        shoe.wf(),
        deals::are_side_weights(weights, shoe),
    ensures
        weights.tier(SideBet::AnyPair, 0) + deals::deals(
            shoe,
            |cards: Seq<Card>|
                side_bet::is_pair(round::player_hand_of(cards)) && side_bet::is_pair(
                    round::banker_hand_of(cards),
                ),
        ) == weights.tier(SideBet::BankerPair, 0) + weights.tier(SideBet::PlayerPair, 0),
        weights.tier(SideBet::AnyPair, 0) >= weights.tier(SideBet::BankerPair, 0),
        weights.tier(SideBet::AnyPair, 0) >= weights.tier(SideBet::PlayerPair, 0),
{
    let any = deals::verdict_event(SideBet::AnyPair, SideVerdict::Tier(0));
    let banker = deals::verdict_event(SideBet::BankerPair, SideVerdict::Tier(0));
    let player = deals::verdict_event(SideBet::PlayerPair, SideVerdict::Tier(0));
    let both = |cards: Seq<Card>|
        side_bet::is_pair(round::player_hand_of(cards)) && side_bet::is_pair(
            round::banker_hand_of(cards),
        );
    let player_only = |cards: Seq<Card>| player(cards) && !banker(cards);
    lemma_deals_split(shoe, any, banker, player_only);
    lemma_deals_split(shoe, player, both, player_only);
    lemma_deals_subset(shoe, player, any);
    assert(weights.tier(SideBet::AnyPair, 0) == deals::deals(shoe, any));
    assert(weights.tier(SideBet::BankerPair, 0) == deals::deals(shoe, banker));
    assert(weights.tier(SideBet::PlayerPair, 0) == deals::deals(shoe, player));
}

/// A perfect pair is a pair.
pub proof fn lemma_perfect_pair_is_a_pair(shoe: ShoeView, weights: SideBetWeights)
    requires
        shoe.wf(),
        deals::are_side_weights(weights, shoe),
    ensures
        weights.tier(SideBet::PerfectPair, 0) <= weights.tier(SideBet::AnyPair, 0),
{
    let any = deals::verdict_event(SideBet::AnyPair, SideVerdict::Tier(0));
    let perfect = deals::verdict_event(SideBet::PerfectPair, SideVerdict::Tier(0));
    lemma_deals_subset(shoe, perfect, any);
    assert(weights.tier(SideBet::AnyPair, 0) == deals::deals(shoe, any));
    assert(weights.tier(SideBet::PerfectPair, 0) == deals::deals(shoe, perfect));
}

/// A single deck holds no card twice, so it deals no perfect pair.
pub proof fn lemma_no_perfect_pair_in_one_deck(shoe: ShoeView, weights: SideBetWeights)
    requires
        shoe.wf(),
        shoe.total() >= 6,
        shoe.decks == 1,
        deals::are_side_weights(weights, shoe),
    ensures
        weights.tier(SideBet::PerfectPair, 0) == 0,
{
    pairs::lemma_pair_deals(shoe);
    pairs::lemma_any_match(shoe.counts);
    assert(pairs::pair_sum(shoe.counts) == 0) by {
        let f = |a: int| counting::falling(shoe.counts[a], 2);
        assert forall|a: int| 0 <= a < 52 implies #[trigger] f(a) == 0 by {
            assert(shoe.counts[a] <= 1);
            reveal_with_fuel(counting::falling, 3);
            let n = shoe.counts[a];
            assert(counting::falling(n, 2) == n * (counting::less(n, 1) * 1));
            assert(n * (0 * 1) == 0) by (nonlinear_arith);
        }
        counting::lemma_sum_zero(52, f);
    }
    let t = shoe.total();
    assert(0 * counting::falling((t - 2) as nat, 2) == 0) by (nonlinear_arith);
    assert(0 * counting::falling((t - 4) as nat, 2) == 0) by (nonlinear_arith);
    assert(weights.tier(SideBet::PerfectPair, 0) == deals::deals(
        shoe,
        deals::verdict_event(SideBet::PerfectPair, SideVerdict::Tier(0)),
    ));
}

/// The lucky six wins on exactly the deals that the banker wins with six.
pub proof fn lemma_lucky_six_is_a_banker_six(
    shoe: ShoeView,
    main: OutcomeWeightsView,
    weights: SideBetWeights,
)
    requires
        shoe.wf(),
        main == deals::main_weights(shoe),
        deals::are_side_weights(weights, shoe),
    ensures
        weights.wins(SideBet::LuckySix) == main.banker_win_on_six,
{
    let two = deals::verdict_event(SideBet::LuckySix, SideVerdict::Tier(0));
    let three = deals::verdict_event(SideBet::LuckySix, SideVerdict::Tier(1));
    lemma_deals_split(shoe, deals::banker_six_event(), two, three);
    assert(weights.tier(SideBet::LuckySix, 0) == deals::deals(shoe, two));
    assert(weights.tier(SideBet::LuckySix, 1) == deals::deals(shoe, three));
}

/// The super lucky seven wins only where the lucky seven does, and that only where the
/// player wins.
pub proof fn lemma_lucky_sevens_are_player_wins(
    shoe: ShoeView,
    main: OutcomeWeightsView,
    weights: SideBetWeights,
)
    requires
        shoe.wf(),
        main == deals::main_weights(shoe),
        deals::are_side_weights(weights, shoe),
    ensures
        weights.wins(SideBet::SuperLuckySeven) <= weights.wins(SideBet::LuckySeven)
            <= main.player,
{
    let seven = tiers_below(SideBet::LuckySeven, 2);
    let super_seven = tiers_below(SideBet::SuperLuckySeven, 3);
    lemma_tiers_add(shoe, SideBet::LuckySeven, 0);
    lemma_tiers_add(shoe, SideBet::LuckySeven, 1);
    lemma_tiers_add(shoe, SideBet::SuperLuckySeven, 0);
    lemma_tiers_add(shoe, SideBet::SuperLuckySeven, 1);
    lemma_tiers_add(shoe, SideBet::SuperLuckySeven, 2);
    assert forall|bet: SideBet, t: int| 0 <= t < bet.tiers() implies #[trigger] weights.tier(
        bet,
        t,
    ) == deals::deals(shoe, deals::verdict_event(bet, SideVerdict::Tier(t as u8))) by {}
    assert(weights.wins(SideBet::LuckySeven) == deals::deals(shoe, seven));
    assert(weights.wins(SideBet::SuperLuckySeven) == deals::deals(shoe, super_seven));
    lemma_deals_subset(shoe, super_seven, seven);
    lemma_deals_subset(shoe, seven, deals::outcome_event(RoundOutcome::Player));
}

/// The outcome on which a dragon bonus can win.
spec fn dragon_side(bet: SideBet) -> RoundOutcome {
    if bet == SideBet::BankerDragonBonus {
        RoundOutcome::Banker
    } else {
        RoundOutcome::Player
    }
}

/// A dragon bonus wins only where its side wins, and pushes only where its side wins or the round
/// is tied; and it pushes only on naturals, which end the round with four cards.
pub proof fn lemma_dragon_bonus_bounds(
    shoe: ShoeView,
    main: OutcomeWeightsView,
    weights: SideBetWeights,
    bet: SideBet,
)
    requires
        shoe.wf(),
        main == deals::main_weights(shoe),
        deals::are_side_weights(weights, shoe),
        bet == SideBet::BankerDragonBonus || bet == SideBet::PlayerDragonBonus,
    ensures
        weights.wins(bet) <= if bet == SideBet::BankerDragonBonus {
            main.banker
        } else {
            main.player
        },
        weights.push(bet) + weights.wins(bet) <= main.tie + if bet == SideBet::BankerDragonBonus {
            main.banker
        } else {
            main.player
        },
        weights.push(bet) <= weights.tier(SideBet::Small, 0),
{
    let won = tiers_below(bet, 6);
    let pushed = deals::verdict_event(bet, SideVerdict::Push);
    let side = deals::outcome_event(dragon_side(bet));
    let tie = deals::outcome_event(RoundOutcome::Tie);
    let small = deals::verdict_event(SideBet::Small, SideVerdict::Tier(0));
    lemma_tiers_add(shoe, bet, 0);
    lemma_tiers_add(shoe, bet, 1);
    lemma_tiers_add(shoe, bet, 2);
    lemma_tiers_add(shoe, bet, 3);
    lemma_tiers_add(shoe, bet, 4);
    lemma_tiers_add(shoe, bet, 5);
    assert forall|b: SideBet, t: int| 0 <= t < b.tiers() implies #[trigger] weights.tier(b, t)
        == deals::deals(shoe, deals::verdict_event(b, SideVerdict::Tier(t as u8))) by {}
    assert(weights.wins(bet) == deals::deals(shoe, won));
    assert(weights.push(bet) == deals::deals(shoe, pushed));
    lemma_deals_subset(shoe, won, side);
    let decided = |cards: Seq<Card>| won(cards) || pushed(cards);
    let side_or_tie = |cards: Seq<Card>| side(cards) || tie(cards);
    lemma_deals_split(shoe, decided, won, pushed);
    lemma_deals_split(shoe, side_or_tie, side, tie);
    lemma_deals_subset(shoe, decided, side_or_tie);
    let both = |cards: Seq<Card>| pushed(cards) && small(cards);
    counting::lemma_ways_agree(
        shoe.counts,
        6,
        Seq::empty(),
        |s: Seq<int>| pushed(deals::cards_at(s)),
        |s: Seq<int>| both(deals::cards_at(s)),
        deals::in_deck(),
    );
    lemma_deals_subset(shoe, both, small);
}

} // verus!
