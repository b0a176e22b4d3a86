//! Ordered six-card deals of a shoe, and the events that the weights count.

use vstd::prelude::*;

use crate::baccarat::probability::OutcomeWeightsView;
use crate::baccarat::round;
use crate::baccarat::round::RoundOutcome;
use crate::baccarat::side_bet;
use crate::baccarat::side_bet::{SideBet, SideBetWeights, SideVerdict};
use crate::card;
use crate::card::Card;
use crate::counting;
use crate::shoe;
use crate::shoe::ShoeView;

verus! {

/// The cards at a sequence of positions.
pub open spec fn cards_at(positions: Seq<int>) -> Seq<Card> {
    positions.map_values(|i: int| card::card_at(i))
}

/// The number of ordered deals of six physical cards whose cards are in an event.
///
/// A round uses the first four, five or six of the cards; the others complete the deal.
pub open spec fn deals(shoe: ShoeView, event: spec_fn(Seq<Card>) -> bool) -> nat {
    counting::ways(shoe.counts, 6, Seq::empty(), |s: Seq<int>| event(cards_at(s)))
}

/// The deals of rounds that a side wins, or that end in a tie.
pub open spec fn outcome_event(outcome: RoundOutcome) -> spec_fn(Seq<Card>) -> bool {
    |cards: Seq<Card>|
        round::winner(
            round::player_hand_of(cards).points(),
            round::banker_hand_of(cards).points(),
        ) == outcome
}

/// The deals of rounds that the banker wins with six points.
pub open spec fn banker_six_event() -> spec_fn(Seq<Card>) -> bool {
    |cards: Seq<Card>|
        round::winner(
            round::player_hand_of(cards).points(),
            round::banker_hand_of(cards).points(),
        ) == RoundOutcome::Banker && round::banker_hand_of(cards).points() == 6
}

/// The deals of rounds on which a side bet ends with a verdict.
pub open spec fn verdict_event(bet: SideBet, verdict: SideVerdict) -> spec_fn(Seq<Card>) -> bool {
    |cards: Seq<Card>|
        side_bet::side_verdict(bet, round::player_hand_of(cards), round::banker_hand_of(cards))
            == verdict
}

/// The weights of the main outcomes of a shoe.
pub open spec fn main_weights(shoe: ShoeView) -> OutcomeWeightsView {
    OutcomeWeightsView {
        player: deals(shoe, outcome_event(RoundOutcome::Player)),
        banker: deals(shoe, outcome_event(RoundOutcome::Banker)),
        tie: deals(shoe, outcome_event(RoundOutcome::Tie)),
        total: counting::falling(shoe.total(), 6),
        banker_win_on_six: deals(shoe, banker_six_event()),
    }
}

/// Whether weights are those of the side bets of a shoe: each tier and push is the number of
/// deals on which the bet is settled so.
pub open spec fn are_side_weights(weights: SideBetWeights, shoe: ShoeView) -> bool {
    &&& weights.denominator() == counting::falling(shoe.total(), 6)
    &&& forall|bet: SideBet, tier: int|
        0 <= tier < bet.tiers() ==> #[trigger] weights.tier(bet, tier) == deals(
            shoe,
            verdict_event(bet, SideVerdict::Tier(tier as u8)),
        )
    &&& forall|bet: SideBet| #[trigger]
        weights.push(bet) == deals(shoe, verdict_event(bet, SideVerdict::Push))
}

/// Sequences of card positions.
pub open spec fn in_deck() -> spec_fn(Seq<int>) -> bool {
    |s: Seq<int>| forall|k: int| 0 <= k < s.len() ==> 0 <= #[trigger] s[k] < 52
}

/// The cards of a shoe counted by points.
pub open spec fn point_stock(shoe: ShoeView) -> Seq<nat> {
    counting::gathered(shoe.counts, shoe::point_class(), 10)
}

/// The cards of a shoe counted by rank.
pub open spec fn rank_stock(shoe: ShoeView) -> Seq<nat> {
    counting::gathered(shoe.counts, shoe::rank_class(), 13)
}

/// The ranks of a list of cards.
pub open spec fn card_ranks(cards: Seq<Card>) -> Seq<int> {
    cards.map_values(|card: Card| card.rank.number())
}

/// An event that looks only at points can be counted with the shoe's point counts.
pub proof fn lemma_deals_by_points(
    shoe: ShoeView,
    event: spec_fn(Seq<Card>) -> bool,
    by_points: spec_fn(Seq<int>) -> bool,
)
    requires
        shoe.wf(),
        forall|cards: Seq<Card>|
            cards.len() == 6 ==> #[trigger] event(cards) == by_points(round::card_points(cards)),
    ensures
        deals(shoe, event) == counting::ways(point_stock(shoe), 6, Seq::empty(), by_points),
        counting::total(point_stock(shoe)) == shoe.total(),
{
    let class = shoe::point_class();
    let start = Seq::<int>::empty();
    let left = |s: Seq<int>| event(cards_at(s));
    let right = |s: Seq<int>| by_points(s.map_values(class));
    assert forall|s: Seq<int>| #[trigger] in_deck()(s) && s.len() == 6 implies left(s) == right(
        s,
    ) by {
        assert forall|k: int| 0 <= k < s.len() implies #[trigger] round::card_points(cards_at(s))[k]
            == s.map_values(class)[k] by {
            card::lemma_card_numbers_are_positions(s[k]);
        }
        assert(round::card_points(cards_at(s)) =~= s.map_values(class));
    }
    counting::lemma_ways_agree(shoe.counts, 6, start, left, right, in_deck());
    counting::lemma_ways_gathered(shoe.counts, 6, start, class, 10, by_points);
    assert(start.map_values(class) =~= start);
    counting::lemma_gathered_total(shoe.counts, class, 10);
}

/// An event that looks only at ranks can be counted with the shoe's rank counts.
pub proof fn lemma_deals_by_ranks(
    shoe: ShoeView,
    event: spec_fn(Seq<Card>) -> bool,
    by_ranks: spec_fn(Seq<int>) -> bool,
)
    requires
        shoe.wf(),
        forall|cards: Seq<Card>|
            cards.len() == 6 ==> #[trigger] event(cards) == by_ranks(card_ranks(cards)),
    ensures
        deals(shoe, event) == counting::ways(rank_stock(shoe), 6, Seq::empty(), by_ranks),
        counting::total(rank_stock(shoe)) == shoe.total(),
{
    let class = shoe::rank_class();
    let start = Seq::<int>::empty();
    let left = |s: Seq<int>| event(cards_at(s));
    let right = |s: Seq<int>| by_ranks(s.map_values(class));
    assert forall|s: Seq<int>| #[trigger] in_deck()(s) && s.len() == 6 implies left(s) == right(
        s,
    ) by {
        assert forall|k: int| 0 <= k < s.len() implies #[trigger] card_ranks(cards_at(s))[k]
            == s.map_values(class)[k] by {
            card::lemma_card_numbers_are_positions(s[k]);
        }
        assert(card_ranks(cards_at(s)) =~= s.map_values(class));
    }
    counting::lemma_ways_agree(shoe.counts, 6, start, left, right, in_deck());
    counting::lemma_ways_gathered(shoe.counts, 6, start, class, 13, by_ranks);
    assert(start.map_values(class) =~= start);
    counting::lemma_gathered_total(shoe.counts, class, 13);
}

} // verus!
