//! Main outcome weights by playing every concrete card.
//!
//! A direct count for small shoes: each path of cards is played until the round ends. The
//! point count gives the same weights for every shoe.

use vstd::prelude::*;

use crate::baccarat::deals;
use crate::baccarat::probability::{falling_factorial, OutcomeWeights, ProbabilityError};
use crate::baccarat::round;
use crate::baccarat::round::{resolve_round, RoundError, RoundOutcome};
use crate::card;
use crate::card::Card;
use crate::counting;
use crate::shoe;
use crate::shoe::{Shoe, ShoeView};

verus! {

/// The weights of the paths that have ended so far.
struct OutcomeAccumulator {
    player: u64,
    banker: u64,
    tie: u64,
    banker_win_on_six: u64,
}

/// What is counted.
enum Bucket {
    Won(RoundOutcome),
    BankerSix,
}

impl Bucket {
    /// The deals that are counted.
    spec fn event(self) -> spec_fn(Seq<Card>) -> bool {
        match self {
            Bucket::Won(outcome) => deals::outcome_event(outcome),
            Bucket::BankerSix => deals::banker_six_event(),
        }
    }
}

/// The largest weight that is allowed for.
const WEIGHT_LIMIT: u64 = 0x00ff_ffff_ffff_ffff;

impl OutcomeAccumulator {
    spec fn get(self, bucket: Bucket) -> nat {
        match bucket {
            Bucket::Won(RoundOutcome::Player) => self.player as nat,
            Bucket::Won(RoundOutcome::Banker) => self.banker as nat,
            Bucket::Won(RoundOutcome::Tie) => self.tie as nat,
            Bucket::BankerSix => self.banker_win_on_six as nat,
        }
    }

    /// Adds the weight of an ended path.
    fn count(&mut self, outcome: RoundOutcome, banker_total: u8, weight: u64)
        requires
            old(self).get(Bucket::Won(outcome)) + weight <= WEIGHT_LIMIT,
            outcome == RoundOutcome::Banker && banker_total == 6 ==> old(self).get(
                Bucket::BankerSix,
            ) + weight <= WEIGHT_LIMIT,
        ensures
            forall|o: Bucket| #[trigger]
                final(self).get(o) == old(self).get(o) + if o == Bucket::Won(outcome) || (o
                    == Bucket::BankerSix && outcome == RoundOutcome::Banker && banker_total == 6) {
                    weight as nat
                } else {
                    0
                },
    {
        match outcome {
            RoundOutcome::Player => {
                self.player = self.player + weight;
            },
            RoundOutcome::Banker => {
                self.banker = self.banker + weight;
                if banker_total == 6 {
                    self.banker_win_on_six = self.banker_win_on_six + weight;
                }
            },
            RoundOutcome::Tie => {
                self.tie = self.tie + weight;
            },
        }
    }
}

/// What is counted, on sequences of card positions.
spec fn position_event(bucket: Bucket) -> spec_fn(Seq<int>) -> bool {
    |s: Seq<int>| bucket.event()(deals::cards_at(s))
}

/// The six-card deals after the cards dealt so far that are counted.
spec fn deals_after(shoe: ShoeView, cards: Seq<Card>, bucket: Bucket) -> nat {
    counting::ways(
        shoe.counts,
        (6 - cards.len()) as nat,
        shoe::positions(cards),
        position_event(bucket),
    )
}

/// The sequences of positions that start with `prefix` and stay in the deck.
spec fn goes_on(prefix: Seq<int>) -> spec_fn(Seq<int>) -> bool {
    |s: Seq<int>|
        {
            &&& s.len() >= prefix.len()
            &&& forall|k: int| 0 <= k < s.len() ==> 0 <= #[trigger] s[k] < 52
            &&& forall|k: int| 0 <= k < prefix.len() ==> #[trigger] s[k] == prefix[k]
        }
}

/// Once a round has ended, every completion of the deal counts where the round does.
proof fn lemma_ended_round(shoe: ShoeView, cards: Seq<Card>, bucket: Bucket)
    requires
        shoe.wf(),
        cards.len() <= 6,
        round::dealing_error(round::card_points(cards)) is None,
    ensures
        deals_after(shoe, cards, bucket) == if bucket.event()(cards) {
            counting::falling(shoe.total(), (6 - cards.len()) as nat)
        } else {
            0
        },
{
    let prefix = shoe::positions(cards);
    let reach = goes_on(prefix);
    let event = position_event(bucket);
    let holds = bucket.event()(cards);
    let more = (6 - cards.len()) as nat;
    card::lemma_card_numbers_are_positions(0);
    assert forall|k: int| 0 <= k < prefix.len() implies 0 <= #[trigger] prefix[k] < 52 by {
        assert(prefix[k] == cards[k].number());
    }
    assert(reach(prefix));
    assert forall|s: Seq<int>, i: int| reach(s) && 0 <= i < shoe.counts.len() implies #[trigger] reach(
        s.push(i),
    ) by {
        assert forall|k: int| 0 <= k < prefix.len() implies #[trigger] s.push(i)[k] == prefix[k] by {
            assert(s[k] == prefix[k]);
        }
        assert forall|k: int| 0 <= k < s.push(i).len() implies 0 <= #[trigger] s.push(i)[k] < 52 by {
            if k < s.len() {
                assert(0 <= s[k] < 52);
            }
        }
    }
    assert forall|s: Seq<int>| #[trigger] reach(s) && s.len() == prefix.len() + more implies event(
        s,
    ) == holds by {
        let all = deals::cards_at(s);
        assert forall|k: int| 0 <= k < cards.len() implies #[trigger] all[k] == cards[k] by {
            assert(s[k] == prefix[k]);
            assert(card::card_at(cards[k].number()) == cards[k]);
        }
        let points = round::card_points(cards);
        let all_points = round::card_points(all);
        assert forall|k: int| 0 <= k < round::cards_used(points) implies #[trigger] points[k]
            == all_points[k] by {
            assert(all[k] == cards[k]);
        }
        round::lemma_round_looks_at_used_cards(points, all_points);
        round::lemma_card_round_is_point_round(cards);
        round::lemma_card_round_is_point_round(all);
    }
    if holds {
        counting::lemma_ways_of_all(shoe.counts, more, prefix, event, reach);
    } else {
        counting::lemma_ways_of_none(shoe.counts, more, prefix, event, reach);
    }
}

/// One step of the sum over the next card, scaled by the weight of the path.
proof fn lemma_next_card(shoe: ShoeView, cards: Seq<Card>, i: int, path: nat, bucket: Bucket)
    requires
        shoe.wf(),
        cards.len() < 6,
        0 <= i < 52,
    ensures
        ({
            let prefix = shoe::positions(cards);
            let event = position_event(bucket);
            let rest = (5 - cards.len()) as nat;
            let next = card::card_at(i);
            &&& path * counting::ways_below(shoe.counts, (i + 1) as nat, rest, prefix, event)
                == path * counting::ways_below(shoe.counts, i as nat, rest, prefix, event) + (path
                * shoe.counts[i]) * deals_after(shoe.without(next), cards.push(next), bucket)
            &&& path * counting::ways_below(shoe.counts, (i + 1) as nat, rest, prefix, event)
                <= path * deals_after(shoe, cards, bucket)
        }),
{
    let prefix = shoe::positions(cards);
    let event = position_event(bucket);
    let rest = (5 - cards.len()) as nat;
    let next = card::card_at(i);
    card::lemma_card_numbers_are_positions(i);
    counting::lemma_ways_below_at_most(shoe.counts, (i + 1) as nat, rest, prefix, event);
    assert(shoe::positions(cards.push(next)) =~= prefix.push(i));
    let below = counting::ways_below(shoe.counts, i as nat, rest, prefix, event);
    let deeper = deals_after(shoe.without(next), cards.push(next), bucket);
    let n = shoe.counts[i];
    assert(counting::branch(shoe.counts, i, rest, prefix, event) == n * deeper);
    let step = counting::ways_below(shoe.counts, (i + 1) as nat, rest, prefix, event);
    assert(step == below + n * deeper);
    assert(path * (below + n * deeper) == path * below + (path * n) * deeper) by (nonlinear_arith);
    let all = deals_after(shoe, cards, bucket);
    assert(path * step <= path * all) by (nonlinear_arith)
        requires
            step <= all,
    ;
}

proof fn lemma_path_grows(path: nat, copies: nat, length: nat)
    requires
        path <= counting::power(416, length),
        copies <= 416,
        length < 6,
    ensures
        path * copies <= counting::power(416, length + 1),
        path * copies <= WEIGHT_LIMIT,
{
    let a = counting::power(416, length);
    assert(path * copies <= 416 * a) by (nonlinear_arith)
        requires
            path <= a,
            copies <= 416,
    ;
    counting::lemma_power_grows(416, length + 1, 6);
    reveal_with_fuel(counting::power, 7);
}

proof fn lemma_completion_fits(path: nat, left: nat, length: nat)
    requires
        path <= counting::power(416, length),
        left <= 416,
        length <= 6,
    ensures
        counting::falling(left, (6 - length) as nat) <= WEIGHT_LIMIT,
        path * counting::falling(left, (6 - length) as nat) <= WEIGHT_LIMIT,
{
    let rest = (6 - length) as nat;
    counting::lemma_falling_at_most_power(left, 416, rest);
    counting::lemma_power_adds(416, length, rest);
    counting::lemma_power_grows(416, rest, 6);
    reveal_with_fuel(counting::power, 7);
    let a = counting::power(416, length);
    let b = counting::power(416, rest);
    let c = counting::falling(left, rest);
    assert(path * c <= a * b) by (nonlinear_arith)
        requires
            path <= a,
            c <= b,
    ;
}

/// Plays on from the cards dealt so far, which stand for `path` physical deals, and adds
/// every ended path to the accumulator.
fn enumerate_paths(
    shoe: &mut Shoe,
    cards: &mut Vec<Card>,
    path: u64,
    accumulator: &mut OutcomeAccumulator,
)
    requires
        old(shoe)@.wf(),
        old(cards)@.len() <= 6,
        old(shoe)@.total() + old(cards)@.len() >= 6,
        path <= counting::power(416, old(cards)@.len()),
        !(round::dealing_error(round::card_points(old(cards)@))
            == Some(RoundError::UnexpectedExtraCards)),
        forall|o: Bucket| #[trigger]
            old(accumulator).get(o) + path * deals_after(old(shoe)@, old(cards)@, o)
                <= WEIGHT_LIMIT,
    ensures
        final(shoe)@ == old(shoe)@,
        final(cards)@ == old(cards)@,
        forall|o: Bucket| #[trigger]
            final(accumulator).get(o) == old(accumulator).get(o) + path * deals_after(
                old(shoe)@,
                old(cards)@,
                o,
            ),
    decreases 6 - old(cards)@.len(), 1nat,
{
    let ghost start = *accumulator;
    let ghost stock = shoe@;
    let ghost hand = cards@;
    match resolve_round(cards.as_slice()) {
        Ok(result) => {
            let left: u16 = shoe.total_remaining();
            let missing: u8 = 6 - cards.len() as u8;
            proof {
                shoe::lemma_total_within_decks(stock);
                lemma_completion_fits(path as nat, left as nat, hand.len());
            }
            let completion: u64 = falling_factorial(left, missing);
            proof {
                lemma_ended_round(stock, hand, Bucket::Won(RoundOutcome::Player));
                lemma_ended_round(stock, hand, Bucket::Won(RoundOutcome::Banker));
                lemma_ended_round(stock, hand, Bucket::Won(RoundOutcome::Tie));
                lemma_ended_round(stock, hand, Bucket::BankerSix);
                assert(path * 0 == 0) by (nonlinear_arith);
                let o = Bucket::Won(result.won_by());
                assert(start.get(o) + path * deals_after(stock, hand, o) <= WEIGHT_LIMIT);
                assert(start.get(Bucket::BankerSix) + path * deals_after(
                    stock,
                    hand,
                    Bucket::BankerSix,
                ) <= WEIGHT_LIMIT);
            }
            accumulator.count(
                result.outcome(),
                result.banker_hand().total(),
                path * completion,
            );
        },
        Err(_) => {
            proof {
                round::lemma_cards_used(round::card_points(hand));
            }
            enumerate_next_card(shoe, cards, path, accumulator);
        },
    }
}

/// Plays on with every card that is left.
fn enumerate_next_card(
    shoe: &mut Shoe,
    cards: &mut Vec<Card>,
    path: u64,
    accumulator: &mut OutcomeAccumulator,
)
    requires
        old(shoe)@.wf(),
        old(cards)@.len() < 6,
        old(shoe)@.total() + old(cards)@.len() >= 6,
        path <= counting::power(416, old(cards)@.len()),
        round::dealing_error(round::card_points(old(cards)@)) is Some,
        !(round::dealing_error(round::card_points(old(cards)@))
            == Some(RoundError::UnexpectedExtraCards)),
        forall|o: Bucket| #[trigger]
            old(accumulator).get(o) + path * deals_after(old(shoe)@, old(cards)@, o)
                <= WEIGHT_LIMIT,
    ensures
        final(shoe)@ == old(shoe)@,
        final(cards)@ == old(cards)@,
        forall|o: Bucket| #[trigger]
            final(accumulator).get(o) == old(accumulator).get(o) + path * deals_after(
                old(shoe)@,
                old(cards)@,
                o,
            ),
    decreases 6 - old(cards)@.len(), 0nat,
{
    let ghost start = *accumulator;
    let ghost stock = shoe@;
    let ghost hand = cards@;
    let ghost rest = (5 - hand.len()) as nat;
    let ghost prefix = shoe::positions(hand);
    let mut i: usize = 0;
    proof {
        assert(path * 0 == 0) by (nonlinear_arith);
    }
    while i < 52
        invariant
            i <= 52,
            stock == old(shoe)@,
            hand == old(cards)@,
            start == *old(accumulator),
            shoe@ == stock,
            cards@ == hand,
            stock.wf(),
            hand.len() < 6,
            rest == 5 - hand.len(),
            prefix == shoe::positions(hand),
            stock.total() + hand.len() >= 6,
            path <= counting::power(416, hand.len()),
            round::dealing_error(round::card_points(hand)) is Some,
            !(round::dealing_error(round::card_points(hand))
                == Some(RoundError::UnexpectedExtraCards)),
            forall|o: Bucket| #[trigger]
                start.get(o) + path * deals_after(stock, hand, o) <= WEIGHT_LIMIT,
            forall|o: Bucket| #[trigger]
                accumulator.get(o) == start.get(o) + path * counting::ways_below(
                    stock.counts,
                    i as nat,
                    rest,
                    prefix,
                    position_event(o),
                ),
        decreases 52 - i,
    {
        let next: Card = Card::from_index(i);
        let copies: u8 = shoe.remaining(next);
        proof {
            lemma_next_card(stock, hand, i as int, path as nat, Bucket::Won(RoundOutcome::Player));
            lemma_next_card(stock, hand, i as int, path as nat, Bucket::Won(RoundOutcome::Banker));
            lemma_next_card(stock, hand, i as int, path as nat, Bucket::Won(RoundOutcome::Tie));
            lemma_next_card(stock, hand, i as int, path as nat, Bucket::BankerSix);
            assert(copies == stock.counts[i as int]);
        }
        if copies != 0 {
            proof {
                lemma_path_grows(path as nat, copies as nat, hand.len());
                counting::lemma_total_after_draw(stock.counts, i as int);
                lemma_one_more_card(hand, next);
                shoe::lemma_restore_undoes_remove(stock, next);
            }
            let ghost before = *accumulator;
            let removed: Result<(), crate::shoe::ShoeError> = shoe.remove(next);
            cards.push(next);
            proof {
                assert forall|o: Bucket| #[trigger]
                    accumulator.get(o) + (path * copies) * deals_after(
                        stock.without(next),
                        hand.push(next),
                        o,
                    ) <= WEIGHT_LIMIT by {
                    lemma_next_card(stock, hand, i as int, path as nat, o);
                    assert(start.get(o) + path * deals_after(stock, hand, o) <= WEIGHT_LIMIT);
                }
            }
            enumerate_paths(shoe, cards, path * copies as u64, accumulator);
            let _ = cards.pop();
            let restored: Result<(), crate::shoe::ShoeError> = shoe.restore(next);
            proof {
                assert(cards@ =~= hand);
                assert forall|o: Bucket| #[trigger]
                    accumulator.get(o) == start.get(o) + path * counting::ways_below(
                        stock.counts,
                        (i + 1) as nat,
                        rest,
                        prefix,
                        position_event(o),
                    ) by {
                    lemma_next_card(stock, hand, i as int, path as nat, o);
                    assert(before.get(o) == start.get(o) + path * counting::ways_below(
                        stock.counts,
                        i as nat,
                        rest,
                        prefix,
                        position_event(o),
                    ));
                }
            }
        } else {
            proof {
                assert forall|o: Bucket| #[trigger]
                    accumulator.get(o) == start.get(o) + path * counting::ways_below(
                        stock.counts,
                        (i + 1) as nat,
                        rest,
                        prefix,
                        position_event(o),
                    ) by {
                    lemma_next_card(stock, hand, i as int, path as nat, o);
                    let deeper = deals_after(stock.without(next), hand.push(next), o);
                    assert((path * 0) * deeper == 0) by (nonlinear_arith);
                }
            }
        }
        i += 1;
    }
}

/// A round that still needs a card does not have one too many after the next.
proof fn lemma_one_more_card(cards: Seq<Card>, next: Card)
    requires
        cards.len() < 6,
        round::dealing_error(round::card_points(cards)) is Some,
        !(round::dealing_error(round::card_points(cards))
            == Some(RoundError::UnexpectedExtraCards)),
    ensures
        !(round::dealing_error(round::card_points(cards.push(next)))
            == Some(RoundError::UnexpectedExtraCards)),
{
    let before = round::card_points(cards);
    let after = round::card_points(cards.push(next));
    assert(after =~= before.push(next.points()));
    if cards.len() >= 4 {
        assert(before[0] == after[0] && before[1] == after[1] && before[2] == after[2]
            && before[3] == after[3]);
        if cards.len() >= 5 {
            assert(before[4] == after[4]);
        }
    }
}

/// The weights of the main outcomes, by playing every concrete card.
pub fn enumerate_main_outcomes_by_card(shoe: &Shoe) -> (result: Result<
    OutcomeWeights,
    ProbabilityError,
>)
    ensures
        shoe@.wf(),
        match result {
            Ok(weights) => shoe@.total() >= 6 && weights@ == deals::main_weights(shoe@),
            Err(error) => shoe@.total() < 6 && error == (ProbabilityError::NotEnoughCards {
                remaining: shoe@.total() as u16,
            }),
        },
{
    let initial_total: u16 = shoe.total_remaining();
    if initial_total < 6 {
        return Err(ProbabilityError::NotEnoughCards { remaining: initial_total });
    }
    let mut working: Shoe = shoe.clone();
    let mut cards: Vec<Card> = Vec::with_capacity(6);
    let mut accumulator: OutcomeAccumulator = OutcomeAccumulator {
        player: 0,
        banker: 0,
        tie: 0,
        banker_win_on_six: 0,
    };
    proof {
        let stock = shoe@;
        shoe::lemma_total_within_decks(stock);
        lemma_completion_fits(1, stock.total(), 0);
        assert(shoe::positions(cards@) =~= Seq::<int>::empty());
        assert forall|o: Bucket| #[trigger]
            accumulator.get(o) + 1 * deals_after(stock, cards@, o) <= WEIGHT_LIMIT && deals_after(
                stock,
                cards@,
                o,
            ) == deals::deals(stock, o.event()) by {
            counting::lemma_ways_at_most(stock.counts, 6, Seq::empty(), position_event(o));
            assert(position_event(o) =~= (|s: Seq<int>| o.event()(deals::cards_at(s))));
        }
        crate::baccarat::point_enumerate::lemma_outcomes_make_up_the_deals(stock);
    }
    let ghost first = accumulator;
    enumerate_paths(&mut working, &mut cards, 1, &mut accumulator);
    proof {
        assert forall|o: Bucket| #[trigger] accumulator.get(o) == deals::deals(shoe@, o.event()) by {
            assert(first.get(o) == 0);
            assert(1 * deals_after(shoe@, Seq::empty(), o) == deals_after(shoe@, Seq::empty(), o))
                by (nonlinear_arith);
        }
        assert(accumulator.get(Bucket::Won(RoundOutcome::Player)) == accumulator.player);
        assert(accumulator.get(Bucket::Won(RoundOutcome::Banker)) == accumulator.banker);
        assert(accumulator.get(Bucket::Won(RoundOutcome::Tie)) == accumulator.tie);
        assert(accumulator.get(Bucket::BankerSix) == accumulator.banker_win_on_six);
    }
    OutcomeWeights::from_detailed_weights(
        initial_total,
        accumulator.player,
        accumulator.banker,
        accumulator.tie,
        accumulator.banker_win_on_six,
    )
}

} // verus!
