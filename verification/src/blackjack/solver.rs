//! The expected value of every action against a dealer who has looked for a natural.
//!
//! The hidden card is not known, so it is weighed: each value it may have is as likely as the
//! cards that have come out since make it. A value is a number from 0, the aces, to 9, the cards
//! that count ten; counts are the unseen cards of each value, the hidden one among them.

use std::collections::HashMap;
use vstd::arithmetic::div_mod::{lemma_add_mod_noop, lemma_mul_mod_noop_left, lemma_small_mod};
use vstd::prelude::*;

use crate::baccarat::ev;
use crate::blackjack;
use crate::blackjack::{dealer_step, settle_against_dealer, DealerStep, HandState, Showdown};
use crate::number;
use crate::number::Number;
use crate::order;

verus! {

broadcast use vstd::std_specs::hash::group_hash_axioms;

/// What all actions in a situation have in common.
pub struct Odds {
    /// Whether the dealer draws to a soft seventeen.
    pub hits_soft_17: bool,
    /// The value of the dealer's open card.
    pub upcard: int,
    /// The unseen cards when the player has to act.
    pub root: Seq<u16>,
    /// Which values the hidden card can have.
    pub allowed: Seq<bool>,
}

impl Odds {
    /// Whether counts can come of the unseen cards.
    pub open spec fn admits(self, counts: Seq<u16>) -> bool {
        &&& counts.len() == 10
        &&& self.root.len() == 10
        &&& self.allowed.len() == 10
        &&& 0 <= self.upcard < 10
        &&& forall|v: int| 0 <= v < 10 ==> #[trigger] counts[v] <= self.root[v]
    }
}

/// A number multiplied by a count, the count less one, and so on.
pub open spec fn falling<E: Number>(start: E, available: int, removed: int) -> E
    decreases removed,
{
    if removed <= 0 {
        start
    } else {
        number::product(
            falling(start, available, removed - 1),
            number::small::<E>(available - (removed - 1)),
        )
    }
}

/// The number of ways in which the hidden card has a value and the cards of the first values
/// that have come out since came out.
pub open spec fn weigh<E: Number>(odds: Odds, counts: Seq<u16>, hole: int, n: int) -> E
    decreases n,
{
    if n <= 0 {
        number::small::<E>(odds.root[hole] as int)
    } else {
        falling(
            weigh(odds, counts, hole, n - 1),
            odds.root[n - 1] - if n - 1 == hole {
                1int
            } else {
                0int
            },
            odds.root[n - 1] - counts[n - 1],
        )
    }
}

/// Whether the hidden card can have a value.
pub open spec fn can_hide(odds: Odds, counts: Seq<u16>, hole: int) -> bool {
    odds.allowed[hole] && counts[hole] > 0
}

/// The weight of a value of the hidden card.
pub open spec fn hole_weight<E: Number>(odds: Odds, counts: Seq<u16>, hole: int) -> E {
    if can_hide(odds, counts, hole) {
        weigh(odds, counts, hole, 10)
    } else {
        number::small::<E>(0)
    }
}

/// The weights of the first values together.
pub open spec fn weight_sum<E: Number>(odds: Odds, counts: Seq<u16>, n: int) -> E
    decreases n,
{
    if n <= 0 {
        number::small::<E>(0)
    } else {
        number::sum(weight_sum(odds, counts, n - 1), hole_weight::<E>(odds, counts, n - 1))
    }
}

/// For the first values of the hidden card, the weight times the cards of a value that can then
/// be drawn.
pub open spec fn drawable<E: Number>(odds: Odds, counts: Seq<u16>, value: int, n: int) -> E
    decreases n,
{
    if n <= 0 {
        number::small::<E>(0)
    } else {
        let cards = if value == n - 1 && counts[value] > 0 {
            counts[value] - 1
        } else {
            counts[value] as int
        };
        number::sum(
            drawable(odds, counts, value, n - 1),
            number::product(hole_weight::<E>(odds, counts, n - 1), number::small::<E>(cards)),
        )
    }
}

/// The chance that the next card has a value. `remaining` cards are unseen.
pub open spec fn draw_chance<E: Number>(
    odds: Odds,
    counts: Seq<u16>,
    remaining: nat,
    value: int,
) -> E {
    let all = weight_sum::<E>(odds, counts, 10);
    if order::reaches(number::small::<E>(0), all) || remaining <= 1 {
        number::small::<E>(0)
    } else {
        number::quotient(
            drawable::<E>(odds, counts, value, 10),
            number::product(all, number::small::<E>(remaining - 1)),
        )
    }
}

/// The counts without one card of a value.
pub open spec fn without(counts: Seq<u16>, value: int) -> Seq<u16> {
    counts.update(value, (counts[value] - 1) as u16)
}

/// One card fewer.
pub open spec fn less(remaining: nat) -> nat {
    if remaining > 0 {
        (remaining - 1) as nat
    } else {
        0
    }
}

/// The chances of the dealer's ends where one of them is certain. The first is a bust, the others
/// are the totals from seventeen to twenty-one.
pub open spec fn certain<E: Number>(end: int) -> Seq<E> {
    Seq::new(
        6,
        |i: int|
            if i == end {
                number::small::<E>(1)
            } else {
                number::small::<E>(0)
            },
    )
}

/// The chances of the dealer's ends where none is possible.
pub open spec fn nowhere<E: Number>() -> Seq<E> {
    Seq::new(6, |i: int| number::small::<E>(0))
}

/// Chances with those of a branch, weighed by its chance, added.
pub open spec fn blend<E: Number>(before: Seq<E>, chance: E, branch: Seq<E>) -> Seq<E> {
    Seq::new(6, |i: int| number::sum(before[i], number::product(chance, branch[i])))
}

/// The chances of the dealer's ends from a hand on, with the hidden card turned up.
pub open spec fn dealer_ends<E: Number>(
    hits_soft_17: bool,
    counts: Seq<u16>,
    remaining: nat,
    hand: HandState,
) -> Seq<E>
    decreases remaining, 11int,
{
    match blackjack::dealer_rule(hand, hits_soft_17) {
        DealerStep::Bust => certain(0),
        DealerStep::Stand(total) => certain(total - 16),
        DealerStep::Draw => if remaining == 0 {
            certain(0)
        } else {
            dealer_draws(hits_soft_17, counts, remaining, hand, 10)
        },
    }
}

/// The chances of the dealer's ends when the next card has one of the first values.
pub open spec fn dealer_draws<E: Number>(
    hits_soft_17: bool,
    counts: Seq<u16>,
    remaining: nat,
    hand: HandState,
    n: int,
) -> Seq<E>
    decreases remaining, n,
{
    if n <= 0 || remaining == 0 {
        nowhere()
    } else {
        let before = dealer_draws(hits_soft_17, counts, remaining, hand, n - 1);
        if counts[n - 1] == 0 {
            before
        } else {
            blend(
                before,
                number::quotient(
                    number::small::<E>(counts[n - 1] as int),
                    number::small::<E>(remaining as int),
                ),
                dealer_ends(
                    hits_soft_17,
                    without(counts, n - 1),
                    (remaining - 1) as nat,
                    hand.drawn(n - 1),
                ),
            )
        }
    }
}

/// The net profit of a standing hand against the dealer's total.
pub open spec fn showdown_profit<E: Number>(player_total: int, dealer_total: int) -> E {
    if player_total > dealer_total {
        number::small::<E>(1)
    } else if player_total == dealer_total {
        number::small::<E>(0)
    } else {
        ev::minus_one()
    }
}

/// The expected net profit of a standing hand over a bust of the dealer and the first of the
/// totals from seventeen on.
pub open spec fn against<E: Number>(player_total: int, ends: Seq<E>, totals: int) -> E
    decreases totals,
{
    if totals <= 0 {
        ends[0]
    } else {
        number::sum(
            against(player_total, ends, totals - 1),
            number::product(ends[totals], showdown_profit::<E>(player_total, 16 + totals)),
        )
    }
}

/// The dealer's hand with the hidden card turned up.
pub open spec fn dealer_hand(odds: Odds, hole: int) -> HandState {
    (HandState { hard_total: 0, aces: 0, cards: 0 }).drawn(odds.upcard).drawn(hole)
}

/// The expected net profit of standing over the first values of the hidden card.
pub open spec fn stand_sum<E: Number>(
    odds: Odds,
    counts: Seq<u16>,
    remaining: nat,
    player: HandState,
    n: int,
) -> E
    decreases n,
{
    if n <= 0 {
        number::small::<E>(0)
    } else {
        let before = stand_sum::<E>(odds, counts, remaining, player, n - 1);
        if can_hide(odds, counts, n - 1) {
            let ends = dealer_ends::<E>(
                odds.hits_soft_17,
                without(counts, n - 1),
                less(remaining),
                dealer_hand(odds, n - 1),
            );
            number::sum(
                before,
                number::product(
                    number::quotient(
                        hole_weight::<E>(odds, counts, n - 1),
                        weight_sum::<E>(odds, counts, 10),
                    ),
                    against(player.points(), ends, 5),
                ),
            )
        } else {
            before
        }
    }
}

/// The expected net profit of standing.
pub open spec fn stand_value<E: Number>(
    odds: Odds,
    counts: Seq<u16>,
    remaining: nat,
    player: HandState,
) -> E {
    if player.points() > 21 || order::reaches(
        number::small::<E>(0),
        weight_sum::<E>(odds, counts, 10),
    ) {
        ev::minus_one()
    } else {
        stand_sum(odds, counts, remaining, player, 10)
    }
}

/// Whether the next card can have a value.
pub open spec fn can_draw<E: Number>(
    odds: Odds,
    counts: Seq<u16>,
    remaining: nat,
    value: int,
) -> bool {
    remaining > 0 && counts[value] > 0 && order::above(
        draw_chance::<E>(odds, counts, remaining, value),
        number::small::<E>(0),
    )
}

/// The expected net profit of drawing a card of one of the first values and playing on.
pub open spec fn hit_sum<E: Number>(
    odds: Odds,
    counts: Seq<u16>,
    remaining: nat,
    hand: HandState,
    n: int,
) -> E
    decreases remaining, n,
{
    if n <= 0 {
        number::small::<E>(0)
    } else {
        let before = hit_sum::<E>(odds, counts, remaining, hand, n - 1);
        if remaining > 0 && can_draw::<E>(odds, counts, remaining, n - 1) {
            let next = hand.drawn(n - 1);
            let value = if next.points() > 21 {
                ev::minus_one()
            } else {
                play_value(odds, without(counts, n - 1), (remaining - 1) as nat, next)
            };
            number::sum(
                before,
                number::product(draw_chance::<E>(odds, counts, remaining, n - 1), value),
            )
        } else {
            before
        }
    }
}

/// The expected net profit of the better of standing and drawing.
pub open spec fn play_value<E: Number>(
    odds: Odds,
    counts: Seq<u16>,
    remaining: nat,
    hand: HandState,
) -> E
    decreases remaining, 11int,
{
    let stand = stand_value::<E>(odds, counts, remaining, hand);
    if hand.points() >= 21 {
        stand
    } else {
        order::higher(stand, hit_sum(odds, counts, remaining, hand, 10))
    }
}

/// The expected net profit of doubling the stake and drawing one card of the first values.
pub open spec fn double_sum<E: Number>(
    odds: Odds,
    counts: Seq<u16>,
    remaining: nat,
    hand: HandState,
    n: int,
) -> E
    decreases n,
{
    if n <= 0 {
        number::small::<E>(0)
    } else {
        let before = double_sum::<E>(odds, counts, remaining, hand, n - 1);
        if can_draw::<E>(odds, counts, remaining, n - 1) {
            let next = hand.drawn(n - 1);
            let value = if next.points() > 21 {
                number::difference(number::small::<E>(0), number::small::<E>(2))
            } else {
                number::product(
                    number::small::<E>(2),
                    stand_value::<E>(odds, without(counts, n - 1), less(remaining), next),
                )
            };
            number::sum(
                before,
                number::product(draw_chance::<E>(odds, counts, remaining, n - 1), value),
            )
        } else {
            before
        }
    }
}

/// What may be done with the hands of a split pair.
#[derive(Debug, Clone, Copy, PartialEq, Eq)]
pub struct SplitRules {
    pub double_after_split: bool,
    pub hit_split_aces: bool,
}

/// The expected net profit of one hand of a split pair with its second card.
pub open spec fn split_hand_value<E: Number>(
    odds: Odds,
    rules: SplitRules,
    counts: Seq<u16>,
    remaining: nat,
    pair_value: int,
    hand: HandState,
) -> E {
    let stand = stand_value::<E>(odds, counts, remaining, hand);
    if pair_value != 0 || rules.hit_split_aces {
        let hit = order::higher(stand, hit_sum(odds, counts, remaining, hand, 10));
        if rules.double_after_split {
            order::higher(hit, double_sum(odds, counts, remaining, hand, 10))
        } else {
            hit
        }
    } else {
        stand
    }
}

/// The expected net profit of one hand of a split pair over the first values of its second card.
pub open spec fn split_sum<E: Number>(
    odds: Odds,
    rules: SplitRules,
    counts: Seq<u16>,
    remaining: nat,
    pair_value: int,
    n: int,
) -> E
    decreases n,
{
    if n <= 0 {
        number::small::<E>(0)
    } else {
        let before = split_sum::<E>(odds, rules, counts, remaining, pair_value, n - 1);
        if can_draw::<E>(odds, counts, remaining, n - 1) {
            let hand = (HandState { hard_total: 0, aces: 0, cards: 0 }).drawn(pair_value).drawn(
                n - 1,
            );
            number::sum(
                before,
                number::product(
                    draw_chance::<E>(odds, counts, remaining, n - 1),
                    split_hand_value::<E>(
                        odds,
                        rules,
                        without(counts, n - 1),
                        less(remaining),
                        pair_value,
                        hand,
                    ),
                ),
            )
        } else {
            before
        }
    }
}

/// The expected net profit of splitting a pair: twice that of one hand, as if the two hands did
/// not draw from the same cards.
pub open spec fn split_value<E: Number>(
    odds: Odds,
    rules: SplitRules,
    counts: Seq<u16>,
    remaining: nat,
    pair_value: int,
) -> E {
    number::product(
        number::small::<E>(2),
        split_sum::<E>(odds, rules, counts, remaining, pair_value, 10),
    )
}

/// Whether a hand has no more aces than cards and no more cards than points.
pub open spec fn tidy(hand: HandState) -> bool {
    hand.aces <= hand.cards <= hand.hard_total
}

/// The ends of the dealer from a hand on.
#[derive(Clone, Copy)]
struct DealerEntry<E> {
    counts: [u16; 10],
    remaining: u32,
    hand: HandState,
    ends: [E; 6],
}

/// The value of playing a hand on.
#[derive(Clone, Copy)]
struct PlayerEntry<E> {
    counts: [u16; 10],
    remaining: u32,
    hand: HandState,
    value: E,
}

/// The number whose digits, of nine bits each, are the first counts.
spec fn counts_number(counts: Seq<u16>, n: int) -> int
    decreases n,
{
    if n <= 0 {
        0
    } else {
        counts_number(counts, n - 1) * 512 + counts[n - 1]
    }
}

/// The number of the unseen cards of each value and a hand: the counts, then the points, aces
/// and cards of the hand in six bits each.
spec fn situation_number(counts: Seq<u16>, hand: HandState) -> int {
    ((counts_number(counts, 10) * 64 + hand.hard_total) * 64 + hand.aces) * 64 + hand.cards
}

/// The key of a number: its last 128 bits.
spec fn key_of(number: int) -> int {
    number % (u128::MAX + 1)
}

/// A key with one more digit is the key of the number with that digit.
proof fn lemma_key_digit(number: int, key: u128, base: u128, digit: u128)
    requires
        key == key_of(number),
    ensures
        key.wrapping_mul(base).wrapping_add(digit) == key_of(number * base + digit),
{
    let all: int = u128::MAX + 1;
    lemma_mul_mod_noop_left(number, base as int, all);
    lemma_add_mod_noop(number * base, digit as int, all);
    lemma_small_mod(digit as nat, all as nat);
}

/// The key that the values of a situation are kept under.
fn fingerprint(counts: &[u16; 10], hand: HandState) -> (key: u128)
    ensures
        key == key_of(situation_number(counts@, hand)),
{
    let mut key: u128 = 0;
    let mut i: usize = 0;
    while i < 10
        invariant
            i <= 10,
            key == key_of(counts_number(counts@, i as int)),
        decreases 10 - i,
    {
        proof {
            lemma_key_digit(
                counts_number(counts@, i as int),
                key,
                512,
                counts@[i as int] as u128,
            );
        }
        key = key.wrapping_mul(512).wrapping_add(counts[i] as u128);
        i = i + 1;
    }
    let ghost number = counts_number(counts@, 10);
    proof {
        lemma_key_digit(number, key, 64, hand.hard_total as u128);
    }
    key = key.wrapping_mul(64).wrapping_add(hand.hard_total as u128);
    proof {
        lemma_key_digit(number * 64 + hand.hard_total, key, 64, hand.aces as u128);
    }
    key = key.wrapping_mul(64).wrapping_add(hand.aces as u128);
    proof {
        lemma_key_digit(
            (number * 64 + hand.hard_total) * 64 + hand.aces,
            key,
            64,
            hand.cards as u128,
        );
    }
    key.wrapping_mul(64).wrapping_add(hand.cards as u128)
}

fn same_counts(a: &[u16; 10], b: &[u16; 10]) -> (same: bool)
    ensures
        same == (a@ == b@),
{
    let mut i: usize = 0;
    while i < 10
        invariant
            i <= 10,
            forall|j: int| 0 <= j < i ==> #[trigger] a@[j] == b@[j],
        decreases 10 - i,
    {
        if a[i] != b[i] {
            assert(a@[i as int] != b@[i as int]);
            return false;
        }
        i = i + 1;
    }
    assert(a@ =~= b@);
    true
}

fn same_hand(a: HandState, b: HandState) -> (same: bool)
    ensures
        same == (a == b),
{
    a.hard_total == b.hard_total && a.aces == b.aces && a.cards == b.cards
}

fn take(counts: &[u16; 10], value: usize) -> (rest: [u16; 10])
    requires
        value < 10,
        counts@[value as int] > 0,
    ensures
        rest@ == without(counts@, value as int),
{
    let mut rest: [u16; 10] = *counts;
    rest[value] = rest[value] - 1;
    assert(rest@ =~= without(counts@, value as int));
    rest
}

/// Computes expected values and keeps those that come up again.
pub struct Solver<E> {
    hits_soft_17: bool,
    upcard: usize,
    root: [u16; 10],
    allowed: [bool; 10],
    dealer_memo: HashMap<u128, DealerEntry<E>>,
    player_memo: HashMap<u128, PlayerEntry<E>>,
}

impl<E: Number> Solver<E> {
    /// What all actions have in common.
    pub closed spec fn odds(self) -> Odds {
        Odds {
            hits_soft_17: self.hits_soft_17,
            upcard: self.upcard as int,
            root: self.root@,
            allowed: self.allowed@,
        }
    }

    /// Every kept value is right.
    pub closed spec fn wf(self) -> bool {
        &&& self.upcard < 10
        &&& forall|k: u128| #[trigger]
            self.dealer_memo@.contains_key(k) ==> {
                let entry = self.dealer_memo@[k];
                entry.ends@ == dealer_ends::<E>(
                    self.hits_soft_17,
                    entry.counts@,
                    entry.remaining as nat,
                    entry.hand,
                )
            }
        &&& forall|k: u128| #[trigger]
            self.player_memo@.contains_key(k) ==> {
                let entry = self.player_memo@[k];
                entry.value == play_value::<E>(
                    self.odds(),
                    entry.counts@,
                    entry.remaining as nat,
                    entry.hand,
                )
            }
    }

    /// A solver that has computed nothing.
    pub fn new(hits_soft_17: bool, upcard: usize, root: [u16; 10], allowed: [bool; 10]) -> (solver:
        Solver<E>)
        requires
            upcard < 10,
        ensures
            solver.wf(),
            solver.odds() == (Odds {
                hits_soft_17,
                upcard: upcard as int,
                root: root@,
                allowed: allowed@,
            }),
    {
        Solver {
            hits_soft_17,
            upcard,
            root,
            allowed,
            dealer_memo: HashMap::new(),
            player_memo: HashMap::new(),
        }
    }

    fn hole_weight(&self, counts: &[u16; 10], hole: usize) -> (weight: E)
        requires
            number::arithmetic::<E>(),
            self.odds().admits(counts@),
            hole < 10,
        ensures
            weight == self::hole_weight::<E>(self.odds(), counts@, hole as int),
    {
        if !self.allowed[hole] || counts[hole] == 0 {
            return E::from(0u32);
        }
        let ghost odds = self.odds();
        let mut weight: E = E::from(self.root[hole] as u32);
        let mut value: usize = 0;
        while value < 10
            invariant
                number::arithmetic::<E>(),
                value <= 10,
                hole < 10,
                odds == self.odds(),
                odds.admits(counts@),
                counts@[hole as int] > 0,
                weight == weigh::<E>(odds, counts@, hole as int, value as int),
            decreases 10 - value,
        {
            proof {
                assert(counts@[value as int] <= odds.root[value as int]);
            }
            let removed: u16 = self.root[value] - counts[value];
            let available: u16 = if value == hole {
                self.root[value] - 1
            } else {
                self.root[value]
            };
            let ghost start = weight;
            let mut k: u16 = 0;
            while k < removed
                invariant
                    number::arithmetic::<E>(),
                    k <= removed <= available,
                    weight == falling::<E>(start, available as int, k as int),
                decreases removed - k,
            {
                weight = weight * E::from((available - k) as u32);
                k = k + 1;
            }
            value = value + 1;
        }
        weight
    }

    fn hole_weights(&self, counts: &[u16; 10]) -> (weights: [E; 10])
        requires
            number::arithmetic::<E>(),
            self.odds().admits(counts@),
        ensures
            forall|hole: int|
                0 <= hole < 10 ==> #[trigger] weights@[hole] == self::hole_weight::<E>(
                    self.odds(),
                    counts@,
                    hole,
                ),
    {
        let mut weights: [E; 10] = [E::from(0u32);10];
        let mut hole: usize = 0;
        while hole < 10
            invariant
                number::arithmetic::<E>(),
                hole <= 10,
                self.odds().admits(counts@),
                forall|h: int|
                    0 <= h < hole ==> #[trigger] weights@[h] == self::hole_weight::<E>(
                        self.odds(),
                        counts@,
                        h,
                    ),
            decreases 10 - hole,
        {
            weights[hole] = self.hole_weight(counts, hole);
            hole = hole + 1;
        }
        weights
    }

    fn total_weight(&self, counts: &[u16; 10], weights: &[E; 10]) -> (total: E)
        requires
            number::arithmetic::<E>(),
            forall|hole: int|
                0 <= hole < 10 ==> #[trigger] weights@[hole] == self::hole_weight::<E>(
                    self.odds(),
                    counts@,
                    hole,
                ),
        ensures
            total == weight_sum::<E>(self.odds(), counts@, 10),
    {
        let mut total: E = E::from(0u32);
        let mut hole: usize = 0;
        while hole < 10
            invariant
                number::arithmetic::<E>(),
                hole <= 10,
                forall|h: int|
                    0 <= h < 10 ==> #[trigger] weights@[h] == self::hole_weight::<E>(
                        self.odds(),
                        counts@,
                        h,
                    ),
                total == weight_sum::<E>(self.odds(), counts@, hole as int),
            decreases 10 - hole,
        {
            total = total + weights[hole];
            hole = hole + 1;
        }
        total
    }

    fn draw_chances(&self, counts: &[u16; 10], remaining: u32) -> (chances: [E; 10])
        requires
            number::arithmetic::<E>(),
            self.odds().admits(counts@),
        ensures
            forall|value: int|
                0 <= value < 10 ==> #[trigger] chances@[value] == draw_chance::<E>(
                    self.odds(),
                    counts@,
                    remaining as nat,
                    value,
                ),
    {
        let weights: [E; 10] = self.hole_weights(counts);
        let all: E = self.total_weight(counts, &weights);
        let zero: E = E::from(0u32);
        let mut chances: [E; 10] = [zero;10];
        if order::has_reached(zero, all) || remaining <= 1 {
            return chances;
        }
        let cards: E = E::from(remaining - 1);
        let mut value: usize = 0;
        while value < 10
            invariant
                number::arithmetic::<E>(),
                value <= 10,
                remaining > 1,
                zero == number::small::<E>(0),
                all == weight_sum::<E>(self.odds(), counts@, 10),
                !order::reaches(zero, all),
                cards == number::small::<E>(remaining - 1),
                forall|h: int|
                    0 <= h < 10 ==> #[trigger] weights@[h] == self::hole_weight::<E>(
                        self.odds(),
                        counts@,
                        h,
                    ),
                forall|v: int|
                    0 <= v < value ==> #[trigger] chances@[v] == draw_chance::<E>(
                        self.odds(),
                        counts@,
                        remaining as nat,
                        v,
                    ),
            decreases 10 - value,
        {
            let mut ways: E = zero;
            let mut hole: usize = 0;
            while hole < 10
                invariant
                    number::arithmetic::<E>(),
                    hole <= 10,
                    value < 10,
                    forall|h: int|
                        0 <= h < 10 ==> #[trigger] weights@[h] == self::hole_weight::<E>(
                            self.odds(),
                            counts@,
                            h,
                        ),
                    ways == drawable::<E>(self.odds(), counts@, value as int, hole as int),
                decreases 10 - hole,
            {
                let free: u16 = if value == hole && counts[value] > 0 {
                    counts[value] - 1
                } else {
                    counts[value]
                };
                ways = ways + weights[hole] * E::from(free as u32);
                hole = hole + 1;
            }
            chances[value] = ways / (all * cards);
            value = value + 1;
        }
        chances
    }

    /// The chances of the dealer's ends from a hand on.
    fn dealer_distribution(&mut self, counts: [u16; 10], remaining: u32, hand: HandState) -> (ends:
        [E; 6])
        requires
            number::arithmetic::<E>(),
            old(self).wf(),
            tidy(hand),
        ensures
            final(self).wf(),
            final(self).odds() == old(self).odds(),
            ends@ == dealer_ends::<E>(
                old(self).odds().hits_soft_17,
                counts@,
                remaining as nat,
                hand,
            ),
        decreases remaining,
    {
        let zero: E = E::from(0u32);
        let one: E = E::from(1u32);
        let mut ends: [E; 6] = [zero;6];
        match dealer_step(hand, self.hits_soft_17) {
            DealerStep::Bust => {
                ends[0] = one;
                assert(ends@ =~= certain::<E>(0));
                return ends;
            },
            DealerStep::Stand(total) => {
                ends[(total - 16) as usize] = one;
                assert(ends@ =~= certain::<E>(total - 16));
                return ends;
            },
            DealerStep::Draw => {},
        }
        if remaining == 0 {
            ends[0] = one;
            assert(ends@ =~= certain::<E>(0));
            return ends;
        }
        let key: u128 = fingerprint(&counts, hand);
        if let Some(entry) = self.dealer_memo.get(&key) {
            if entry.remaining == remaining && same_hand(entry.hand, hand) && same_counts(
                &entry.counts,
                &counts,
            ) {
                return entry.ends;
            }
        }
        let hits: bool = self.hits_soft_17;
        let all: E = E::from(remaining);
        let mut value: usize = 0;
        assert(ends@ =~= nowhere::<E>());
        while value < 10
            invariant
                number::arithmetic::<E>(),
                self.wf(),
                self.odds() == old(self).odds(),
                hits == self.hits_soft_17,
                tidy(hand),
                hand.hard_total <= 21,
                remaining > 0,
                value <= 10,
                all == number::small::<E>(remaining as int),
                ends@ == dealer_draws::<E>(
                    hits,
                    counts@,
                    remaining as nat,
                    hand,
                    value as int,
                ),
            decreases 10 - value,
        {
            if counts[value] > 0 {
                let chance: E = E::from(counts[value] as u32) / all;
                let branch: [E; 6] = self.dealer_distribution(
                    take(&counts, value),
                    remaining - 1,
                    hand.add_value(value),
                );
                let ghost before = ends@;
                let mut i: usize = 0;
                while i < 6
                    invariant
                        number::arithmetic::<E>(),
                        i <= 6,
                        before.len() == 6,
                        forall|j: int|
                            0 <= j < i ==> #[trigger] ends@[j] == number::sum(
                                before[j],
                                number::product(chance, branch@[j]),
                            ),
                        forall|j: int| i <= j < 6 ==> #[trigger] ends@[j] == before[j],
                    decreases 6 - i,
                {
                    ends[i] = ends[i] + chance * branch[i];
                    i = i + 1;
                }
                assert(ends@ =~= blend(before, chance, branch@));
            }
            value = value + 1;
        }
        self.dealer_memo.insert(key, DealerEntry { counts, remaining, hand, ends });
        ends
    }

    /// The expected net profit of standing.
    pub fn stand_ev(&mut self, counts: [u16; 10], remaining: u32, player: HandState) -> (value: E)
        requires
            number::arithmetic::<E>(),
            old(self).wf(),
            old(self).odds().admits(counts@),
        ensures
            final(self).wf(),
            final(self).odds() == old(self).odds(),
            value == stand_value::<E>(old(self).odds(), counts@, remaining as nat, player),
    {
        let zero: E = E::from(0u32);
        let one: E = E::from(1u32);
        if player.is_bust() {
            return zero - one;
        }
        let weights: [E; 10] = self.hole_weights(&counts);
        let all: E = self.total_weight(&counts, &weights);
        if order::has_reached(zero, all) {
            return zero - one;
        }
        let rest: u32 = if remaining > 0 {
            remaining - 1
        } else {
            0
        };
        let total: u8 = player.total();
        let ghost odds = self.odds();
        let mut expected: E = zero;
        let mut hole: usize = 0;
        while hole < 10
            invariant
                number::arithmetic::<E>(),
                self.wf(),
                self.odds() == odds,
                odds.admits(counts@),
                hole <= 10,
                zero == number::small::<E>(0),
                one == number::small::<E>(1),
                rest == less(remaining as nat),
                total == player.points(),
                all == weight_sum::<E>(odds, counts@, 10),
                forall|h: int|
                    0 <= h < 10 ==> #[trigger] weights@[h] == self::hole_weight::<E>(
                        odds,
                        counts@,
                        h,
                    ),
                expected == stand_sum::<E>(
                    odds,
                    counts@,
                    remaining as nat,
                    player,
                    hole as int,
                ),
            decreases 10 - hole,
        {
            if self.allowed[hole] && counts[hole] > 0 {
                let dealer: HandState = HandState::from_value(self.upcard).add_value(hole);
                let ends: [E; 6] = self.dealer_distribution(take(&counts, hole), rest, dealer);
                let mut settled: E = ends[0];
                let mut k: u8 = 0;
                while k < 5
                    invariant
                        number::arithmetic::<E>(),
                        k <= 5,
                        zero == number::small::<E>(0),
                        one == number::small::<E>(1),
                        total == player.points(),
                        settled == against::<E>(player.points(), ends@, k as int),
                    decreases 5 - k,
                {
                    let profit: E = match settle_against_dealer(total, 17 + k) {
                        Showdown::Win => one,
                        Showdown::Push => zero,
                        Showdown::Lose => zero - one,
                    };
                    settled = settled + ends[k as usize + 1] * profit;
                    k = k + 1;
                }
                expected = expected + weights[hole] / all * settled;
            }
            hole = hole + 1;
        }
        expected
    }

    /// The expected net profit of drawing a card and playing on.
    pub fn hit_ev(&mut self, counts: [u16; 10], remaining: u32, hand: HandState) -> (value: E)
        requires
            number::arithmetic::<E>(),
            old(self).wf(),
            old(self).odds().admits(counts@),
            tidy(hand),
            hand.hard_total <= 40,
        ensures
            final(self).wf(),
            final(self).odds() == old(self).odds(),
            value == hit_sum::<E>(old(self).odds(), counts@, remaining as nat, hand, 10),
        decreases remaining, 0int,
    {
        let chances: [E; 10] = self.draw_chances(&counts, remaining);
        let zero: E = E::from(0u32);
        let one: E = E::from(1u32);
        let ghost odds = self.odds();
        let mut expected: E = zero;
        let mut value: usize = 0;
        while value < 10
            invariant
                number::arithmetic::<E>(),
                self.wf(),
                self.odds() == odds,
                odds.admits(counts@),
                tidy(hand),
                hand.hard_total <= 40,
                value <= 10,
                zero == number::small::<E>(0),
                one == number::small::<E>(1),
                forall|v: int|
                    0 <= v < 10 ==> #[trigger] chances@[v] == draw_chance::<E>(
                        odds,
                        counts@,
                        remaining as nat,
                        v,
                    ),
                expected == hit_sum::<E>(odds, counts@, remaining as nat, hand, value as int),
            decreases 10 - value,
        {
            let chance: E = chances[value];
            if remaining > 0 && counts[value] > 0 && order::is_above(chance, zero) {
                let next: HandState = hand.add_value(value);
                let rest: [u16; 10] = take(&counts, value);
                let profit: E = if next.is_bust() {
                    zero - one
                } else {
                    self.optimal_hit_or_stand(rest, remaining - 1, next)
                };
                expected = expected + chance * profit;
            }
            value = value + 1;
        }
        expected
    }

    /// The expected net profit of the better of standing and drawing.
    pub fn optimal_hit_or_stand(&mut self, counts: [u16; 10], remaining: u32, hand: HandState) -> (
    value: E)
        requires
            number::arithmetic::<E>(),
            old(self).wf(),
            old(self).odds().admits(counts@),
            tidy(hand),
            hand.hard_total <= 40,
        ensures
            final(self).wf(),
            final(self).odds() == old(self).odds(),
            value == play_value::<E>(old(self).odds(), counts@, remaining as nat, hand),
        decreases remaining, 1int,
    {
        let key: u128 = fingerprint(&counts, hand);
        if let Some(entry) = self.player_memo.get(&key) {
            if entry.remaining == remaining && same_hand(entry.hand, hand) && same_counts(
                &entry.counts,
                &counts,
            ) {
                return entry.value;
            }
        }
        let stand: E = self.stand_ev(counts, remaining, hand);
        let value: E = if hand.total() >= 21 {
            stand
        } else {
            order::higher_of(stand, self.hit_ev(counts, remaining, hand))
        };
        self.player_memo.insert(key, PlayerEntry { counts, remaining, hand, value });
        value
    }

    /// The expected net profit of doubling the stake, drawing one card and standing.
    pub fn double_ev(&mut self, counts: [u16; 10], remaining: u32, hand: HandState) -> (value: E)
        requires
            number::arithmetic::<E>(),
            old(self).wf(),
            old(self).odds().admits(counts@),
            tidy(hand),
            hand.hard_total <= 40,
        ensures
            final(self).wf(),
            final(self).odds() == old(self).odds(),
            value == double_sum::<E>(old(self).odds(), counts@, remaining as nat, hand, 10),
    {
        let chances: [E; 10] = self.draw_chances(&counts, remaining);
        let zero: E = E::from(0u32);
        let two: E = E::from(2u32);
        let ghost odds = self.odds();
        let mut expected: E = zero;
        let mut value: usize = 0;
        while value < 10
            invariant
                number::arithmetic::<E>(),
                self.wf(),
                self.odds() == odds,
                odds.admits(counts@),
                tidy(hand),
                hand.hard_total <= 40,
                value <= 10,
                zero == number::small::<E>(0),
                two == number::small::<E>(2),
                forall|v: int|
                    0 <= v < 10 ==> #[trigger] chances@[v] == draw_chance::<E>(
                        odds,
                        counts@,
                        remaining as nat,
                        v,
                    ),
                expected == double_sum::<E>(odds, counts@, remaining as nat, hand, value as int),
            decreases 10 - value,
        {
            let chance: E = chances[value];
            if remaining > 0 && counts[value] > 0 && order::is_above(chance, zero) {
                let next: HandState = hand.add_value(value);
                let rest: [u16; 10] = take(&counts, value);
                let profit: E = if next.is_bust() {
                    zero - two
                } else {
                    let stand: E = self.stand_ev(rest, remaining - 1, next);
                    two * stand
                };
                expected = expected + chance * profit;
            }
            value = value + 1;
        }
        expected
    }

    /// The expected net profit of splitting a pair: twice that of one hand, as if the two hands
    /// did not draw from the same cards.
    pub fn split_estimate(
        &mut self,
        rules: SplitRules,
        counts: [u16; 10],
        remaining: u32,
        pair_value: usize,
    ) -> (value: E)
        requires
            number::arithmetic::<E>(),
            old(self).wf(),
            old(self).odds().admits(counts@),
            pair_value < 10,
        ensures
            final(self).wf(),
            final(self).odds() == old(self).odds(),
            value == split_value::<E>(
                old(self).odds(),
                rules,
                counts@,
                remaining as nat,
                pair_value as int,
            ),
    {
        let chances: [E; 10] = self.draw_chances(&counts, remaining);
        let zero: E = E::from(0u32);
        let ghost odds = self.odds();
        let mut expected: E = zero;
        let mut value: usize = 0;
        while value < 10
            invariant
                number::arithmetic::<E>(),
                self.wf(),
                self.odds() == odds,
                odds.admits(counts@),
                pair_value < 10,
                value <= 10,
                zero == number::small::<E>(0),
                forall|v: int|
                    0 <= v < 10 ==> #[trigger] chances@[v] == draw_chance::<E>(
                        odds,
                        counts@,
                        remaining as nat,
                        v,
                    ),
                expected == split_sum::<E>(
                    odds,
                    rules,
                    counts@,
                    remaining as nat,
                    pair_value as int,
                    value as int,
                ),
            decreases 10 - value,
        {
            let chance: E = chances[value];
            if remaining > 0 && counts[value] > 0 && order::is_above(chance, zero) {
                let hand: HandState = HandState::from_value(pair_value).add_value(value);
                let rest: [u16; 10] = take(&counts, value);
                let mut best: E = self.stand_ev(rest, remaining - 1, hand);
                if pair_value != blackjack::ACE_INDEX || rules.hit_split_aces {
                    let hit: E = self.hit_ev(rest, remaining - 1, hand);
                    best = order::higher_of(best, hit);
                    if rules.double_after_split {
                        let double: E = self.double_ev(rest, remaining - 1, hand);
                        best = order::higher_of(best, double);
                    }
                }
                expected = expected + chance * best;
            }
            value = value + 1;
        }
        E::from(2u32) * expected
    }
}

} // verus!
