//! Laws of the blackjack values: what they are where numbers are exact.

use vstd::prelude::*;

use crate::baccarat::ev;
use crate::blackjack;
use crate::blackjack::solver;
use crate::blackjack::solver::{Odds, SplitRules};
use crate::blackjack::{DealerStep, HandState};
use crate::exact;
use crate::exact::exact;
use crate::number;
use crate::number::Number;
use crate::order;

verus! {

/// The cards of the first values.
pub open spec fn cards_below(counts: Seq<u16>, n: int) -> int
    decreases n,
{
    if n <= 0 {
        0
    } else {
        cards_below(counts, n - 1) + counts[n - 1]
    }
}

/// The cards of the first values that can be the hidden one.
pub open spec fn hidden_below(odds: Odds, counts: Seq<u16>, n: int) -> int
    decreases n,
{
    if n <= 0 {
        0
    } else {
        hidden_below(odds, counts, n - 1) + if odds.allowed[n - 1] {
            counts[n - 1] as int
        } else {
            0
        }
    }
}

/// The number of ways to pick two unseen cards, the hidden one and the next one, where the next
/// one has a value: the hidden one is any other card that can be it.
pub open spec fn pairs(odds: Odds, counts: Seq<u16>, value: int) -> int {
    counts[value] * (hidden_below(odds, counts, 10) - if odds.allowed[value] {
        1int
    } else {
        0int
    })
}

/// Whether counts are those of `remaining` unseen cards, one of which can be hidden while another
/// is drawn.
pub open spec fn playable(odds: Odds, counts: Seq<u16>, remaining: nat) -> bool {
    &&& odds.admits(counts)
    &&& cards_below(counts, 10) == remaining
    &&& 2 <= remaining <= u32::MAX
    &&& hidden_below(odds, counts, 10) > 0
}

spec fn ways(available: int, taken: int) -> real
    decreases taken,
{
    if taken <= 0 {
        1 as real
    } else {
        ways(available, taken - 1) * (available - (taken - 1)) as real
    }
}

spec fn common(odds: Odds, counts: Seq<u16>, n: int) -> real
    decreases n,
{
    if n <= 0 {
        1 as real
    } else {
        common(odds, counts, n - 1) * ways(
            odds.root[n - 1] as int,
            odds.root[n - 1] - counts[n - 1],
        )
    }
}

proof fn lemma_ways_positive(available: int, taken: int)
    requires
        taken <= available,
    ensures
        ways(available, taken) > 0 as real,
    decreases taken,
{
    if taken > 0 {
        lemma_ways_positive(available, taken - 1);
        exact::lemma_product_sign(
            ways(available, taken - 1),
            (available - (taken - 1)) as real,
        );
    }
}

proof fn lemma_ways_one_more(available: int, taken: int)
    requires
        0 <= taken < available,
    ensures
        available as real * ways(available - 1, taken) == ways(available, taken) * (available
            - taken) as real,
    decreases taken,
{
    let a = available as real;
    if taken > 0 {
        lemma_ways_one_more(available, taken - 1);
        let x = ways(available - 1, taken - 1);
        let y = ways(available, taken - 1);
        let c = (available - (taken - 1)) as real;
        let d = (available - taken) as real;
        assert((available - 1) - (taken - 1) == available - taken);
        exact::lemma_factors(a, x, d);
        exact::lemma_substitute(a * x, y * c, d);
        assert(a * (x * d) == (y * c) * d);
    } else {
        assert(a * (1 as real) == (1 as real) * a) by (nonlinear_arith);
    }
}

proof fn lemma_falling<E: Number>(
    value: spec_fn(E) -> real,
    start: E,
    available: int,
    removed: int,
)
    requires
        exact(value),
        0 <= removed <= available <= u32::MAX,
    ensures
        value(solver::falling(start, available, removed)) == value(start) * ways(
            available,
            removed,
        ),
    decreases removed,
{
    if removed > 0 {
        lemma_falling(value, start, available, removed - 1);
        let w = ways(available, removed - 1);
        let c = (available - (removed - 1)) as real;
        assert((value(start) * w) * c == value(start) * (w * c)) by (nonlinear_arith);
    } else {
        assert(value(start) * (1 as real) == value(start)) by (nonlinear_arith);
    }
}

proof fn lemma_weigh<E: Number>(
    value: spec_fn(E) -> real,
    odds: Odds,
    counts: Seq<u16>,
    hole: int,
    n: int,
)
    requires
        exact(value),
        odds.admits(counts),
        0 <= hole < 10,
        counts[hole] > 0,
        0 <= n <= 10,
    ensures
        value(solver::weigh::<E>(odds, counts, hole, n)) == common(odds, counts, n) * if hole < n {
            counts[hole] as real
        } else {
            odds.root[hole] as real
        },
        common(odds, counts, n) > 0 as real,
    decreases n,
{
    if n > 0 {
        lemma_weigh(value, odds, counts, hole, n - 1);
        let v = n - 1;
        let root = odds.root[v] as int;
        let removed = root - counts[v];
        assert(counts[v] <= odds.root[v] && counts[hole] <= odds.root[hole]);
        let start = solver::weigh::<E>(odds, counts, hole, n - 1);
        let p = common(odds, counts, n - 1);
        let w = ways(root, removed);
        lemma_ways_positive(root, removed);
        exact::lemma_product_sign(p, w);
        if v == hole {
            lemma_falling(value, start, root - 1, removed);
            lemma_ways_one_more(root, removed);
            let x = ways(root - 1, removed);
            let a = root as real;
            let c = counts[hole] as real;
            assert(root - removed == counts[hole]);
            exact::lemma_factors(p, a, x);
            exact::lemma_factors(p, w, c);
            exact::lemma_substitute(a * x, w * c, p);
            assert((p * a) * x == (p * w) * c);
        } else {
            lemma_falling(value, start, root, removed);
            let c = if hole < n {
                counts[hole] as real
            } else {
                odds.root[hole] as real
            };
            assert((p * c) * w == (p * w) * c) by (nonlinear_arith);
        }
    } else {
        assert((1 as real) * odds.root[hole] as real == odds.root[hole] as real)
            by (nonlinear_arith);
    }
}

/// The hidden card is each of the unseen cards that it can be with the same chance: the weights of
/// two values are as their cards.
pub proof fn lemma_hidden_cards_are_alike<E: Number>(
    value: spec_fn(E) -> real,
    odds: Odds,
    counts: Seq<u16>,
    g: int,
    h: int,
)
    requires
        exact(value),
        odds.admits(counts),
        0 <= g < 10,
        0 <= h < 10,
        odds.allowed[g],
        odds.allowed[h],
    ensures
        value(solver::hole_weight::<E>(odds, counts, g)) * counts[h] as real == value(
            solver::hole_weight::<E>(odds, counts, h),
        ) * counts[g] as real,
        value(solver::hole_weight::<E>(odds, counts, g)) > 0 as real <==> counts[g] > 0,
{
    lemma_hole_weight(value, odds, counts, g);
    lemma_hole_weight(value, odds, counts, h);
    let p = common(odds, counts, 10);
    let a = counts[g] as real;
    let b = counts[h] as real;
    assert((p * a) * b == (p * b) * a) by (nonlinear_arith);
    exact::lemma_product_sign(p, a);
}

proof fn lemma_common_positive(odds: Odds, counts: Seq<u16>, n: int)
    requires
        odds.admits(counts),
        0 <= n <= 10,
    ensures
        common(odds, counts, n) > 0 as real,
    decreases n,
{
    if n > 0 {
        lemma_common_positive(odds, counts, n - 1);
        assert(counts[n - 1] <= odds.root[n - 1]);
        lemma_ways_positive(odds.root[n - 1] as int, odds.root[n - 1] - counts[n - 1]);
        exact::lemma_product_sign(
            common(odds, counts, n - 1),
            ways(odds.root[n - 1] as int, odds.root[n - 1] - counts[n - 1]),
        );
    }
}

proof fn lemma_hole_weight<E: Number>(
    value: spec_fn(E) -> real,
    odds: Odds,
    counts: Seq<u16>,
    hole: int,
)
    requires
        exact(value),
        odds.admits(counts),
        0 <= hole < 10,
    ensures
        value(solver::hole_weight::<E>(odds, counts, hole)) == common(odds, counts, 10) * (
        if odds.allowed[hole] {
            counts[hole] as real
        } else {
            0 as real
        }),
        common(odds, counts, 10) > 0 as real,
{
    lemma_common_positive(odds, counts, 10);
    let p = common(odds, counts, 10);
    assert(p * (0 as real) == 0 as real) by (nonlinear_arith);
    if counts[hole] > 0 {
        lemma_weigh(value, odds, counts, hole, 10);
    }
}

proof fn lemma_weight_sum<E: Number>(
    value: spec_fn(E) -> real,
    odds: Odds,
    counts: Seq<u16>,
    n: int,
)
    requires
        exact(value),
        odds.admits(counts),
        0 <= n <= 10,
    ensures
        value(solver::weight_sum::<E>(odds, counts, n)) == common(odds, counts, 10) * hidden_below(
            odds,
            counts,
            n,
        ) as real,
    decreases n,
{
    let p = common(odds, counts, 10);
    if n > 0 {
        lemma_weight_sum(value, odds, counts, n - 1);
        lemma_hole_weight(value, odds, counts, n - 1);
        let a = hidden_below(odds, counts, n - 1) as real;
        let c = if odds.allowed[n - 1] {
            counts[n - 1] as real
        } else {
            0 as real
        };
        assert(p * a + p * c == p * (a + c)) by (nonlinear_arith);
    } else {
        assert(p * (0 as real) == 0 as real) by (nonlinear_arith);
    }
}

/// How many of the pairs have their hidden card among the first values.
spec fn pairs_below(odds: Odds, counts: Seq<u16>, value: int, n: int) -> int {
    counts[value] * hidden_below(odds, counts, n) - if value < n && odds.allowed[value] {
        counts[value] as int
    } else {
        0
    }
}

proof fn lemma_drawable<E: Number>(
    value: spec_fn(E) -> real,
    odds: Odds,
    counts: Seq<u16>,
    card: int,
    n: int,
)
    requires
        exact(value),
        odds.admits(counts),
        0 <= card < 10,
        0 <= n <= 10,
    ensures
        value(solver::drawable::<E>(odds, counts, card, n)) == common(odds, counts, 10)
            * pairs_below(odds, counts, card, n) as real,
    decreases n,
{
    let p = common(odds, counts, 10);
    let c = counts[card] as int;
    if n > 0 {
        lemma_drawable(value, odds, counts, card, n - 1);
        lemma_hole_weight(value, odds, counts, n - 1);
        let hidden = if odds.allowed[n - 1] {
            counts[n - 1] as int
        } else {
            0
        };
        let left = if card == n - 1 && c > 0 {
            c - 1
        } else {
            c
        };
        let before = pairs_below(odds, counts, card, n - 1);
        let after = pairs_below(odds, counts, card, n);
        let h = hidden_below(odds, counts, n - 1);
        exact::lemma_product_of_counts(hidden, left);
        assert(c * (h + hidden) == c * h + c * hidden) by (nonlinear_arith);
        assert(before + hidden * left == after) by {
            assert(hidden * (c - 1) == c * hidden - hidden) by (nonlinear_arith);
            assert(hidden * c == c * hidden) by (nonlinear_arith);
            assert(hidden * 0 == 0);
        }
        assert(p * before as real + (p * hidden as real) * left as real == p * (before as real + (
        hidden as real * left as real))) by (nonlinear_arith);
    } else {
        assert(c * 0 == 0);
        assert(p * (0 as real) == 0 as real) by (nonlinear_arith);
    }
}

/// The chance that the next card has a value is that of a pick of two unseen cards, a hidden one
/// that is possible and a next one: the number of such pairs with a next card of that value, of
/// the number of all of them.
pub proof fn lemma_next_card_is_any_card_but_the_hidden_one<E: Number>(
    value: spec_fn(E) -> real,
    odds: Odds,
    counts: Seq<u16>,
    remaining: nat,
    card: int,
)
    requires
        exact(value),
        playable(odds, counts, remaining),
        0 <= card < 10,
    ensures
        value(solver::draw_chance::<E>(odds, counts, remaining, card)) * (hidden_below(
            odds,
            counts,
            10,
        ) * (remaining - 1)) as real == pairs(odds, counts, card) as real,
        pairs(odds, counts, card) >= 0,
        solver::can_draw::<E>(odds, counts, remaining, card) <==> pairs(odds, counts, card) > 0,
{
    let p = common(odds, counts, 10);
    let a = hidden_below(odds, counts, 10);
    let m = remaining - 1;
    lemma_common_positive(odds, counts, 10);
    lemma_weight_sum(value, odds, counts, 10);
    lemma_drawable(value, odds, counts, card, 10);
    let all = solver::weight_sum::<E>(odds, counts, 10);
    let zero = number::small::<E>(0);
    exact::lemma_product_sign(p, a as real);
    assert(value(all) == p * a as real);
    assert(!order::reaches(zero, all));
    let below = number::product(all, number::small::<E>(m));
    assert(value(below) == value(all) * m as real);
    exact::lemma_product_sign(value(all), m as real);
    let chance = solver::draw_chance::<E>(odds, counts, remaining, card);
    let c = counts[card] as int;
    assert(pairs_below(odds, counts, card, 10) == pairs(odds, counts, card)) by {
        assert(c * (a - 1) == c * a - c) by (nonlinear_arith);
    }
    let k = pairs(odds, counts, card) as real;
    assert(value(chance) * value(below) == p * k);
    let q = value(chance);
    exact::lemma_product_of_counts(a, m as int);
    let all = (a * m) as real;
    exact::lemma_factors(p, a as real, m as real);
    exact::lemma_substitute((p * a as real) * m as real, p * all, q);
    exact::lemma_factors(q, p, all);
    exact::lemma_factors(p, k, q);
    assert((q * all) * p == k * p);
    exact::lemma_cancel(q * (a * m) as real, k, p);
    lemma_hidden_holds(odds, counts, card, 10);
    assert(c * (a - 1) >= 0 && c * a >= 0) by (nonlinear_arith)
        requires
            c >= 0,
            a >= 1,
    ;
    let d = (a * m) as real;
    assert((a * m) > 0) by (nonlinear_arith)
        requires
            a > 0,
            m > 0,
    ;
    exact::lemma_quotient_sign(q, d, k);
    assert(order::above(chance, zero) <==> q > 0 as real);
    assert(c == 0 ==> pairs(odds, counts, card) == 0) by (nonlinear_arith)
        requires
            pairs(odds, counts, card) == c * (a - if odds.allowed[card] {
                1int
            } else {
                0int
            }),
    ;
}

proof fn lemma_hidden_holds(odds: Odds, counts: Seq<u16>, card: int, n: int)
    requires
        0 <= card < n,
    ensures
        odds.allowed[card] ==> hidden_below(odds, counts, n) >= counts[card],
        hidden_below(odds, counts, n) >= 0,
    decreases n,
{
    lemma_hidden_not_negative(odds, counts, n - 1);
    if card < n - 1 {
        lemma_hidden_holds(odds, counts, card, n - 1);
    }
}

proof fn lemma_hidden_not_negative(odds: Odds, counts: Seq<u16>, n: int)
    ensures
        hidden_below(odds, counts, n) >= 0,
    decreases n,
{
    if n > 0 {
        lemma_hidden_not_negative(odds, counts, n - 1);
    }
}

/// The sum of a number for each of the first values, each as often as its weight says.
pub open spec fn weighed(weight: spec_fn(int) -> int, number: spec_fn(int) -> real, n: int) -> real
    decreases n,
{
    if n <= 0 {
        0 as real
    } else {
        weighed(weight, number, n - 1) + weight(n - 1) as real * number(n - 1)
    }
}

/// The pairs of a hidden card and a next card, by the value of the next one.
pub open spec fn pairs_of(odds: Odds, counts: Seq<u16>) -> spec_fn(int) -> int {
    |card: int| pairs(odds, counts, card)
}

/// The number of all pairs of a hidden card and a next card.
pub open spec fn all_pairs(odds: Odds, counts: Seq<u16>, remaining: nat) -> real {
    (hidden_below(odds, counts, 10) * (remaining - 1)) as real
}

proof fn lemma_pairs_below_sum(odds: Odds, counts: Seq<u16>, c: real, n: int)
    requires
        0 <= n <= 10,
    ensures
        weighed(pairs_of(odds, counts), |v: int| c, n) == (hidden_below(odds, counts, 10)
            * cards_below(counts, n) - hidden_below(odds, counts, n)) as real * c,
    decreases n,
{
    let a = hidden_below(odds, counts, 10);
    if n > 0 {
        lemma_pairs_below_sum(odds, counts, c, n - 1);
        let x = cards_below(counts, n - 1);
        let h = hidden_below(odds, counts, n - 1);
        let k = counts[n - 1] as int;
        let before = a * x - h;
        let more = pairs(odds, counts, n - 1);
        assert(before + more == a * (x + k) - hidden_below(odds, counts, n)) by {
            assert(k * (a - 1) == a * k - k) by (nonlinear_arith);
            assert(k * a == a * k) by (nonlinear_arith);
            assert(a * (x + k) == a * x + a * k) by (nonlinear_arith);
        }
        assert(before as real * c + more as real * c == (before + more) as real * c)
            by (nonlinear_arith);
    } else {
        assert(a * 0 == 0);
        assert((0 as real) * c == 0 as real) by (nonlinear_arith);
    }
}

/// The next card has some value: the chances of all values add up to one.
pub proof fn lemma_some_card_comes_next(odds: Odds, counts: Seq<u16>, remaining: nat, c: real)
    requires
        playable(odds, counts, remaining),
    ensures
        weighed(pairs_of(odds, counts), |v: int| c, 10) == all_pairs(odds, counts, remaining) * c,
        all_pairs(odds, counts, remaining) > 0 as real,
{
    lemma_pairs_below_sum(odds, counts, c, 10);
    let a = hidden_below(odds, counts, 10);
    let m = remaining - 1;
    assert(a * remaining - a == a * m) by (nonlinear_arith)
        requires
            m == remaining - 1,
    ;
    assert(a * m > 0) by (nonlinear_arith)
        requires
            a > 0,
            m > 0,
    ;
}

proof fn lemma_weighed_agrees(
    weight: spec_fn(int) -> int,
    f: spec_fn(int) -> real,
    g: spec_fn(int) -> real,
    n: int,
)
    requires
        0 <= n,
        forall|v: int| 0 <= v < n && weight(v) != 0 ==> #[trigger] f(v) == g(v),
    ensures
        weighed(weight, f, n) == weighed(weight, g, n),
    decreases n,
{
    if n > 0 {
        lemma_weighed_agrees(weight, f, g, n - 1);
        let v = n - 1;
        if weight(v) == 0 {
            assert((0 as real) * f(v) == 0 as real && (0 as real) * g(v) == 0 as real)
                by (nonlinear_arith);
        } else {
            assert(f(v) == g(v));
        }
    }
}

proof fn lemma_weighed_scales(
    weight: spec_fn(int) -> int,
    f: spec_fn(int) -> real,
    c: real,
    n: int,
)
    ensures
        weighed(weight, |v: int| c * f(v), n) == c * weighed(weight, f, n),
    decreases n,
{
    if n > 0 {
        lemma_weighed_scales(weight, f, c, n - 1);
        let w = weight(n - 1) as real;
        let x = f(n - 1);
        let s = weighed(weight, f, n - 1);
        assert(c * s + w * (c * x) == c * (s + w * x)) by (nonlinear_arith);
    } else {
        assert(c * (0 as real) == 0 as real) by (nonlinear_arith);
    }
}

proof fn lemma_weighed_at_most(
    weight: spec_fn(int) -> int,
    f: spec_fn(int) -> real,
    g: spec_fn(int) -> real,
    n: int,
)
    requires
        0 <= n,
        forall|v: int| 0 <= v < n ==> #[trigger] weight(v) >= 0,
        forall|v: int| 0 <= v < n && weight(v) != 0 ==> #[trigger] f(v) <= g(v),
    ensures
        weighed(weight, f, n) <= weighed(weight, g, n),
    decreases n,
{
    if n > 0 {
        lemma_weighed_at_most(weight, f, g, n - 1);
        let v = n - 1;
        let w = weight(v) as real;
        let x = f(v);
        let y = g(v);
        assert(weight(v) >= 0);
        if weight(v) == 0 {
            exact::lemma_opposite(x, w);
            exact::lemma_opposite(y, w);
            assert(w * x == 0 as real && w * y == 0 as real);
        } else {
            exact::lemma_scale_order(x, y, w);
            exact::lemma_factors(x, w, y);
            exact::lemma_factors(y, w, x);
            assert(w * x <= w * y);
        }
    }
}

proof fn lemma_one_more_card<E: Number>(
    value: spec_fn(E) -> real,
    odds: Odds,
    counts: Seq<u16>,
    remaining: nat,
    card: int,
    before: E,
    result: E,
    so_far: real,
)
    requires
        exact(value),
        playable(odds, counts, remaining),
        0 <= card < 10,
        value(before) * all_pairs(odds, counts, remaining) == so_far,
    ensures
        value(
            if solver::can_draw::<E>(odds, counts, remaining, card) {
                number::sum(
                    before,
                    number::product(
                        solver::draw_chance::<E>(odds, counts, remaining, card),
                        result,
                    ),
                )
            } else {
                before
            },
        ) * all_pairs(odds, counts, remaining) == so_far + pairs(odds, counts, card) as real
            * value(result),
{
    lemma_next_card_is_any_card_but_the_hidden_one(value, odds, counts, remaining, card);
    let d = all_pairs(odds, counts, remaining);
    let k = pairs(odds, counts, card) as real;
    let r = value(result);
    let b = value(before);
    if solver::can_draw::<E>(odds, counts, remaining, card) {
        let q = value(solver::draw_chance::<E>(odds, counts, remaining, card));
        exact::lemma_part_of_sum(b, q, r, d, k);
    } else {
        exact::lemma_opposite(r, k);
        assert(k * r == 0 as real);
    }
}

/// What a hand is worth when it has drawn a card: a stake lost where it is bust.
pub open spec fn played_on<E: Number>(
    value: spec_fn(E) -> real,
    odds: Odds,
    counts: Seq<u16>,
    remaining: nat,
    hand: HandState,
) -> spec_fn(int) -> real {
    |card: int|
        if hand.drawn(card).points() > 21 {
            -1 as real
        } else {
            value(
                solver::play_value::<E>(
                    odds,
                    solver::without(counts, card),
                    (remaining - 1) as nat,
                    hand.drawn(card),
                ),
            )
        }
}

proof fn lemma_hit_sum<E: Number>(
    value: spec_fn(E) -> real,
    odds: Odds,
    counts: Seq<u16>,
    remaining: nat,
    hand: HandState,
    n: int,
)
    requires
        exact(value),
        playable(odds, counts, remaining),
        0 <= n <= 10,
    ensures
        value(solver::hit_sum::<E>(odds, counts, remaining, hand, n)) * all_pairs(
            odds,
            counts,
            remaining,
        ) == weighed(
            pairs_of(odds, counts),
            played_on(value, odds, counts, remaining, hand),
            n,
        ),
    decreases n,
{
    let d = all_pairs(odds, counts, remaining);
    if n > 0 {
        lemma_hit_sum(value, odds, counts, remaining, hand, n - 1);
        let card = n - 1;
        let next = hand.drawn(card);
        let result = if next.points() > 21 {
            ev::minus_one::<E>()
        } else {
            solver::play_value(
                odds,
                solver::without(counts, card),
                (remaining - 1) as nat,
                next,
            )
        };
        lemma_one_more_card(
            value,
            odds,
            counts,
            remaining,
            card,
            solver::hit_sum::<E>(odds, counts, remaining, hand, n - 1),
            result,
            weighed(
                pairs_of(odds, counts),
                played_on(value, odds, counts, remaining, hand),
                n - 1,
            ),
        );
        assert(value(result) == played_on(value, odds, counts, remaining, hand)(card));
    } else {
        assert((0 as real) * d == 0 as real) by (nonlinear_arith);
    }
}

/// Drawing a card is worth the mean over the next cards of what the hand is worth with each, a
/// stake lost where it is bust.
pub proof fn lemma_hitting_is_the_mean_over_next_cards<E: Number>(
    value: spec_fn(E) -> real,
    odds: Odds,
    counts: Seq<u16>,
    remaining: nat,
    hand: HandState,
)
    requires
        exact(value),
        playable(odds, counts, remaining),
    ensures
        value(solver::hit_sum::<E>(odds, counts, remaining, hand, 10)) * all_pairs(
            odds,
            counts,
            remaining,
        ) == weighed(
            pairs_of(odds, counts),
            played_on(value, odds, counts, remaining, hand),
            10,
        ),
{
    lemma_hit_sum(value, odds, counts, remaining, hand, 10);
}

/// A hand that may still draw is worth the better of standing and drawing; one with twenty-one
/// stands.
pub proof fn lemma_play_is_the_better_choice<E: Number>(
    value: spec_fn(E) -> real,
    odds: Odds,
    counts: Seq<u16>,
    remaining: nat,
    hand: HandState,
)
    requires
        exact(value),
        hand.points() <= 21,
    ensures
        ({
            let play = value(solver::play_value::<E>(odds, counts, remaining, hand));
            let stand = value(solver::stand_value::<E>(odds, counts, remaining, hand));
            let hit = value(solver::hit_sum::<E>(odds, counts, remaining, hand, 10));
            &&& play >= stand
            &&& hand.points() < 21 ==> play >= hit && (play == stand || play == hit)
            &&& hand.points() == 21 ==> play == stand
        }),
{
    exact::lemma_extremes(
        value,
        solver::stand_value::<E>(odds, counts, remaining, hand),
        solver::hit_sum::<E>(odds, counts, remaining, hand, 10),
    );
}

/// What a hand is worth when it has drawn a card and stands; a bust hand has lost its stake.
pub open spec fn stood_after<E: Number>(
    value: spec_fn(E) -> real,
    odds: Odds,
    counts: Seq<u16>,
    remaining: nat,
    hand: HandState,
) -> spec_fn(int) -> real {
    |card: int|
        value(
            solver::stand_value::<E>(
                odds,
                solver::without(counts, card),
                (remaining - 1) as nat,
                hand.drawn(card),
            ),
        )
}

proof fn lemma_double_sum<E: Number>(
    value: spec_fn(E) -> real,
    odds: Odds,
    counts: Seq<u16>,
    remaining: nat,
    hand: HandState,
    n: int,
)
    requires
        exact(value),
        playable(odds, counts, remaining),
        0 <= n <= 10,
    ensures
        value(solver::double_sum::<E>(odds, counts, remaining, hand, n)) * all_pairs(
            odds,
            counts,
            remaining,
        ) == weighed(
            pairs_of(odds, counts),
            |card: int| 2 as real * stood_after(value, odds, counts, remaining, hand)(card),
            n,
        ),
    decreases n,
{
    let d = all_pairs(odds, counts, remaining);
    let f = |card: int| 2 as real * stood_after(value, odds, counts, remaining, hand)(card);
    if n > 0 {
        lemma_double_sum(value, odds, counts, remaining, hand, n - 1);
        let card = n - 1;
        let next = hand.drawn(card);
        let two = number::small::<E>(2);
        let stood = solver::stand_value::<E>(
            odds,
            solver::without(counts, card),
            solver::less(remaining),
            next,
        );
        let result = if next.points() > 21 {
            number::difference(number::small::<E>(0), two)
        } else {
            number::product(two, stood)
        };
        lemma_one_more_card(
            value,
            odds,
            counts,
            remaining,
            card,
            solver::double_sum::<E>(odds, counts, remaining, hand, n - 1),
            result,
            weighed(pairs_of(odds, counts), f, n - 1),
        );
        assert(value(result) == f(card)) by {
            if next.points() > 21 {
                assert(value(stood) == -1 as real);
            }
        }
    } else {
        assert((0 as real) * d == 0 as real) by (nonlinear_arith);
    }
}

/// Doubling is worth twice the mean over the next cards of what the hand then stands for: both
/// stakes are lost where it is bust.
pub proof fn lemma_doubling_counts_two_stakes<E: Number>(
    value: spec_fn(E) -> real,
    odds: Odds,
    counts: Seq<u16>,
    remaining: nat,
    hand: HandState,
)
    requires
        exact(value),
        playable(odds, counts, remaining),
    ensures
        value(solver::double_sum::<E>(odds, counts, remaining, hand, 10)) * all_pairs(
            odds,
            counts,
            remaining,
        ) == 2 as real * weighed(
            pairs_of(odds, counts),
            stood_after(value, odds, counts, remaining, hand),
            10,
        ),
{
    lemma_double_sum(value, odds, counts, remaining, hand, 10);
    lemma_weighed_scales(
        pairs_of(odds, counts),
        stood_after(value, odds, counts, remaining, hand),
        2 as real,
        10,
    );
}

/// Two stakes on a hand that takes one card are worth no more than twice the stake on a hand that
/// may go on as it likes.
pub proof fn lemma_doubling_is_at_most_two_hits<E: Number>(
    value: spec_fn(E) -> real,
    odds: Odds,
    counts: Seq<u16>,
    remaining: nat,
    hand: HandState,
)
    requires
        exact(value),
        playable(odds, counts, remaining),
    ensures
        value(solver::double_sum::<E>(odds, counts, remaining, hand, 10)) <= 2 as real * value(
            solver::hit_sum::<E>(odds, counts, remaining, hand, 10),
        ),
{
    lemma_doubling_counts_two_stakes(value, odds, counts, remaining, hand);
    lemma_hit_sum(value, odds, counts, remaining, hand, 10);
    lemma_some_card_comes_next(odds, counts, remaining, 0 as real);
    let stood = stood_after(value, odds, counts, remaining, hand);
    let played = played_on(value, odds, counts, remaining, hand);
    let weight = pairs_of(odds, counts);
    assert forall|v: int| 0 <= v < 10 implies #[trigger] weight(v) >= 0 by {
        lemma_next_card_is_any_card_but_the_hidden_one(value, odds, counts, remaining, v);
    }
    assert forall|v: int| 0 <= v < 10 && weight(v) != 0 implies #[trigger] stood(v) <= played(
        v,
    ) by {
        if hand.drawn(v).points() <= 21 {
            lemma_play_is_the_better_choice(
                value,
                odds,
                solver::without(counts, v),
                (remaining - 1) as nat,
                hand.drawn(v),
            );
        }
    }
    lemma_weighed_at_most(weight, stood, played, 10);
    let d = all_pairs(odds, counts, remaining);
    let x = value(solver::double_sum::<E>(odds, counts, remaining, hand, 10));
    let y = value(solver::hit_sum::<E>(odds, counts, remaining, hand, 10));
    let a = weighed(weight, stood, 10);
    let b = weighed(weight, played, 10);
    exact::lemma_factors(2 as real, y, d);
    exact::lemma_substitute(y * d, b, 2 as real);
    exact::lemma_scale_order(x, 2 as real * y, d);
    assert(x <= 2 as real * y);
}

/// A hand of one card of a split pair and a second card.
pub open spec fn split_hand(pair_value: int, card: int) -> HandState {
    (HandState { hard_total: 0, aces: 0, cards: 0 }).drawn(pair_value).drawn(card)
}

/// What one hand of a split pair is worth with a second card.
pub open spec fn one_split_hand<E: Number>(
    value: spec_fn(E) -> real,
    odds: Odds,
    rules: SplitRules,
    counts: Seq<u16>,
    remaining: nat,
    pair_value: int,
) -> spec_fn(int) -> real {
    |card: int|
        value(
            solver::split_hand_value::<E>(
                odds,
                rules,
                solver::without(counts, card),
                (remaining - 1) as nat,
                pair_value,
                split_hand(pair_value, card),
            ),
        )
}

proof fn lemma_split_sum<E: Number>(
    value: spec_fn(E) -> real,
    odds: Odds,
    rules: SplitRules,
    counts: Seq<u16>,
    remaining: nat,
    pair_value: int,
    n: int,
)
    requires
        exact(value),
        playable(odds, counts, remaining),
        0 <= n <= 10,
    ensures
        value(solver::split_sum::<E>(odds, rules, counts, remaining, pair_value, n)) * all_pairs(
            odds,
            counts,
            remaining,
        ) == weighed(
            pairs_of(odds, counts),
            one_split_hand(value, odds, rules, counts, remaining, pair_value),
            n,
        ),
    decreases n,
{
    let d = all_pairs(odds, counts, remaining);
    let f = one_split_hand(value, odds, rules, counts, remaining, pair_value);
    if n > 0 {
        lemma_split_sum(value, odds, rules, counts, remaining, pair_value, n - 1);
        let card = n - 1;
        let result = solver::split_hand_value::<E>(
            odds,
            rules,
            solver::without(counts, card),
            solver::less(remaining),
            pair_value,
            split_hand(pair_value, card),
        );
        lemma_one_more_card(
            value,
            odds,
            counts,
            remaining,
            card,
            solver::split_sum::<E>(odds, rules, counts, remaining, pair_value, n - 1),
            result,
            weighed(pairs_of(odds, counts), f, n - 1),
        );
        assert(value(result) == f(card));
    } else {
        assert((0 as real) * d == 0 as real) by (nonlinear_arith);
    }
}

/// One hand of a split pair is worth the best of what it may do: stand; unless aces may not be
/// played on, draw; and then, where that is allowed after a split, double.
pub proof fn lemma_a_split_hand_makes_its_best_choice<E: Number>(
    value: spec_fn(E) -> real,
    odds: Odds,
    rules: SplitRules,
    counts: Seq<u16>,
    remaining: nat,
    pair_value: int,
    hand: HandState,
)
    requires
        exact(value),
    ensures
        ({
            let best = value(
                solver::split_hand_value::<E>(odds, rules, counts, remaining, pair_value, hand),
            );
            let stand = value(solver::stand_value::<E>(odds, counts, remaining, hand));
            let hit = value(solver::hit_sum::<E>(odds, counts, remaining, hand, 10));
            let double = value(solver::double_sum::<E>(odds, counts, remaining, hand, 10));
            let may_draw = pair_value != 0 || rules.hit_split_aces;
            let may_double = may_draw && rules.double_after_split;
            &&& best >= stand
            &&& may_draw ==> best >= hit
            &&& may_double ==> best >= double
            &&& best == stand || may_draw && best == hit || may_double && best == double
        }),
{
    let stand = solver::stand_value::<E>(odds, counts, remaining, hand);
    let hit = solver::hit_sum::<E>(odds, counts, remaining, hand, 10);
    let double = solver::double_sum::<E>(odds, counts, remaining, hand, 10);
    exact::lemma_extremes(value, stand, hit);
    exact::lemma_extremes(value, order::higher(stand, hit), double);
}

/// A split is worth the profits of two hands with a stake each: twice the mean over the second
/// card of what one hand is worth.
pub proof fn lemma_a_split_is_two_hands<E: Number>(
    value: spec_fn(E) -> real,
    odds: Odds,
    rules: SplitRules,
    counts: Seq<u16>,
    remaining: nat,
    pair_value: int,
)
    requires
        exact(value),
        playable(odds, counts, remaining),
    ensures
        ({
            let hand = weighed(
                pairs_of(odds, counts),
                one_split_hand(value, odds, rules, counts, remaining, pair_value),
                10,
            );
            value(solver::split_value::<E>(odds, rules, counts, remaining, pair_value))
                * all_pairs(odds, counts, remaining) == hand + hand
        }),
{
    lemma_split_sum(value, odds, rules, counts, remaining, pair_value, 10);
    let x = value(solver::split_sum::<E>(odds, rules, counts, remaining, pair_value, 10));
    let d = all_pairs(odds, counts, remaining);
    assert((2 as real * x) * d == x * d + x * d) by (nonlinear_arith);
}

/// Where one hand of a split pair is worth the same with every second card that can come, the
/// split is worth twice that: two stakes where both hands surely lose, and two won where both
/// surely win a stake.
pub proof fn lemma_a_sure_split_counts_twice<E: Number>(
    value: spec_fn(E) -> real,
    odds: Odds,
    rules: SplitRules,
    counts: Seq<u16>,
    remaining: nat,
    pair_value: int,
    worth: real,
)
    requires
        exact(value),
        playable(odds, counts, remaining),
        forall|card: int|
            0 <= card < 10 && solver::can_draw::<E>(odds, counts, remaining, card) ==> value(
                #[trigger] solver::split_hand_value::<E>(
                    odds,
                    rules,
                    solver::without(counts, card),
                    (remaining - 1) as nat,
                    pair_value,
                    split_hand(pair_value, card),
                ),
            ) == worth,
    ensures
        value(solver::split_value::<E>(odds, rules, counts, remaining, pair_value)) == worth
            + worth,
{
    lemma_a_split_is_two_hands(value, odds, rules, counts, remaining, pair_value);
    let f = one_split_hand(value, odds, rules, counts, remaining, pair_value);
    let weight = pairs_of(odds, counts);
    let g = |v: int| worth;
    assert forall|v: int| 0 <= v < 10 && weight(v) != 0 implies #[trigger] f(v) == g(v) by {
        lemma_next_card_is_any_card_but_the_hidden_one(value, odds, counts, remaining, v);
        assert(solver::can_draw::<E>(odds, counts, remaining, v));
        assert(value(
            solver::split_hand_value::<E>(
                odds,
                rules,
                solver::without(counts, v),
                (remaining - 1) as nat,
                pair_value,
                split_hand(pair_value, v),
            ),
        ) == worth);
    }
    lemma_weighed_agrees(weight, f, g, 10);
    lemma_some_card_comes_next(odds, counts, remaining, worth);
    let x = value(solver::split_value::<E>(odds, rules, counts, remaining, pair_value));
    let d = all_pairs(odds, counts, remaining);
    assert((worth + worth) * d == d * worth + d * worth) by (nonlinear_arith);
    exact::lemma_cancel(x, worth + worth, d);
}

proof fn lemma_cards_without(counts: Seq<u16>, v: int, n: int)
    requires
        counts.len() == 10,
        0 <= v < 10,
        counts[v] > 0,
        0 <= n <= 10,
    ensures
        cards_below(solver::without(counts, v), n) == cards_below(counts, n) - if v < n {
            1int
        } else {
            0int
        },
    decreases n,
{
    if n > 0 {
        lemma_cards_without(counts, v, n - 1);
    }
}

/// The cards, by value.
pub open spec fn cards_of(counts: Seq<u16>) -> spec_fn(int) -> int {
    |card: int| counts[card] as int
}

/// The chance of one of the dealer's ends when a card of a value has been drawn.
pub open spec fn end_after<E: Number>(
    value: spec_fn(E) -> real,
    hits_soft_17: bool,
    counts: Seq<u16>,
    remaining: nat,
    hand: HandState,
    end: int,
) -> spec_fn(int) -> real {
    |card: int|
        value(
            solver::dealer_ends::<E>(
                hits_soft_17,
                solver::without(counts, card),
                (remaining - 1) as nat,
                hand.drawn(card),
            )[end],
        )
}

proof fn lemma_dealer_draws<E: Number>(
    value: spec_fn(E) -> real,
    hits_soft_17: bool,
    counts: Seq<u16>,
    remaining: nat,
    hand: HandState,
    end: int,
    n: int,
)
    requires
        exact(value),
        0 < remaining <= u32::MAX,
        0 <= n <= 10,
        0 <= end < 6,
    ensures
        value(solver::dealer_draws::<E>(hits_soft_17, counts, remaining, hand, n)[end])
            * remaining as real == weighed(
            cards_of(counts),
            end_after(value, hits_soft_17, counts, remaining, hand, end),
            n,
        ),
    decreases n,
{
    let r = remaining as real;
    let f = end_after(value, hits_soft_17, counts, remaining, hand, end);
    if n > 0 {
        lemma_dealer_draws(value, hits_soft_17, counts, remaining, hand, end, n - 1);
        let b = value(
            solver::dealer_draws::<E>(hits_soft_17, counts, remaining, hand, n - 1)[end],
        );
        let c = counts[n - 1] as real;
        let x = f(n - 1);
        if counts[n - 1] == 0 {
            exact::lemma_opposite(x, c);
            assert(c * x == 0 as real);
        } else {
            let chance = number::quotient(
                number::small::<E>(counts[n - 1] as int),
                number::small::<E>(remaining as int),
            );
            let q = value(chance);
            assert(q * r == c);
            exact::lemma_part_of_sum(b, q, x, r, c);
        }
    } else {
        assert((0 as real) * r == 0 as real) by (nonlinear_arith);
    }
}

/// A dealer who has to draw ends as the mean over the cards that are left says; one who stands
/// has ended with that total, and one who is bust with that.
pub proof fn lemma_the_dealer_draws_any_card<E: Number>(
    value: spec_fn(E) -> real,
    hits_soft_17: bool,
    counts: Seq<u16>,
    remaining: nat,
    hand: HandState,
    end: int,
)
    requires
        exact(value),
        0 < remaining <= u32::MAX,
        0 <= end < 6,
    ensures
        ({
            let ends = solver::dealer_ends::<E>(hits_soft_17, counts, remaining, hand);
            let points = hand.points();
            if points > 21 {
                value(ends[end]) == if end == 0 {
                    1 as real
                } else {
                    0 as real
                }
            } else if points < 17 || points == 17 && hits_soft_17 && hand.aces > 0
                && hand.hard_total == 7 {
                value(ends[end]) * remaining as real == weighed(
                    cards_of(counts),
                    end_after(value, hits_soft_17, counts, remaining, hand, end),
                    10,
                )
            } else {
                value(ends[end]) == if end == points - 16 {
                    1 as real
                } else {
                    0 as real
                }
            }
        }),
{
    lemma_dealer_draws(value, hits_soft_17, counts, remaining, hand, end, 10);
}

/// Whether numbers are chances of exclusive ends, one of which comes.
pub open spec fn are_chances<E: Number>(value: spec_fn(E) -> real, ends: Seq<E>) -> bool {
    &&& ends.len() == 6
    &&& forall|i: int| 0 <= i < 6 ==> value(#[trigger] ends[i]) >= 0 as real
    &&& value(ends[0]) + value(ends[1]) + value(ends[2]) + value(ends[3]) + value(ends[4]) + value(
        ends[5],
    ) == 1 as real
}

spec fn ends_sum<E: Number>(value: spec_fn(E) -> real, ends: Seq<E>) -> real {
    value(ends[0]) + value(ends[1]) + value(ends[2]) + value(ends[3]) + value(ends[4]) + value(
        ends[5],
    )
}

proof fn lemma_draws_are_chances<E: Number>(
    value: spec_fn(E) -> real,
    hits_soft_17: bool,
    counts: Seq<u16>,
    remaining: nat,
    hand: HandState,
    n: int,
)
    requires
        exact(value),
        counts.len() == 10,
        cards_below(counts, 10) == remaining,
        0 < remaining <= u32::MAX,
        0 <= n <= 10,
    ensures
        ({
            let ends = solver::dealer_draws::<E>(hits_soft_17, counts, remaining, hand, n);
            &&& ends.len() == 6
            &&& forall|i: int| 0 <= i < 6 ==> value(#[trigger] ends[i]) >= 0 as real
            &&& ends_sum(value, ends) * remaining as real == cards_below(counts, n) as real
        }),
    decreases remaining, n,
{
    let r = remaining as real;
    if n > 0 {
        lemma_draws_are_chances(value, hits_soft_17, counts, remaining, hand, n - 1);
        let before = solver::dealer_draws::<E>(hits_soft_17, counts, remaining, hand, n - 1);
        let after = solver::dealer_draws::<E>(hits_soft_17, counts, remaining, hand, n);
        if counts[n - 1] > 0 {
            lemma_cards_without(counts, n - 1, 10);
            let branch = solver::dealer_ends::<E>(
                hits_soft_17,
                solver::without(counts, n - 1),
                (remaining - 1) as nat,
                hand.drawn(n - 1),
            );
            lemma_dealer_ends_are_chances(
                value,
                hits_soft_17,
                solver::without(counts, n - 1),
                (remaining - 1) as nat,
                hand.drawn(n - 1),
            );
            let chance = number::quotient(
                number::small::<E>(counts[n - 1] as int),
                number::small::<E>(remaining as int),
            );
            let q = value(chance);
            let c = counts[n - 1] as real;
            assert(q * r == c);
            exact::lemma_quotient_sign(q, r, c);
            assert forall|i: int| 0 <= i < 6 implies value(#[trigger] after[i]) >= 0 as real
                && value(after[i]) == value(before[i]) + q * value(branch[i]) by {
                assert(value(before[i]) >= 0 as real && value(branch[i]) >= 0 as real);
                exact::lemma_product_sign(q, value(branch[i]));
            }
            let b = ends_sum(value, before);
            let e0 = value(branch[0]);
            let e1 = value(branch[1]);
            let e2 = value(branch[2]);
            let e3 = value(branch[3]);
            let e4 = value(branch[4]);
            let e5 = value(branch[5]);
            exact::lemma_distribute(q, e0, e1);
            exact::lemma_distribute(q, e0 + e1, e2);
            exact::lemma_distribute(q, e0 + e1 + e2, e3);
            exact::lemma_distribute(q, e0 + e1 + e2 + e3, e4);
            exact::lemma_distribute(q, e0 + e1 + e2 + e3 + e4, e5);
            exact::lemma_substitute(e0 + e1 + e2 + e3 + e4 + e5, 1 as real, q);
            exact::lemma_opposite(q, q);
            assert(q * e0 + q * e1 + q * e2 + q * e3 + q * e4 + q * e5 == q);
            assert(value(after[0]) == value(before[0]) + q * e0);
            assert(value(after[1]) == value(before[1]) + q * e1);
            assert(value(after[2]) == value(before[2]) + q * e2);
            assert(value(after[3]) == value(before[3]) + q * e3);
            assert(value(after[4]) == value(before[4]) + q * e4);
            assert(value(after[5]) == value(before[5]) + q * e5);
            assert(ends_sum(value, after) == b + q);
            assert((b + q) * r == b * r + q * r) by (nonlinear_arith);
        }
    } else {
        assert((0 as real) * r == 0 as real) by (nonlinear_arith);
    }
}

/// The dealer ends in one way: the chances of the ends are not negative and add up to one.
pub proof fn lemma_dealer_ends_are_chances<E: Number>(
    value: spec_fn(E) -> real,
    hits_soft_17: bool,
    counts: Seq<u16>,
    remaining: nat,
    hand: HandState,
)
    requires
        exact(value),
        counts.len() == 10,
        cards_below(counts, 10) == remaining,
        remaining <= u32::MAX,
    ensures
        are_chances(value, solver::dealer_ends::<E>(hits_soft_17, counts, remaining, hand)),
    decreases remaining, 11int,
{
    let ends = solver::dealer_ends::<E>(hits_soft_17, counts, remaining, hand);
    if blackjack::dealer_rule(hand, hits_soft_17) == DealerStep::Draw && remaining > 0 {
        lemma_draws_are_chances(value, hits_soft_17, counts, remaining, hand, 10);
        let r = remaining as real;
        let x = ends_sum(value, ends);
        exact::lemma_opposite(r, r);
        exact::lemma_cancel(x, 1 as real, r);
    } else {
        assert(value(ends[0]) + value(ends[1]) + value(ends[2]) + value(ends[3]) + value(ends[4])
            + value(ends[5]) == 1 as real);
    }
}

/// One, zero or one below zero: who has more.
pub open spec fn sign(difference: int) -> real {
    if difference > 0 {
        1 as real
    } else if difference == 0 {
        0 as real
    } else {
        -1 as real
    }
}

/// The expected net profit of a standing total against the dealer's ends: a stake won where the
/// dealer is bust or has less, and a stake lost where the dealer has more.
pub open spec fn showdown<E: Number>(
    value: spec_fn(E) -> real,
    points: int,
    ends: Seq<E>,
) -> real {
    value(ends[0]) + sign(points - 17) * value(ends[1]) + sign(points - 18) * value(ends[2]) + sign(
        points - 19,
    ) * value(ends[3]) + sign(points - 20) * value(ends[4]) + sign(points - 21) * value(ends[5])
}

proof fn lemma_sign_product(x: real, d: int)
    ensures
        sign(d) * x == if d > 0 {
            x
        } else if d == 0 {
            0 as real
        } else {
            -x
        },
        x * sign(d) == sign(d) * x,
{
    assert((1 as real) * x == x && (0 as real) * x == 0 as real && (-1 as real) * x == -x)
        by (nonlinear_arith);
    let s = sign(d);
    assert(x * s == s * x) by (nonlinear_arith);
}

proof fn lemma_against<E: Number>(value: spec_fn(E) -> real, points: int, ends: Seq<E>)
    requires
        exact(value),
    ensures
        value(solver::against(points, ends, 5)) == showdown(value, points, ends),
{
    reveal_with_fuel(solver::against, 6);
    lemma_sign_product(value(ends[1]), points - 17);
    lemma_sign_product(value(ends[2]), points - 18);
    lemma_sign_product(value(ends[3]), points - 19);
    lemma_sign_product(value(ends[4]), points - 20);
    lemma_sign_product(value(ends[5]), points - 21);
    assert(value(solver::showdown_profit::<E>(points, 17)) == sign(points - 17));
    assert(value(solver::showdown_profit::<E>(points, 18)) == sign(points - 18));
    assert(value(solver::showdown_profit::<E>(points, 19)) == sign(points - 19));
    assert(value(solver::showdown_profit::<E>(points, 20)) == sign(points - 20));
    assert(value(solver::showdown_profit::<E>(points, 21)) == sign(points - 21));
}

/// The cards that can be hidden, by value.
pub open spec fn hidden_of(odds: Odds, counts: Seq<u16>) -> spec_fn(int) -> int {
    |card: int|
        if odds.allowed[card] {
            counts[card] as int
        } else {
            0
        }
}

/// What a standing total is worth where the hidden card has a value.
pub open spec fn stood_against<E: Number>(
    value: spec_fn(E) -> real,
    odds: Odds,
    counts: Seq<u16>,
    remaining: nat,
    points: int,
) -> spec_fn(int) -> real {
    |hole: int|
        showdown(
            value,
            points,
            solver::dealer_ends::<E>(
                odds.hits_soft_17,
                solver::without(counts, hole),
                (remaining - 1) as nat,
                split_hand(odds.upcard, hole),
            ),
        )
}

proof fn lemma_stand_sum<E: Number>(
    value: spec_fn(E) -> real,
    odds: Odds,
    counts: Seq<u16>,
    remaining: nat,
    player: HandState,
    n: int,
)
    requires
        exact(value),
        odds.admits(counts),
        remaining > 0,
        hidden_below(odds, counts, 10) > 0,
        0 <= n <= 10,
    ensures
        value(solver::stand_sum::<E>(odds, counts, remaining, player, n)) * hidden_below(
            odds,
            counts,
            10,
        ) as real == weighed(
            hidden_of(odds, counts),
            stood_against(value, odds, counts, remaining, player.points()),
            n,
        ),
    decreases n,
{
    let a = hidden_below(odds, counts, 10) as real;
    let f = stood_against(value, odds, counts, remaining, player.points());
    if n > 0 {
        lemma_stand_sum(value, odds, counts, remaining, player, n - 1);
        let hole = n - 1;
        let b = value(solver::stand_sum::<E>(odds, counts, remaining, player, n - 1));
        let x = f(hole);
        let c = hidden_of(odds, counts)(hole) as real;
        if solver::can_hide(odds, counts, hole) {
            let ends = solver::dealer_ends::<E>(
                odds.hits_soft_17,
                solver::without(counts, hole),
                solver::less(remaining),
                solver::dealer_hand(odds, hole),
            );
            lemma_against(value, player.points(), ends);
            lemma_hole_weight(value, odds, counts, hole);
            lemma_weight_sum(value, odds, counts, 10);
            let p = common(odds, counts, 10);
            exact::lemma_product_sign(p, a);
            let q = value(
                number::quotient(
                    solver::hole_weight::<E>(odds, counts, hole),
                    solver::weight_sum::<E>(odds, counts, 10),
                ),
            );
            assert(q * (p * a) == p * c);
            exact::lemma_factors(q, p, a);
            exact::lemma_factors(p, c, a);
            assert((q * a) * p == c * p);
            exact::lemma_cancel(q * a, c, p);
            exact::lemma_part_of_sum(b, q, x, a, c);
        } else {
            exact::lemma_opposite(x, c);
            assert(c * x == 0 as real);
        }
    } else {
        assert((0 as real) * a == 0 as real) by (nonlinear_arith);
    }
}

/// Standing is worth the mean, over the cards that can be hidden, of a stake won where the dealer
/// is bust or ends with less and a stake lost where the dealer ends with more. A bust hand has
/// lost its stake.
pub proof fn lemma_standing_compares_with_the_dealer<E: Number>(
    value: spec_fn(E) -> real,
    odds: Odds,
    counts: Seq<u16>,
    remaining: nat,
    player: HandState,
)
    requires
        exact(value),
        odds.admits(counts),
        remaining > 0,
        hidden_below(odds, counts, 10) > 0,
    ensures
        ({
            let worth = value(solver::stand_value::<E>(odds, counts, remaining, player));
            &&& player.points() > 21 ==> worth == -1 as real
            &&& player.points() <= 21 ==> worth * hidden_below(odds, counts, 10) as real == weighed(
                hidden_of(odds, counts),
                stood_against(value, odds, counts, remaining, player.points()),
                10,
            )
        }),
{
    lemma_stand_sum(value, odds, counts, remaining, player, 10);
    lemma_weight_sum(value, odds, counts, 10);
    lemma_common_positive(odds, counts, 10);
    exact::lemma_product_sign(
        common(odds, counts, 10),
        hidden_below(odds, counts, 10) as real,
    );
    let all = solver::weight_sum::<E>(odds, counts, 10);
    let zero = number::small::<E>(0);
    assert(order::reaches(zero, all) <==> value(zero) >= value(all));
}

proof fn lemma_showdown_bounds<E: Number>(
    value: spec_fn(E) -> real,
    low: int,
    high: int,
    ends: Seq<E>,
)
    requires
        are_chances(value, ends),
        low <= high,
    ensures
        -1 as real <= showdown(value, low, ends) <= showdown(value, high, ends) <= 1 as real,
{
    assert(value(ends[0]) >= 0 as real);
    assert(value(ends[1]) >= 0 as real);
    assert(value(ends[2]) >= 0 as real);
    assert(value(ends[3]) >= 0 as real);
    assert(value(ends[4]) >= 0 as real);
    assert(value(ends[5]) >= 0 as real);
    lemma_sign_product(value(ends[1]), low - 17);
    lemma_sign_product(value(ends[2]), low - 18);
    lemma_sign_product(value(ends[3]), low - 19);
    lemma_sign_product(value(ends[4]), low - 20);
    lemma_sign_product(value(ends[5]), low - 21);
    lemma_sign_product(value(ends[1]), high - 17);
    lemma_sign_product(value(ends[2]), high - 18);
    lemma_sign_product(value(ends[3]), high - 19);
    lemma_sign_product(value(ends[4]), high - 20);
    lemma_sign_product(value(ends[5]), high - 21);
}

proof fn lemma_hidden_sum(odds: Odds, counts: Seq<u16>, c: real, n: int)
    ensures
        weighed(hidden_of(odds, counts), |v: int| c, n) == hidden_below(odds, counts, n) as real
            * c,
    decreases n,
{
    if n > 0 {
        lemma_hidden_sum(odds, counts, c, n - 1);
        let a = hidden_below(odds, counts, n - 1) as real;
        let k = hidden_of(odds, counts)(n - 1) as real;
        assert(a * c + k * c == (a + k) * c) by (nonlinear_arith);
    } else {
        assert((0 as real) * c == 0 as real) by (nonlinear_arith);
    }
}

/// Standing wins or loses at most a stake, and a better total is worth no less.
pub proof fn lemma_a_better_total_is_worth_no_less<E: Number>(
    value: spec_fn(E) -> real,
    odds: Odds,
    counts: Seq<u16>,
    remaining: nat,
    low: HandState,
    high: HandState,
)
    requires
        exact(value),
        odds.admits(counts),
        cards_below(counts, 10) == remaining,
        0 < remaining <= u32::MAX,
        hidden_below(odds, counts, 10) > 0,
        low.points() <= high.points() <= 21,
    ensures
        -1 as real <= value(solver::stand_value::<E>(odds, counts, remaining, low)) <= value(
            solver::stand_value::<E>(odds, counts, remaining, high),
        ) <= 1 as real,
{
    lemma_standing_compares_with_the_dealer(value, odds, counts, remaining, low);
    lemma_standing_compares_with_the_dealer(value, odds, counts, remaining, high);
    let weight = hidden_of(odds, counts);
    let f = stood_against(value, odds, counts, remaining, low.points());
    let g = stood_against(value, odds, counts, remaining, high.points());
    let most = |v: int| 1 as real;
    let least = |v: int| -1 as real;
    assert forall|v: int| 0 <= v < 10 && weight(v) != 0 implies least(v) <= #[trigger] f(v) && f(v)
        <= g(v) && g(v) <= most(v) by {
        lemma_cards_without(counts, v, 10);
        let ends = solver::dealer_ends::<E>(
            odds.hits_soft_17,
            solver::without(counts, v),
            (remaining - 1) as nat,
            split_hand(odds.upcard, v),
        );
        lemma_dealer_ends_are_chances(
            value,
            odds.hits_soft_17,
            solver::without(counts, v),
            (remaining - 1) as nat,
            split_hand(odds.upcard, v),
        );
        lemma_showdown_bounds(value, low.points(), high.points(), ends);
    }
    assert forall|v: int| 0 <= v < 10 && weight(v) != 0 implies #[trigger] least(v) <= f(v) by {
        assert(f(v) <= g(v));
    }
    assert forall|v: int| 0 <= v < 10 && weight(v) != 0 implies #[trigger] g(v) <= most(v) by {
        assert(f(v) <= g(v));
    }
    lemma_weighed_at_most(weight, least, f, 10);
    lemma_weighed_at_most(weight, f, g, 10);
    lemma_weighed_at_most(weight, g, most, 10);
    lemma_hidden_sum(odds, counts, 1 as real, 10);
    lemma_hidden_sum(odds, counts, -1 as real, 10);
    let a = hidden_below(odds, counts, 10) as real;
    let x = value(solver::stand_value::<E>(odds, counts, remaining, low));
    let y = value(solver::stand_value::<E>(odds, counts, remaining, high));
    let m1 = -1 as real;
    exact::lemma_scale_order(x, y, a);
    exact::lemma_scale_order(m1, x, a);
    exact::lemma_scale_order(y, 1 as real, a);
    exact::lemma_factors(a, m1, a);
    exact::lemma_opposite(a, a);
    assert(-1 as real <= x <= y <= 1 as real);
}

} // verus!
