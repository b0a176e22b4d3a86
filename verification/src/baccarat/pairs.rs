//! Exact weights of the pair bets, which look at the first four cards: P1, B1, P2, B2.

use vstd::prelude::*;

use crate::baccarat::deals;
use crate::baccarat::probability::{falling_factorial, ProbabilityError};
use crate::baccarat::side_bet::{SideBet, SideVerdict};
use crate::card;
use crate::card::Card;
use crate::counting;
use crate::shoe;
use crate::shoe::{Shoe, ShoeView};

verus! {

/// The player's first two cards, P1 and P2, are of one class.
pub open spec fn player_match() -> spec_fn(Seq<int>) -> bool {
    |s: Seq<int>| s[0] == s[2]
}

/// The banker's first two cards, B1 and B2, are of one class.
pub open spec fn banker_match() -> spec_fn(Seq<int>) -> bool {
    |s: Seq<int>| s[1] == s[3]
}

/// Either side's first two cards are of one class.
pub open spec fn any_match() -> spec_fn(Seq<int>) -> bool {
    |s: Seq<int>| player_match()(s) || banker_match()(s)
}

/// Both sides' first two cards are of one class each.
pub open spec fn both_match() -> spec_fn(Seq<int>) -> bool {
    |s: Seq<int>| player_match()(s) && banker_match()(s)
}

/// The sequences that start with `prefix`.
spec fn starts(prefix: Seq<int>) -> spec_fn(Seq<int>) -> bool {
    |s: Seq<int>|
        s.len() >= prefix.len() && forall|k: int|
            0 <= k < prefix.len() ==> #[trigger] s[k] == prefix[k]
}

proof fn lemma_starts_closed(prefix: Seq<int>)
    ensures
        starts(prefix)(prefix),
        forall|s: Seq<int>, i: int| starts(prefix)(s) ==> #[trigger] starts(prefix)(s.push(i)),
{
    assert forall|s: Seq<int>, i: int| starts(prefix)(s) implies #[trigger] starts(prefix)(
        s.push(i),
    ) by {
        assert forall|k: int| 0 <= k < prefix.len() implies #[trigger] s.push(i)[k] == prefix[k] by {
            assert(s[k] == prefix[k]);
        }
    }
}

/// An event that a prefix already decides has all further draws or none.
proof fn lemma_decided(
    counts: Seq<nat>,
    more: nat,
    prefix: Seq<int>,
    event: spec_fn(Seq<int>) -> bool,
    holds: bool,
)
    requires
        forall|s: Seq<int>| #[trigger] starts(prefix)(s) ==> event(s) == holds,
    ensures
        counting::ways(counts, more, prefix, event) == if holds {
            counting::falling(counting::total(counts), more)
        } else {
            0
        },
{
    lemma_starts_closed(prefix);
    if holds {
        counting::lemma_ways_of_all(counts, more, prefix, event, starts(prefix));
    } else {
        counting::lemma_ways_of_none(counts, more, prefix, event, starts(prefix));
    }
}

/// Summed over the next draw, the copies then left of a class are its copies times the draws
/// of any other copy.
proof fn lemma_copies_after_draw(counts: Seq<nat>, a: int)
    requires
        0 <= a < counts.len(),
    ensures
        counting::sum_to(counts.len(), |b: int| counts[b] * counting::drawn(counts, b)[a])
            == counts[a] * counting::less(counting::total(counts), 1),
{
    let m = counts.len();
    let f = |b: int| counts[b] * counting::drawn(counts, b)[a];
    let g = |b: int| counts[a] * counts[b];
    let copies = |b: int| counts[b];
    assert forall|b: int| 0 <= b < m && b != a implies #[trigger] f(b) == g(b) by {
        assert(counts[b] * counts[a] == counts[a] * counts[b]) by (nonlinear_arith);
    }
    counting::lemma_sum_replaces(m, a, f, g);
    counting::lemma_sum_scales(m, counts[a], copies, g);
    counting::lemma_count_at_most_total(counts, a);
    let n = counts[a];
    let t = counting::total(counts);
    if n > 0 {
        assert(n * t + n * (n - 1) == n * (t - 1) + n * n) by (nonlinear_arith);
    } else {
        assert(f(a) == 0) by {
            assert(0 * counting::drawn(counts, a)[a] == 0) by (nonlinear_arith);
        }
        assert(g(a) == 0);
        assert(n * t == 0) by (nonlinear_arith)
            requires
                n == 0,
        ;
        assert(n * counting::less(t, 1) == 0) by (nonlinear_arith)
            requires
                n == 0,
        ;
    }
}

/// As `lemma_copies_after_draw`, for the ordered pairs of copies of a class.
proof fn lemma_pairs_after_draw(counts: Seq<nat>, b: int)
    requires
        0 <= b < counts.len(),
    ensures
        counting::sum_to(
            counts.len(),
            |a: int| counts[a] * counting::falling(counting::drawn(counts, a)[b], 2),
        ) == counting::falling(counts[b], 2) * counting::less(counting::total(counts), 2),
{
    reveal_with_fuel(counting::falling, 3);
    let m = counts.len();
    let pair = counting::falling(counts[b], 2);
    let f = |a: int| counts[a] * counting::falling(counting::drawn(counts, a)[b], 2);
    let g = |a: int| pair * counts[a];
    let copies = |a: int| counts[a];
    assert forall|a: int| 0 <= a < m && a != b implies #[trigger] f(a) == g(a) by {
        assert(counts[a] * pair == pair * counts[a]) by (nonlinear_arith);
    }
    counting::lemma_sum_replaces(m, b, f, g);
    counting::lemma_sum_scales(m, pair, copies, g);
    counting::lemma_count_at_most_total(counts, b);
    let n = counts[b];
    let t = counting::total(counts);
    lemma_falling_two(n);
    if n >= 2 {
        lemma_falling_two((n - 1) as nat);
        assert(pair == n * (n - 1));
        assert(f(b) == n * ((n - 1) * (n - 2)));
        assert((n * (n - 1)) * t + n * ((n - 1) * (n - 2)) == (n * (n - 1)) * (t - 2) + (n * (n
            - 1)) * n) by (nonlinear_arith);
    } else {
        assert(pair == 0);
        lemma_falling_two(counting::less(n, 1));
        assert(f(b) == 0) by {
            assert(n * 0 == 0) by (nonlinear_arith);
        }
        assert(g(b) == 0) by {
            assert(0 * n == 0) by (nonlinear_arith);
        }
        assert(0 * t == 0) by (nonlinear_arith);
        assert(0 * counting::less(t, 2) == 0) by (nonlinear_arith);
    }
}

proof fn lemma_falling_two(n: nat)
    ensures
        counting::falling(n, 2) == n * counting::less(n, 1),
        n < 2 ==> counting::falling(n, 2) == 0,
{
    reveal_with_fuel(counting::falling, 3);
    let k = counting::less(n, 1);
    assert(k * 1 == k);
    assert(counting::falling(n, 2) == n * (k * 1));
    if n < 2 {
        assert(k == 0);
        assert(n * 0 == 0) by (nonlinear_arith);
    }
}

/// Draws that begin with P1, B1 and P2 = P1.
proof fn lemma_player_match_after_two(counts: Seq<nat>, a: int, b: int, more: nat)
    requires
        0 <= a < counts.len(),
        more >= 1,
    ensures
        counting::ways(counts, more, seq![a, b], player_match()) == counts[a] * counting::falling(
            counting::less(counting::total(counts), 1),
            (more - 1) as nat,
        ),
{
    let rest = (more - 1) as nat;
    let prefix = seq![a, b];
    let event = player_match();
    counting::lemma_ways_step(counts, more, prefix, event);
    let f = |d: int| counting::branch(counts, d, rest, prefix, event);
    let after = counting::falling(counting::less(counting::total(counts), 1), rest);
    assert forall|d: int| 0 <= d < counts.len() && d != a implies #[trigger] f(d) == 0 by {
        let longer = prefix.push(d);
        assert forall|s: Seq<int>| #[trigger] starts(longer)(s) implies event(s) == false by {
            assert(s[0] == longer[0] && s[2] == longer[2]);
        }
        lemma_decided(counting::drawn(counts, d), rest, longer, event, false);
        assert(counts[d] * 0 == 0) by (nonlinear_arith);
    }
    counting::lemma_sum_single(counts.len(), a, f);
    let longer = prefix.push(a);
    assert forall|s: Seq<int>| #[trigger] starts(longer)(s) implies event(s) == true by {
        assert(s[0] == longer[0] && s[2] == longer[2]);
    }
    lemma_decided(counting::drawn(counts, a), rest, longer, event, true);
    if counts[a] > 0 {
        counting::lemma_total_after_draw(counts, a);
    } else {
        assert(0 * counting::ways(counting::drawn(counts, a), rest, longer, event) == 0)
            by (nonlinear_arith);
        assert(0 * after == 0) by (nonlinear_arith);
    }
}

/// Draws that begin with P1, B1, P2 and B2 = B1.
proof fn lemma_banker_match_after_three(counts: Seq<nat>, a: int, b: int, d: int, more: nat)
    requires
        0 <= b < counts.len(),
        more >= 1,
    ensures
        counting::ways(counts, more, seq![a, b, d], banker_match()) == counts[b]
            * counting::falling(counting::less(counting::total(counts), 1), (more - 1) as nat),
        counting::ways(counts, more, seq![a, b, d], both_match()) == if a == d {
            counts[b] * counting::falling(
                counting::less(counting::total(counts), 1),
                (more - 1) as nat,
            )
        } else {
            0
        },
{
    let rest = (more - 1) as nat;
    let prefix = seq![a, b, d];
    let after = counting::falling(counting::less(counting::total(counts), 1), rest);
    lemma_fourth_draw(counts, prefix, b, rest, banker_match(), true);
    lemma_fourth_draw(counts, prefix, b, rest, both_match(), a == d);
    assert(counts[b] * 0 == 0) by (nonlinear_arith);
}

proof fn lemma_fourth_draw(
    counts: Seq<nat>,
    prefix: Seq<int>,
    b: int,
    rest: nat,
    event: spec_fn(Seq<int>) -> bool,
    wanted: bool,
)
    requires
        0 <= b < counts.len(),
        prefix.len() == 3,
        prefix[1] == b,
        forall|s: Seq<int>|
            s.len() >= 4 && s[0] == prefix[0] && s[1] == prefix[1] && s[2] == prefix[2] ==> (
            #[trigger] event(s) == (wanted && s[1] == s[3])),
    ensures
        counting::ways(counts, rest + 1, prefix, event) == counts[b] * if wanted {
            counting::falling(counting::less(counting::total(counts), 1), rest)
        } else {
            0
        },
{
    counting::lemma_ways_step(counts, rest + 1, prefix, event);
    let f = |e: int| counting::branch(counts, e, rest, prefix, event);
    assert((rest + 1 - 1) as nat == rest);
    assert forall|e: int| 0 <= e < counts.len() && e != b implies #[trigger] f(e) == 0 by {
        let longer = prefix.push(e);
        assert forall|s: Seq<int>| #[trigger] starts(longer)(s) implies event(s) == false by {
            assert(s[0] == longer[0] && s[1] == longer[1] && s[2] == longer[2] && s[3]
                == longer[3]);
        }
        lemma_decided(counting::drawn(counts, e), rest, longer, event, false);
        assert(counts[e] * 0 == 0) by (nonlinear_arith);
    }
    counting::lemma_sum_single(counts.len(), b, f);
    let longer = prefix.push(b);
    assert forall|s: Seq<int>| #[trigger] starts(longer)(s) implies event(s) == wanted by {
        assert(s[0] == longer[0] && s[1] == longer[1] && s[2] == longer[2] && s[3] == longer[3]);
    }
    lemma_decided(counting::drawn(counts, b), rest, longer, event, wanted);
    if counts[b] > 0 {
        counting::lemma_total_after_draw(counts, b);
    } else {
        assert(0 * counting::ways(counting::drawn(counts, b), rest, longer, event) == 0)
            by (nonlinear_arith);
        assert(0 * counting::falling(counting::less(counting::total(counts), 1), rest) == 0)
            by (nonlinear_arith);
        assert(0 * 0 == 0);
    }
}

/// The ordered pairs of copies of one class, over all classes.
pub open spec fn pair_sum(counts: Seq<nat>) -> nat {
    counting::sum_to(counts.len(), |a: int| counting::falling(counts[a], 2))
}

/// The ordered choices of a pair of copies of class `a` and a pair of copies of class `b`.
pub open spec fn two_pairs(counts: Seq<nat>, a: int, b: int) -> nat {
    if a == b {
        counting::falling(counts[a], 4)
    } else {
        counting::falling(counts[a], 2) * counting::falling(counts[b], 2)
    }
}

/// The ordered choices of two pairs, over all pairs of classes.
pub open spec fn two_pair_sum(counts: Seq<nat>) -> nat {
    counting::sum_to(
        counts.len(),
        |a: int| counting::sum_to(counts.len(), |b: int| two_pairs(counts, a, b)),
    )
}

proof fn lemma_player_match_after_one(counts: Seq<nat>, a: int, more: nat)
    requires
        0 <= a < counts.len(),
        more >= 2,
    ensures
        counting::ways(counts, more, seq![a], player_match()) == counts[a] * (counting::less(
            counting::total(counts),
            1,
        ) * counting::falling(counting::less(counting::total(counts), 2), (more - 2) as nat)),
{
    let rest = (more - 1) as nat;
    let prefix = seq![a];
    let event = player_match();
    let t = counting::total(counts);
    let after = counting::falling(counting::less(t, 2), (more - 2) as nat);
    counting::lemma_ways_step(counts, more, prefix, event);
    let f = |b: int| counting::branch(counts, b, rest, prefix, event);
    let g = |b: int| counts[b] * counting::drawn(counts, b)[a];
    assert forall|b: int| 0 <= b < counts.len() implies #[trigger] f(b) == after * g(b) by {
        let left = counting::drawn(counts, b);
        assert(prefix.push(b) =~= seq![a, b]);
        lemma_player_match_after_two(left, a, b, rest);
        let n = counts[b];
        let c = left[a];
        if n > 0 {
            counting::lemma_total_after_draw(counts, b);
            assert(counting::less(counting::total(left), 1) == counting::less(t, 2));
            assert(n * (c * after) == after * (n * c)) by (nonlinear_arith);
        } else {
            assert(0 * counting::ways(left, rest, prefix.push(b), event) == 0) by (nonlinear_arith);
            assert(after * (n * c) == 0) by (nonlinear_arith)
                requires
                    n == 0,
            ;
        }
    }
    counting::lemma_sum_scales(counts.len(), after, g, f);
    lemma_copies_after_draw(counts, a);
    let x = counts[a];
    let y = counting::less(t, 1);
    assert(after * (x * y) == x * (y * after)) by (nonlinear_arith);
}

/// The draws of six with the player's cards matched: a pair, any two cards for the banker,
/// and the completion.
pub proof fn lemma_player_match(counts: Seq<nat>)
    requires
        counting::total(counts) >= 6,
    ensures
        counting::ways(counts, 6, Seq::empty(), player_match()) == pair_sum(counts)
            * counting::falling((counting::total(counts) - 2) as nat, 4),
{
    let t = counting::total(counts);
    let event = player_match();
    let start = Seq::<int>::empty();
    let after = counting::falling((t - 2) as nat, 4);
    assert(after == (t - 2) as nat * counting::falling((t - 3) as nat, 3));
    counting::lemma_ways_step(counts, 6, start, event);
    let f = |a: int| counting::branch(counts, a, 5, start, event);
    let g = |a: int| counting::falling(counts[a], 2);
    assert forall|a: int| 0 <= a < counts.len() implies #[trigger] f(a) == after * g(a) by {
        let left = counting::drawn(counts, a);
        assert(start.push(a) =~= seq![a]);
        lemma_player_match_after_one(left, a, 5);
        lemma_falling_two(counts[a]);
        let n = counts[a];
        let c = left[a];
        if n > 0 {
            counting::lemma_total_after_draw(counts, a);
            assert(n * (c * after) == after * (n * c)) by (nonlinear_arith);
        } else {
            assert(0 * counting::ways(left, 5, start.push(a), event) == 0) by (nonlinear_arith);
            assert(after * 0 == 0) by (nonlinear_arith);
        }
    }
    counting::lemma_sum_scales(counts.len(), after, g, f);
    assert(after * pair_sum(counts) == pair_sum(counts) * after) by (nonlinear_arith);
}

proof fn lemma_banker_match_after_two(counts: Seq<nat>, a: int, b: int)
    requires
        0 <= b < counts.len(),
    ensures
        counting::ways(counts, 4, seq![a, b], banker_match()) == counts[b] * (counting::less(
            counting::total(counts),
            1,
        ) * counting::falling(counting::less(counting::total(counts), 2), 2)),
{
    let prefix = seq![a, b];
    let event = banker_match();
    let t = counting::total(counts);
    let after = counting::falling(counting::less(t, 2), 2);
    counting::lemma_ways_step(counts, 4, prefix, event);
    let f = |d: int| counting::branch(counts, d, 3, prefix, event);
    let g = |d: int| counts[d] * counting::drawn(counts, d)[b];
    assert forall|d: int| 0 <= d < counts.len() implies #[trigger] f(d) == after * g(d) by {
        let left = counting::drawn(counts, d);
        assert(prefix.push(d) =~= seq![a, b, d]);
        lemma_banker_match_after_three(left, a, b, d, 3);
        let n = counts[d];
        let c = left[b];
        if n > 0 {
            counting::lemma_total_after_draw(counts, d);
            assert(counting::less(counting::total(left), 1) == counting::less(t, 2));
            assert(n * (c * after) == after * (n * c)) by (nonlinear_arith);
        } else {
            assert(0 * counting::ways(left, 3, prefix.push(d), event) == 0) by (nonlinear_arith);
            assert(after * (n * c) == 0) by (nonlinear_arith)
                requires
                    n == 0,
            ;
        }
    }
    counting::lemma_sum_scales(counts.len(), after, g, f);
    lemma_copies_after_draw(counts, b);
    let x = counts[b];
    let y = counting::less(t, 1);
    assert(after * (x * y) == x * (y * after)) by (nonlinear_arith);
}

proof fn lemma_banker_match_after_one(counts: Seq<nat>, a: int)
    requires
        counting::total(counts) >= 5,
    ensures
        counting::ways(counts, 5, seq![a], banker_match()) == counting::falling(
            (counting::total(counts) - 2) as nat,
            3,
        ) * pair_sum(counts),
{
    let prefix = seq![a];
    let event = banker_match();
    let t = counting::total(counts);
    let after = counting::falling((t - 2) as nat, 3);
    assert(after == (t - 2) as nat * counting::falling((t - 3) as nat, 2));
    counting::lemma_ways_step(counts, 5, prefix, event);
    let f = |b: int| counting::branch(counts, b, 4, prefix, event);
    let g = |b: int| counting::falling(counts[b], 2);
    assert forall|b: int| 0 <= b < counts.len() implies #[trigger] f(b) == after * g(b) by {
        let left = counting::drawn(counts, b);
        assert(prefix.push(b) =~= seq![a, b]);
        lemma_banker_match_after_two(left, a, b);
        lemma_falling_two(counts[b]);
        let n = counts[b];
        let c = left[b];
        if n > 0 {
            counting::lemma_total_after_draw(counts, b);
            assert(n * (c * after) == after * (n * c)) by (nonlinear_arith);
        } else {
            assert(0 * counting::ways(left, 4, prefix.push(b), event) == 0) by (nonlinear_arith);
            assert(after * 0 == 0) by (nonlinear_arith);
        }
    }
    counting::lemma_sum_scales(counts.len(), after, g, f);
}

/// The draws of six with the banker's cards matched are as many as with the player's.
pub proof fn lemma_banker_match(counts: Seq<nat>)
    requires
        counting::total(counts) >= 6,
    ensures
        counting::ways(counts, 6, Seq::empty(), banker_match()) == pair_sum(counts)
            * counting::falling((counting::total(counts) - 2) as nat, 4),
{
    let m = counts.len();
    let t = counting::total(counts);
    let event = banker_match();
    let start = Seq::<int>::empty();
    let after = counting::falling((t - 3) as nat, 3);
    counting::lemma_ways_step(counts, 6, start, event);
    let f = |a: int| counting::branch(counts, a, 5, start, event);
    let cell = |a: int, b: int| counts[a] * counting::falling(counting::drawn(counts, a)[b], 2);
    let row = |a: int| counting::sum_to(m, |b: int| cell(a, b));
    assert forall|a: int| 0 <= a < m implies #[trigger] f(a) == after * row(a) by {
        let left = counting::drawn(counts, a);
        let n = counts[a];
        let pairs = |b: int| counting::falling(left[b], 2);
        counting::lemma_sum_scales(m, n, pairs, |b: int| cell(a, b));
        assert(row(a) == n * pair_sum(left)) by {
            counting::lemma_sum_equal(m, pairs, |b: int| counting::falling(left[b], 2));
        }
        if n > 0 {
            counting::lemma_total_after_draw(counts, a);
            assert(start.push(a) =~= seq![a]);
            lemma_banker_match_after_one(left, a);
            let p = pair_sum(left);
            assert(n * (after * p) == after * (n * p)) by (nonlinear_arith);
        } else {
            assert(0 * counting::ways(left, 5, start.push(a), event) == 0) by (nonlinear_arith);
            assert(after * (n * pair_sum(left)) == 0) by (nonlinear_arith)
                requires
                    n == 0,
            ;
        }
    }
    counting::lemma_sum_scales(m, after, row, f);
    counting::lemma_sum_swaps(m, m, cell);
    let column = |b: int| counting::sum_to(m, |a: int| cell(a, b));
    let pair = |b: int| counting::falling(counts[b], 2);
    let others = (t - 2) as nat;
    assert forall|b: int| 0 <= b < m implies #[trigger] column(b) == others * pair(b) by {
        lemma_pairs_after_draw(counts, b);
        counting::lemma_sum_equal(
            m,
            |a: int| cell(a, b),
            |a: int| counts[a] * counting::falling(counting::drawn(counts, a)[b], 2),
        );
        assert(pair(b) * others == others * pair(b)) by (nonlinear_arith);
    }
    counting::lemma_sum_scales(m, others, pair, column);
    let p = pair_sum(counts);
    assert(counting::sum_to(m, row) == others * p);
    assert(after * (others * p) == p * (others * after)) by (nonlinear_arith);
}

proof fn lemma_both_match_after_two(counts: Seq<nat>, a: int, b: int)
    requires
        0 <= a < counts.len(),
        0 <= b < counts.len(),
    ensures
        counting::ways(counts, 4, seq![a, b], both_match()) == (counts[a] * counting::drawn(
            counts,
            a,
        )[b]) * counting::falling(counting::less(counting::total(counts), 2), 2),
{
    let prefix = seq![a, b];
    let event = both_match();
    let t = counting::total(counts);
    let after = counting::falling(counting::less(t, 2), 2);
    counting::lemma_ways_step(counts, 4, prefix, event);
    let f = |d: int| counting::branch(counts, d, 3, prefix, event);
    assert forall|d: int| 0 <= d < counts.len() && d != a implies #[trigger] f(d) == 0 by {
        assert(prefix.push(d) =~= seq![a, b, d]);
        lemma_banker_match_after_three(counting::drawn(counts, d), a, b, d, 3);
        assert(counts[d] * 0 == 0) by (nonlinear_arith);
    }
    counting::lemma_sum_single(counts.len(), a, f);
    let left = counting::drawn(counts, a);
    assert(prefix.push(a) =~= seq![a, b, a]);
    lemma_banker_match_after_three(left, a, b, a, 3);
    let n = counts[a];
    let c = left[b];
    if n > 0 {
        counting::lemma_total_after_draw(counts, a);
        assert(counting::less(counting::total(left), 1) == counting::less(t, 2));
        assert(n * (c * after) == (n * c) * after) by (nonlinear_arith);
    } else {
        assert(0 * counting::ways(left, 3, prefix.push(a), event) == 0) by (nonlinear_arith);
        assert((n * c) * after == 0) by (nonlinear_arith)
            requires
                n == 0,
        ;
    }
}

proof fn lemma_two_pairs(counts: Seq<nat>, a: int, b: int)
    requires
        0 <= a < counts.len(),
        0 <= b < counts.len(),
    ensures
        ({
            let one = counting::drawn(counts, a);
            let two = counting::drawn(one, b);
            let three = counting::drawn(two, a);
            counts[a] * (one[b] * (two[a] * three[b])) == two_pairs(counts, a, b)
        }),
{
    let one = counting::drawn(counts, a);
    let two = counting::drawn(one, b);
    let three = counting::drawn(two, a);
    let n = counts[a];
    let k = counts[b];
    lemma_falling_two(n);
    lemma_falling_two(k);
    if a == b {
        reveal_with_fuel(counting::falling, 5);
        let p = counting::less(n, 1);
        let q = counting::less(p, 1);
        let r = counting::less(q, 1);
        assert(counting::falling(n, 4) == n * (p * (q * (r * 1))));
        assert(r * 1 == r);
    } else {
        let p = counting::less(n, 1);
        let q = counting::less(k, 1);
        assert(n * (k * (p * q)) == (n * p) * (k * q)) by (nonlinear_arith);
    }
}

/// The draws of six with both sides' cards matched: two pairs and the completion.
pub proof fn lemma_both_match(counts: Seq<nat>)
    requires
        counting::total(counts) >= 6,
    ensures
        counting::ways(counts, 6, Seq::empty(), both_match()) == two_pair_sum(counts)
            * counting::falling((counting::total(counts) - 4) as nat, 2),
{
    let m = counts.len();
    let t = counting::total(counts);
    let event = both_match();
    let start = Seq::<int>::empty();
    let after = counting::falling((t - 4) as nat, 2);
    counting::lemma_ways_step(counts, 6, start, event);
    let f = |a: int| counting::branch(counts, a, 5, start, event);
    let row = |a: int| counting::sum_to(m, |b: int| two_pairs(counts, a, b));
    assert forall|a: int| 0 <= a < m implies #[trigger] f(a) == after * row(a) by {
        lemma_both_match_row(counts, a);
    }
    counting::lemma_sum_scales(m, after, row, f);
    assert(after * two_pair_sum(counts) == two_pair_sum(counts) * after) by (nonlinear_arith);
}

proof fn lemma_both_match_row(counts: Seq<nat>, a: int)
    requires
        counting::total(counts) >= 6,
        0 <= a < counts.len(),
    ensures
        counting::branch(counts, a, 5, Seq::empty(), both_match()) == counting::falling(
            (counting::total(counts) - 4) as nat,
            2,
        ) * counting::sum_to(counts.len(), |b: int| two_pairs(counts, a, b)),
{
    let m = counts.len();
    let t = counting::total(counts);
    let event = both_match();
    let start = Seq::<int>::empty();
    let after = counting::falling((t - 4) as nat, 2);
    let one = counting::drawn(counts, a);
    let n = counts[a];
    let first = start.push(a);
    assert(first =~= seq![a]);
    counting::lemma_ways_step(one, 5, first, event);
    let g = |b: int| counting::branch(one, b, 4, first, event);
    let term = |b: int| two_pairs(counts, a, b);
    let scaled = |b: int| after * term(b);
    let drawn_first = |b: int| n * g(b);
    assert forall|b: int| 0 <= b < m implies #[trigger] drawn_first(b) == scaled(b) by {
        let two = counting::drawn(one, b);
        let three = counting::drawn(two, a);
        assert(first.push(b) =~= seq![a, b]);
        lemma_both_match_after_two(two, a, b);
        lemma_two_pairs(counts, a, b);
        let k = one[b];
        let c = two[a];
        let d = three[b];
        let w = counting::ways(two, 4, first.push(b), event);
        if n > 0 && k > 0 {
            counting::lemma_total_after_draw(counts, a);
            counting::lemma_total_after_draw(one, b);
            assert(n * (k * ((c * d) * after)) == after * (n * (k * (c * d)))) by (nonlinear_arith);
        } else {
            assert(n * (k * w) == 0) by (nonlinear_arith)
                requires
                    n == 0 || k == 0,
            ;
            assert(after * (n * (k * (c * d))) == 0) by (nonlinear_arith)
                requires
                    n == 0 || k == 0,
            ;
        }
    }
    counting::lemma_sum_equal(m, drawn_first, scaled);
    counting::lemma_sum_scales(m, n, g, drawn_first);
    counting::lemma_sum_scales(m, after, term, scaled);
}

/// The draws of six with either side's cards matched, by inclusion and exclusion.
pub proof fn lemma_any_match(counts: Seq<nat>)
    requires
        counting::total(counts) >= 6,
    ensures
        ({
            let t = counting::total(counts);
            let single = pair_sum(counts) * counting::falling((t - 2) as nat, 2);
            let both = two_pair_sum(counts);
            let completion = counting::falling((t - 4) as nat, 2);
            &&& both <= 2 * single
            &&& counting::ways(counts, 6, Seq::empty(), any_match()) == (2 * single - both)
                * completion
        }),
{
    let t = counting::total(counts);
    let start = Seq::<int>::empty();
    counting::lemma_ways_union(counts, 6, start, player_match(), banker_match());
    assert(any_match() =~= (|s: Seq<int>| player_match()(s) || banker_match()(s)));
    assert(both_match() =~= (|s: Seq<int>| player_match()(s) && banker_match()(s)));
    lemma_player_match(counts);
    lemma_banker_match(counts);
    lemma_both_match(counts);
    let p = pair_sum(counts);
    let two = counting::falling((t - 2) as nat, 2);
    let completion = counting::falling((t - 4) as nat, 2);
    let both = two_pair_sum(counts);
    reveal_with_fuel(counting::falling, 5);
    lemma_falling_two((t - 2) as nat);
    lemma_falling_two((t - 4) as nat);
    assert(counting::falling((t - 2) as nat, 4) == two * completion) by {
        let a = (t - 2) as nat;
        let b = (t - 3) as nat;
        let c = (t - 4) as nat;
        let d = (t - 5) as nat;
        assert(counting::falling(a, 4) == a * (b * (c * (d * 1))));
        assert(a * (b * (c * d)) == (a * b) * (c * d)) by (nonlinear_arith);
        assert(d * 1 == d);
    }
    assert(p * (two * completion) == (p * two) * completion) by (nonlinear_arith);
    let single = p * two;
    let any = counting::ways(counts, 6, start, any_match());
    assert(any + both * completion == single * completion + single * completion);
    assert(completion > 0) by {
        counting::lemma_falling_grows((t - 4) as nat, 2, 2);
    }
    assert(single * completion + single * completion == (2 * single) * completion)
        by (nonlinear_arith);
    assert(both <= 2 * single) by (nonlinear_arith)
        requires
            completion > 0,
            both * completion <= (2 * single) * completion,
    ;
    assert((2 * single - both) * completion == (2 * single) * completion - both * completion)
        by (nonlinear_arith);
}

/// The deals that win each pair bet.
#[derive(Clone, Copy)]
pub struct PairWeights {
    pub any: u64,
    pub banker: u64,
    pub player: u64,
    pub perfect: u64,
}

impl PairWeights {
    /// Whether the weights are those of a shoe.
    pub open spec fn count(self, shoe: ShoeView) -> bool {
        &&& self.any == deals::deals(
            shoe,
            deals::verdict_event(SideBet::AnyPair, SideVerdict::Tier(0)),
        )
        &&& self.banker == deals::deals(
            shoe,
            deals::verdict_event(SideBet::BankerPair, SideVerdict::Tier(0)),
        )
        &&& self.player == deals::deals(
            shoe,
            deals::verdict_event(SideBet::PlayerPair, SideVerdict::Tier(0)),
        )
        &&& self.perfect == deals::deals(
            shoe,
            deals::verdict_event(SideBet::PerfectPair, SideVerdict::Tier(0)),
        )
    }
}

/// The largest weight that is allowed for.
const WEIGHT_LIMIT: u64 = 0x00ff_ffff_ffff_ffff;

/// The classes of a list of ranks.
spec fn classes(dealt: Seq<usize>) -> Seq<int> {
    dealt.map_values(|r: usize| r as int)
}

/// One step of a sum over the next class, scaled by the weight of the path so far.
proof fn lemma_path_step(
    counts: Seq<nat>,
    rank: int,
    rest: nat,
    prefix: Seq<int>,
    event: spec_fn(Seq<int>) -> bool,
    path: nat,
)
    requires
        0 <= rank < counts.len(),
    ensures
        path * counting::ways_below(counts, (rank + 1) as nat, rest, prefix, event) == path
            * counting::ways_below(counts, rank as nat, rest, prefix, event) + (path
            * counts[rank]) * counting::ways(
            counting::drawn(counts, rank),
            rest,
            prefix.push(rank),
            event,
        ),
        path * counting::ways_below(counts, (rank + 1) as nat, rest, prefix, event) <= path
            * counting::ways(counts, rest + 1, prefix, event),
{
    counting::lemma_ways_below_at_most(counts, (rank + 1) as nat, rest, prefix, event);
    let below = counting::ways_below(counts, rank as nat, rest, prefix, event);
    let deeper = counting::ways(
        counting::drawn(counts, rank),
        rest,
        prefix.push(rank),
        event,
    );
    let n = counts[rank];
    assert(counting::branch(counts, rank, rest, prefix, event) == n * deeper);
    assert(counting::ways_below(counts, (rank + 1) as nat, rest, prefix, event) == below + n
        * deeper);
    assert(path * (below + n * deeper) == path * below + (path * n) * deeper) by (nonlinear_arith);
    let next = counting::ways_below(counts, (rank + 1) as nat, rest, prefix, event);
    let all = counting::ways(counts, rest + 1, prefix, event);
    assert(path * next <= path * all) by (nonlinear_arith)
        requires
            next <= all,
    ;
}

/// Adds the deals of every completion of the ranks dealt so far, each of which stands for
/// `path` physical deals.
fn add_pair_weights(
    counts: &mut [u16; 13],
    dealt: &mut Vec<usize>,
    path: u64,
    completion: u64,
    result: &mut PairWeights,
)
    requires
        old(dealt)@.len() <= 4,
        forall|k: int| 0 <= k < old(dealt)@.len() ==> #[trigger] old(dealt)@[k] < 13,
        forall|k: int| 0 <= k < 13 ==> #[trigger] old(counts)@[k] <= 416,
        counting::total(old(counts)@.map_values(|n: u16| n as nat)) + old(dealt)@.len() <= 416,
        counting::total(old(counts)@.map_values(|n: u16| n as nat)) + old(dealt)@.len() >= 6,
        completion == counting::falling(
            (counting::total(old(counts)@.map_values(|n: u16| n as nat)) + old(dealt)@.len()
                - 4) as nat,
            2,
        ),
        path <= counting::power(416, old(dealt)@.len()),
        ({
            let stock = old(counts)@.map_values(|n: u16| n as nat);
            let more = (6 - old(dealt)@.len()) as nat;
            let prefix = classes(old(dealt)@);
            &&& old(result).any + path * counting::ways(stock, more, prefix, any_match())
                <= WEIGHT_LIMIT
            &&& old(result).banker + path * counting::ways(stock, more, prefix, banker_match())
                <= WEIGHT_LIMIT
            &&& old(result).player + path * counting::ways(stock, more, prefix, player_match())
                <= WEIGHT_LIMIT
        }),
    ensures
        final(counts)@ == old(counts)@,
        final(dealt)@ == old(dealt)@,
        ({
            let stock = old(counts)@.map_values(|n: u16| n as nat);
            let more = (6 - old(dealt)@.len()) as nat;
            let prefix = classes(old(dealt)@);
            &&& final(result).any == old(result).any + path * counting::ways(
                stock,
                more,
                prefix,
                any_match(),
            )
            &&& final(result).banker == old(result).banker + path * counting::ways(
                stock,
                more,
                prefix,
                banker_match(),
            )
            &&& final(result).player == old(result).player + path * counting::ways(
                stock,
                more,
                prefix,
                player_match(),
            )
            &&& final(result).perfect == old(result).perfect
        }),
    decreases 4 - old(dealt)@.len(),
{
    let ghost stock = counts@.map_values(|n: u16| n as nat);
    let ghost prefix = classes(dealt@);
    let ghost length = dealt@.len();
    if dealt.len() == 4 {
        let player_pair: bool = dealt[0] == dealt[2];
        let banker_pair: bool = dealt[1] == dealt[3];
        proof {
            lemma_dealt_four(stock, prefix);
            assert(path * 0 == 0) by (nonlinear_arith);
            lemma_leaf_fits(path as nat, completion as nat, counting::total(stock));
        }
        let weight: u64 = path * completion;
        if player_pair {
            result.player = result.player + weight;
        }
        if banker_pair {
            result.banker = result.banker + weight;
        }
        if player_pair || banker_pair {
            result.any = result.any + weight;
        }
        return;
    }
    let ghost rest = (5 - length) as nat;
    let ghost before = *result;
    let ghost original = counts@;
    let ghost hand = dealt@;
    let mut rank: usize = 0;
    proof {
        assert(path * 0 == 0) by (nonlinear_arith);
    }
    while rank < 13
        invariant
            rank <= 13,
            hand == old(dealt)@,
            before == *old(result),
            length == hand.len(),
            length < 4,
            rest == 5 - length,
            dealt@ == hand,
            counts@ == original,
            original == old(counts)@,
            prefix == classes(hand),
            stock == original.map_values(|n: u16| n as nat),
            forall|k: int| 0 <= k < length ==> #[trigger] hand[k] < 13,
            forall|k: int| 0 <= k < 13 ==> #[trigger] original[k] <= 416,
            6 <= counting::total(stock) + length <= 416,
            completion == counting::falling((counting::total(stock) + length - 4) as nat, 2),
            path <= counting::power(416, length),
            before.any + path * counting::ways(stock, rest + 1, prefix, any_match())
                <= WEIGHT_LIMIT,
            before.banker + path * counting::ways(stock, rest + 1, prefix, banker_match())
                <= WEIGHT_LIMIT,
            before.player + path * counting::ways(stock, rest + 1, prefix, player_match())
                <= WEIGHT_LIMIT,
            result.any == before.any + path * counting::ways_below(
                stock,
                rank as nat,
                rest,
                prefix,
                any_match(),
            ),
            result.banker == before.banker + path * counting::ways_below(
                stock,
                rank as nat,
                rest,
                prefix,
                banker_match(),
            ),
            result.player == before.player + path * counting::ways_below(
                stock,
                rank as nat,
                rest,
                prefix,
                player_match(),
            ),
            result.perfect == before.perfect,
        decreases 13 - rank,
    {
        let copies: u16 = counts[rank];
        proof {
            lemma_path_step(stock, rank as int, rest, prefix, any_match(), path as nat);
            lemma_path_step(stock, rank as int, rest, prefix, banker_match(), path as nat);
            lemma_path_step(stock, rank as int, rest, prefix, player_match(), path as nat);
            assert(stock[rank as int] == copies);
        }
        if copies != 0 {
            proof {
                lemma_path_grows(path as nat, copies as nat, length);
                counting::lemma_total_after_draw(stock, rank as int);
            }
            counts[rank] = copies - 1;
            dealt.push(rank);
            proof {
                assert(counts@.map_values(|n: u16| n as nat) =~= counting::drawn(
                    stock,
                    rank as int,
                ));
                assert(classes(dealt@) =~= prefix.push(rank as int));
            }
            add_pair_weights(counts, dealt, path * copies as u64, completion, result);
            let _ = dealt.pop();
            counts[rank] = copies;
            proof {
                assert(counts@ =~= original);
                assert(dealt@ =~= hand);
            }
        } else {
            proof {
                assert((path * 0) * counting::ways(
                    counting::drawn(stock, rank as int),
                    rest,
                    prefix.push(rank as int),
                    any_match(),
                ) == 0) by (nonlinear_arith);
                assert((path * 0) * counting::ways(
                    counting::drawn(stock, rank as int),
                    rest,
                    prefix.push(rank as int),
                    banker_match(),
                ) == 0) by (nonlinear_arith);
                assert((path * 0) * counting::ways(
                    counting::drawn(stock, rank as int),
                    rest,
                    prefix.push(rank as int),
                    player_match(),
                ) == 0) by (nonlinear_arith);
            }
        }
        rank += 1;
    }
}

/// After four cards the pair events are decided.
proof fn lemma_dealt_four(stock: Seq<nat>, prefix: Seq<int>)
    requires
        prefix.len() == 4,
    ensures
        counting::ways(stock, 2, prefix, player_match()) == if prefix[0] == prefix[2] {
            counting::falling(counting::total(stock), 2)
        } else {
            0
        },
        counting::ways(stock, 2, prefix, banker_match()) == if prefix[1] == prefix[3] {
            counting::falling(counting::total(stock), 2)
        } else {
            0
        },
        counting::ways(stock, 2, prefix, any_match()) == if prefix[0] == prefix[2] || prefix[1]
            == prefix[3] {
            counting::falling(counting::total(stock), 2)
        } else {
            0
        },
{
    assert forall|s: Seq<int>| #[trigger] starts(prefix)(s) implies s[0] == prefix[0] && s[1]
        == prefix[1] && s[2] == prefix[2] && s[3] == prefix[3] by {}
    lemma_decided(stock, 2, prefix, player_match(), prefix[0] == prefix[2]);
    lemma_decided(stock, 2, prefix, banker_match(), prefix[1] == prefix[3]);
    lemma_decided(
        stock,
        2,
        prefix,
        any_match(),
        prefix[0] == prefix[2] || prefix[1] == prefix[3],
    );
}

proof fn lemma_leaf_fits(path: nat, completion: nat, left: nat)
    requires
        path <= counting::power(416, 4),
        left <= 412,
        completion == counting::falling(left, 2),
    ensures
        path * completion <= WEIGHT_LIMIT,
{
    counting::lemma_falling_at_most_power(left, 416, 2);
    reveal_with_fuel(counting::power, 5);
    let a = counting::power(416, 4);
    let b = counting::power(416, 2);
    assert(a == 29_948_379_136);
    assert(b == 173_056);
    assert(path * completion <= 29_948_379_136 * 173_056) by (nonlinear_arith)
        requires
            path <= 29_948_379_136,
            completion <= 173_056,
    ;
}

proof fn lemma_path_grows(path: nat, copies: nat, length: nat)
    requires
        path <= counting::power(416, length),
        copies <= 416,
        length < 4,
    ensures
        path * copies <= counting::power(416, length + 1),
        path * copies <= 29_948_379_136,
{
    let a = counting::power(416, length);
    assert(path * copies <= 416 * a) by (nonlinear_arith)
        requires
            path <= a,
            copies <= 416,
    ;
    counting::lemma_power_grows(416, length + 1, 4);
    reveal_with_fuel(counting::power, 5);
}

/// The ordered first-four deals in which either side's two cards are the same card, by
/// inclusion and exclusion.
fn perfect_pair_first_four_weight(shoe: &Shoe) -> (weight: u64)
    requires
        shoe@.total() >= 6,
    ensures
        weight * counting::falling((shoe@.total() - 4) as nat, 2) == counting::ways(
            shoe@.counts,
            6,
            Seq::empty(),
            any_match(),
        ),
        shoe@.wf(),
{
    let counts: [u8; 52] = shoe.card_counts();
    let total: u16 = shoe.total_remaining();
    let ghost stock = shoe@.counts;
    proof {
        shoe::lemma_total_within_decks(shoe@);
        assert forall|i: int| 0 <= i < 52 implies counts@[i] == #[trigger] stock[i] && stock[i]
            <= 8 by {
            assert(counts@.map_values(|n: u8| n as nat)[i] == stock[i]);
        }
        lemma_falling_small((total - 2) as nat);
    }
    let other_hand_weight: u64 = falling_factorial(total - 2, 2);
    let mut pairs: u64 = 0;
    let mut both_hands: u64 = 0;
    let mut a: usize = 0;
    while a < 52
        invariant
            a <= 52,
            stock.len() == 52,
            forall|i: int| 0 <= i < 52 ==> counts@[i] == #[trigger] stock[i] && stock[i] <= 8,
            pairs == counting::sum_to(a as nat, |i: int| counting::falling(stock[i], 2)),
            pairs <= 56 * a,
            both_hands == counting::sum_to(
                a as nat,
                |i: int| counting::sum_to(52, |j: int| two_pairs(stock, i, j)),
            ),
            both_hands <= 163_072 * a,
        decreases 52 - a,
    {
        assert(counts@[a as int] == stock[a as int]);
        let player_pair: u64 = pair_of(counts[a]);
        pairs = pairs + player_pair;
        let mut row: u64 = 0;
        let mut b: usize = 0;
        while b < 52
            invariant
                b <= 52,
                a < 52,
                stock.len() == 52,
                forall|i: int| 0 <= i < 52 ==> counts@[i] == #[trigger] stock[i] && stock[i] <= 8,
                player_pair == counting::falling(stock[a as int], 2),
                player_pair <= 56,
                row == counting::sum_to(b as nat, |j: int| two_pairs(stock, a as int, j)),
                row <= 3136 * b,
            decreases 52 - b,
        {
            assert(counts@[b as int] == stock[b as int]);
            assert(counts@[a as int] == stock[a as int]);
            let weight: u64 = if a == b {
                four_of(counts[a])
            } else {
                let banker_pair: u64 = pair_of(counts[b]);
                assert(player_pair * banker_pair <= 3136) by (nonlinear_arith)
                    requires
                        player_pair <= 56,
                        banker_pair <= 56,
                ;
                player_pair * banker_pair
            };
            row = row + weight;
            b += 1;
        }
        both_hands = both_hands + row;
        a += 1;
    }
    proof {
        lemma_any_match(stock);
        let single = pair_sum(stock) * counting::falling((total - 2) as nat, 2);
        assert(pairs == pair_sum(stock));
        assert(both_hands == two_pair_sum(stock));
        assert(pairs * other_hand_weight <= 2912 * 173_056) by (nonlinear_arith)
            requires
                pairs <= 2912,
                other_hand_weight <= 173_056,
        ;
    }
    let single_hand: u64 = pairs * other_hand_weight;
    single_hand * 2 - both_hands
}

proof fn lemma_falling_small(n: nat)
    requires
        n <= 416,
    ensures
        counting::falling(n, 2) <= 173_056,
{
    counting::lemma_falling_at_most_power(n, 416, 2);
    reveal_with_fuel(counting::power, 3);
}

/// The ordered pairs out of at most eight copies.
fn pair_of(count: u8) -> (pairs: u64)
    requires
        count <= 8,
    ensures
        pairs == counting::falling(count as nat, 2),
        pairs <= 56,
{
    proof {
        reveal_with_fuel(counting::falling, 3);
        lemma_falling_two(count as nat);
        let n = count as nat;
        assert(n * counting::less(n, 1) <= 56) by (nonlinear_arith)
            requires
                n <= 8,
                counting::less(n, 1) <= 7,
        ;
    }
    if count >= 2 {
        falling_factorial(count as u16, 2)
    } else {
        0
    }
}

/// The ordered draws of four out of at most eight copies.
fn four_of(count: u8) -> (draws: u64)
    requires
        count <= 8,
    ensures
        draws == counting::falling(count as nat, 4),
        draws <= 1680,
{
    proof {
        counting::lemma_falling_monotone(count as nat, 8, 4);
        reveal_with_fuel(counting::falling, 5);
        assert(counting::falling(8, 4) == 8 * (7 * (6 * (5 * 1))));
    }
    if count >= 4 {
        falling_factorial(count as u16, 4)
    } else {
        proof {
            if count < 4 {
                let n = count as nat;
                let p = counting::less(n, 1);
                let q = counting::less(p, 1);
                let r = counting::less(q, 1);
                assert(r == 0);
                assert(counting::falling(n, 4) == n * (p * (q * (r * 1))));
                assert(n * (p * (q * (0 * 1))) == 0) by (nonlinear_arith);
            }
        }
        0
    }
}

/// Ranks are equal when their numbers are.
proof fn lemma_rank_numbers(cards: Seq<Card>)
    requires
        cards.len() == 6,
    ensures
        player_match()(deals::card_ranks(cards)) == (cards[0].rank == cards[2].rank),
        banker_match()(deals::card_ranks(cards)) == (cards[1].rank == cards[3].rank),
{
}

/// The pair bets of rank, counted by rank; the perfect pair, counted by card.
pub proof fn lemma_pair_deals(shoe: ShoeView)
    requires
        shoe.wf(),
    ensures
        deals::deals(shoe, deals::verdict_event(SideBet::AnyPair, SideVerdict::Tier(0)))
            == counting::ways(deals::rank_stock(shoe), 6, Seq::empty(), any_match()),
        deals::deals(shoe, deals::verdict_event(SideBet::BankerPair, SideVerdict::Tier(0)))
            == counting::ways(deals::rank_stock(shoe), 6, Seq::empty(), banker_match()),
        deals::deals(shoe, deals::verdict_event(SideBet::PlayerPair, SideVerdict::Tier(0)))
            == counting::ways(deals::rank_stock(shoe), 6, Seq::empty(), player_match()),
        deals::deals(shoe, deals::verdict_event(SideBet::PerfectPair, SideVerdict::Tier(0)))
            == counting::ways(shoe.counts, 6, Seq::empty(), any_match()),
        counting::total(deals::rank_stock(shoe)) == shoe.total(),
{
    let any = deals::verdict_event(SideBet::AnyPair, SideVerdict::Tier(0));
    let banker = deals::verdict_event(SideBet::BankerPair, SideVerdict::Tier(0));
    let player = deals::verdict_event(SideBet::PlayerPair, SideVerdict::Tier(0));
    let perfect = deals::verdict_event(SideBet::PerfectPair, SideVerdict::Tier(0));
    assert forall|cards: Seq<Card>| cards.len() == 6 implies #[trigger] any(cards) == any_match()(
        deals::card_ranks(cards),
    ) by {
        lemma_rank_numbers(cards);
    }
    assert forall|cards: Seq<Card>| cards.len() == 6 implies #[trigger] banker(cards)
        == banker_match()(deals::card_ranks(cards)) by {
        lemma_rank_numbers(cards);
    }
    assert forall|cards: Seq<Card>| cards.len() == 6 implies #[trigger] player(cards)
        == player_match()(deals::card_ranks(cards)) by {
        lemma_rank_numbers(cards);
    }
    deals::lemma_deals_by_ranks(shoe, any, any_match());
    deals::lemma_deals_by_ranks(shoe, banker, banker_match());
    deals::lemma_deals_by_ranks(shoe, player, player_match());
    let left = |s: Seq<int>| perfect(deals::cards_at(s));
    assert forall|s: Seq<int>| #[trigger] deals::in_deck()(s) && s.len() == 6 implies left(s)
        == any_match()(s) by {
        card::lemma_card_numbers_are_positions(s[0]);
        card::lemma_card_numbers_are_positions(s[1]);
        card::lemma_card_numbers_are_positions(s[2]);
        card::lemma_card_numbers_are_positions(s[3]);
        let cards = deals::cards_at(s);
        assert(cards[0] == card::card_at(s[0]));
        assert(cards[1] == card::card_at(s[1]));
        assert(cards[2] == card::card_at(s[2]));
        assert(cards[3] == card::card_at(s[3]));
    }
    counting::lemma_ways_agree(
        shoe.counts,
        6,
        Seq::empty(),
        left,
        any_match(),
        deals::in_deck(),
    );
}

/// Counts the deals that win each pair bet.
pub fn pair_weights(shoe: &Shoe) -> (result: Result<PairWeights, ProbabilityError>)
    ensures
        shoe@.wf(),
        match result {
            Ok(weights) => shoe@.total() >= 6 && weights.count(shoe@),
            Err(error) => shoe@.total() < 6 && error == (ProbabilityError::NotEnoughCards {
                remaining: shoe@.total() as u16,
            }),
        },
{
    let total_cards: u16 = shoe.total_remaining();
    if total_cards < 6 {
        return Err(ProbabilityError::NotEnoughCards { remaining: total_cards });
    }
    let mut counts: [u16; 13] = shoe.rank_counts();
    let ghost stock = deals::rank_stock(shoe@);
    let ghost start = Seq::<int>::empty();
    proof {
        shoe::lemma_total_within_decks(shoe@);
        lemma_falling_small((total_cards - 4) as nat);
        lemma_pair_deals(shoe@);
        lemma_falling_six(shoe@.total());
        counting::lemma_ways_at_most(stock, 6, start, any_match());
        counting::lemma_ways_at_most(stock, 6, start, banker_match());
        counting::lemma_ways_at_most(stock, 6, start, player_match());
        counting::lemma_ways_at_most(shoe@.counts, 6, start, any_match());
        assert forall|k: int| 0 <= k < 13 implies #[trigger] counts@[k] <= 416 by {
            assert(counts@.map_values(|n: u16| n as nat)[k] == stock[k]);
            counting::lemma_count_at_most_total(stock, k);
        }
    }
    let completion: u64 = falling_factorial(total_cards - 4, 2);
    let first_four: u64 = perfect_pair_first_four_weight(shoe);
    let mut result: PairWeights = PairWeights {
        any: 0,
        banker: 0,
        player: 0,
        perfect: first_four * completion,
    };
    let mut dealt: Vec<usize> = Vec::with_capacity(4);
    proof {
        assert(classes(dealt@) =~= start);
        let any = counting::ways(stock, 6, start, any_match());
        let banker = counting::ways(stock, 6, start, banker_match());
        let player = counting::ways(stock, 6, start, player_match());
        assert(1 * any == any);
        assert(1 * banker == banker);
        assert(1 * player == player);
    }
    add_pair_weights(&mut counts, &mut dealt, 1, completion, &mut result);
    Ok(result)
}

proof fn lemma_falling_six(n: nat)
    requires
        n <= 416,
    ensures
        counting::falling(n, 6) <= WEIGHT_LIMIT,
{
    counting::lemma_falling_at_most_power(n, 416, 6);
    reveal_with_fuel(counting::power, 7);
}

} // verus!
