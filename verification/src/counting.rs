//! Counting ordered draws without replacement.
//!
//! A stock holds `counts[i]` copies of each class `i`. `ways` counts the ordered draws of
//! physical copies whose classes form a given event; the lemmas relate such counts to
//! falling factorials, to coarser classes and to sums over class sequences.

use vstd::prelude::*;

verus! {

/// `f(0) + f(1) + ... + f(n - 1)`.
pub open spec fn sum_to(n: nat, f: spec_fn(int) -> nat) -> nat
    decreases n,
{
    if n == 0 {
        0
    } else {
        sum_to((n - 1) as nat, f) + f(n - 1)
    }
}

/// The number of copies in a stock.
pub open spec fn total(counts: Seq<nat>) -> nat {
    sum_to(counts.len(), |i: int| counts[i])
}

/// The stock after one copy of class `i` has left it.
pub open spec fn drawn(counts: Seq<nat>, i: int) -> Seq<nat> {
    counts.update(i, less(counts[i], 1))
}

/// `a - b`, and nothing where that is negative.
pub open spec fn less(a: nat, b: nat) -> nat {
    if a >= b {
        (a - b) as nat
    } else {
        0
    }
}

/// `n * (n - 1) * ...`, with `k` factors: the ordered draws of `k` out of `n` copies.
pub open spec fn falling(n: nat, k: nat) -> nat
    decreases k,
{
    if k == 0 {
        1
    } else {
        n * falling(less(n, 1), (k - 1) as nat)
    }
}

/// The number of ordered draws of `more` further copies after the classes in `prefix`,
/// such that the whole class sequence is in `event`.
pub open spec fn ways(
    counts: Seq<nat>,
    more: nat,
    prefix: Seq<int>,
    event: spec_fn(Seq<int>) -> bool,
) -> nat
    decreases more, 0nat,
{
    if more == 0 {
        if event(prefix) {
            1
        } else {
            0
        }
    } else {
        ways_below(counts, counts.len(), (more - 1) as nat, prefix, event)
    }
}

/// As `ways` with one more draw than `rest`, where the next class is below `n`.
pub open spec fn ways_below(
    counts: Seq<nat>,
    n: nat,
    rest: nat,
    prefix: Seq<int>,
    event: spec_fn(Seq<int>) -> bool,
) -> nat
    decreases rest, n + 1,
{
    if n == 0 {
        0
    } else {
        ways_below(counts, (n - 1) as nat, rest, prefix, event) + branch(
            counts,
            n - 1,
            rest,
            prefix,
            event,
        )
    }
}

/// The draws that go on with class `i`: each of its copies, then `rest` more.
pub open spec fn branch(
    counts: Seq<nat>,
    i: int,
    rest: nat,
    prefix: Seq<int>,
    event: spec_fn(Seq<int>) -> bool,
) -> nat
    decreases rest, 1nat,
{
    counts[i] * ways(drawn(counts, i), rest, prefix.push(i), event)
}

/// One draw is a sum over the class that comes next.
pub proof fn lemma_ways_step(
    counts: Seq<nat>,
    more: nat,
    prefix: Seq<int>,
    event: spec_fn(Seq<int>) -> bool,
)
    requires
        more > 0,
    ensures
        ways(counts, more, prefix, event) == sum_to(
            counts.len(),
            |i: int| branch(counts, i, (more - 1) as nat, prefix, event),
        ),
{
    lemma_ways_below(counts, counts.len(), (more - 1) as nat, prefix, event);
}

proof fn lemma_ways_below(
    counts: Seq<nat>,
    n: nat,
    rest: nat,
    prefix: Seq<int>,
    event: spec_fn(Seq<int>) -> bool,
)
    ensures
        ways_below(counts, n, rest, prefix, event) == sum_to(
            n,
            |i: int| branch(counts, i, rest, prefix, event),
        ),
    decreases n,
{
    if n > 0 {
        lemma_ways_below(counts, (n - 1) as nat, rest, prefix, event);
    }
}

/// Sums of equal terms are equal.
pub proof fn lemma_sum_equal(n: nat, f: spec_fn(int) -> nat, g: spec_fn(int) -> nat)
    requires
        forall|i: int| 0 <= i < n ==> #[trigger] f(i) == g(i),
    ensures
        sum_to(n, f) == sum_to(n, g),
    decreases n,
{
    if n > 0 {
        lemma_sum_equal((n - 1) as nat, f, g);
        assert(f(n - 1) == g(n - 1));
    }
}

/// A sum of smaller terms is smaller.
pub proof fn lemma_sum_at_most(n: nat, f: spec_fn(int) -> nat, g: spec_fn(int) -> nat)
    requires
        forall|i: int| 0 <= i < n ==> #[trigger] f(i) <= g(i),
    ensures
        sum_to(n, f) <= sum_to(n, g),
    decreases n,
{
    if n > 0 {
        lemma_sum_at_most((n - 1) as nat, f, g);
        assert(f(n - 1) <= g(n - 1));
    }
}

/// Sums add term by term.
pub proof fn lemma_sum_adds(
    n: nat,
    f: spec_fn(int) -> nat,
    g: spec_fn(int) -> nat,
    h: spec_fn(int) -> nat,
)
    requires
        forall|i: int| 0 <= i < n ==> #[trigger] h(i) == f(i) + g(i),
    ensures
        sum_to(n, h) == sum_to(n, f) + sum_to(n, g),
    decreases n,
{
    if n > 0 {
        lemma_sum_adds((n - 1) as nat, f, g, h);
        assert(h(n - 1) == f(n - 1) + g(n - 1));
    }
}

/// A common factor leaves the sum.
pub proof fn lemma_sum_scales(n: nat, c: nat, f: spec_fn(int) -> nat, h: spec_fn(int) -> nat)
    requires
        forall|i: int| 0 <= i < n ==> #[trigger] h(i) == c * f(i),
    ensures
        sum_to(n, h) == c * sum_to(n, f),
    decreases n,
{
    if n > 0 {
        lemma_sum_scales((n - 1) as nat, c, f, h);
        assert(h(n - 1) == c * f(n - 1));
        assert(c * (sum_to((n - 1) as nat, f) + f(n - 1)) == c * sum_to((n - 1) as nat, f) + c * f(
            n - 1,
        )) by (nonlinear_arith);
    } else {
        assert(c * 0 == 0) by (nonlinear_arith);
    }
}

/// A sum with one term that is not zero is that term.
pub proof fn lemma_sum_single(n: nat, at: int, f: spec_fn(int) -> nat)
    requires
        0 <= at < n,
        forall|i: int| 0 <= i < n && i != at ==> #[trigger] f(i) == 0,
    ensures
        sum_to(n, f) == f(at),
    decreases n,
{
    if at < n - 1 {
        lemma_sum_single((n - 1) as nat, at, f);
        assert(f(n - 1) == 0);
    } else {
        lemma_sum_zero((n - 1) as nat, f);
    }
}

/// A sum of zeros is zero.
pub proof fn lemma_sum_zero(n: nat, f: spec_fn(int) -> nat)
    requires
        forall|i: int| 0 <= i < n ==> #[trigger] f(i) == 0,
    ensures
        sum_to(n, f) == 0,
    decreases n,
{
    if n > 0 {
        lemma_sum_zero((n - 1) as nat, f);
        assert(f(n - 1) == 0);
    }
}

/// No term exceeds the sum.
pub proof fn lemma_sum_bounds_term(n: nat, at: int, f: spec_fn(int) -> nat)
    requires
        0 <= at < n,
    ensures
        f(at) <= sum_to(n, f),
    decreases n,
{
    if at < n - 1 {
        lemma_sum_bounds_term((n - 1) as nat, at, f);
    }
}

/// Two sums that differ at one place.
pub proof fn lemma_sum_replaces(n: nat, at: int, f: spec_fn(int) -> nat, g: spec_fn(int) -> nat)
    requires
        0 <= at < n,
        forall|i: int| 0 <= i < n && i != at ==> #[trigger] f(i) == g(i),
    ensures
        sum_to(n, f) + g(at) == sum_to(n, g) + f(at),
    decreases n,
{
    if at < n - 1 {
        lemma_sum_replaces((n - 1) as nat, at, f, g);
        assert(f(n - 1) == g(n - 1));
    } else {
        lemma_sum_equal((n - 1) as nat, f, g);
    }
}

/// The order of two summations does not matter.
pub proof fn lemma_sum_swaps(n: nat, m: nat, f: spec_fn(int, int) -> nat)
    ensures
        sum_to(n, |i: int| sum_to(m, |j: int| f(i, j))) == sum_to(
            m,
            |j: int| sum_to(n, |i: int| f(i, j)),
        ),
    decreases n,
{
    let outer = |i: int| sum_to(m, |j: int| f(i, j));
    let inner = |j: int| sum_to(n, |i: int| f(i, j));
    if n == 0 {
        lemma_sum_zero(m, inner);
    } else {
        let k = (n - 1) as nat;
        lemma_sum_swaps(k, m, f);
        let shorter = |j: int| sum_to(k, |i: int| f(i, j));
        let last = |j: int| f(k as int, j);
        assert forall|j: int| 0 <= j < m implies #[trigger] inner(j) == shorter(j) + last(j) by {
            let column = |i: int| f(i, j);
            assert(sum_to(n, column) == sum_to(k, column) + column(k as int));
        }
        lemma_sum_adds(m, shorter, last, inner);
        assert(outer(k as int) == sum_to(m, |j: int| f(k as int, j)));
        assert(last =~= (|j: int| f(k as int, j)));
    }
}

/// Drawing a copy that is there leaves one copy less.
pub proof fn lemma_total_after_draw(counts: Seq<nat>, i: int)
    requires
        0 <= i < counts.len(),
        counts[i] > 0,
    ensures
        total(drawn(counts, i)) + 1 == total(counts),
        total(counts) > 0,
{
    let before = |k: int| counts[k];
    let after = |k: int| drawn(counts, i)[k];
    lemma_sum_replaces(counts.len(), i, before, after);
    lemma_sum_bounds_term(counts.len(), i, before);
}

/// With every sequence in the event, the draws are those of a falling factorial.
pub proof fn lemma_ways_of_all(
    counts: Seq<nat>,
    more: nat,
    prefix: Seq<int>,
    event: spec_fn(Seq<int>) -> bool,
    reach: spec_fn(Seq<int>) -> bool,
)
    requires
        reach(prefix),
        forall|s: Seq<int>, i: int|
            reach(s) && 0 <= i < counts.len() ==> #[trigger] reach(s.push(i)),
        forall|s: Seq<int>| #[trigger] reach(s) && s.len() == prefix.len() + more ==> event(s),
    ensures
        ways(counts, more, prefix, event) == falling(total(counts), more),
    decreases more,
{
    if more > 0 {
        let rest = (more - 1) as nat;
        lemma_ways_step(counts, more, prefix, event);
        let n = total(counts);
        let step = |i: int| branch(counts, i, rest, prefix, event);
        let share = |i: int| falling(less(n, 1), rest) * counts[i];
        let copies = |i: int| counts[i];
        assert forall|i: int| 0 <= i < counts.len() implies #[trigger] step(i) == share(i) by {
            if counts[i] > 0 {
                lemma_total_after_draw(counts, i);
                lemma_ways_of_all(drawn(counts, i), rest, prefix.push(i), event, reach);
                assert(ways(drawn(counts, i), rest, prefix.push(i), event) == falling(
                    less(n, 1),
                    rest,
                ));
                assert(counts[i] * falling(less(n, 1), rest) == falling(less(n, 1), rest)
                    * counts[i]) by (nonlinear_arith);
            } else {
                assert(counts[i] == 0);
                assert(0 * ways(drawn(counts, i), rest, prefix.push(i), event) == 0)
                    by (nonlinear_arith);
                assert(falling(less(n, 1), rest) * 0 == 0) by (nonlinear_arith);
            }
        }
        lemma_sum_equal(counts.len(), step, share);
        lemma_sum_scales(counts.len(), falling(less(n, 1), rest), copies, share);
        assert(falling(less(n, 1), rest) * n == n * falling(less(n, 1), rest)) by (nonlinear_arith);
    }
}

/// With no reachable sequence in the event, there is no draw.
pub proof fn lemma_ways_of_none(
    counts: Seq<nat>,
    more: nat,
    prefix: Seq<int>,
    event: spec_fn(Seq<int>) -> bool,
    reach: spec_fn(Seq<int>) -> bool,
)
    requires
        reach(prefix),
        forall|s: Seq<int>, i: int|
            reach(s) && 0 <= i < counts.len() ==> #[trigger] reach(s.push(i)),
        forall|s: Seq<int>| #[trigger] reach(s) && s.len() == prefix.len() + more ==> !event(s),
    ensures
        ways(counts, more, prefix, event) == 0,
    decreases more,
{
    if more > 0 {
        let rest = (more - 1) as nat;
        lemma_ways_step(counts, more, prefix, event);
        let step = |i: int| branch(counts, i, rest, prefix, event);
        assert forall|i: int| 0 <= i < counts.len() implies #[trigger] step(i) == 0 by {
            lemma_ways_of_none(drawn(counts, i), rest, prefix.push(i), event, reach);
            assert(counts[i] * 0 == 0) by (nonlinear_arith);
        }
        lemma_sum_zero(counts.len(), step);
    }
}

/// Events that agree on the reachable sequences have equally many draws.
pub proof fn lemma_ways_agree(
    counts: Seq<nat>,
    more: nat,
    prefix: Seq<int>,
    left: spec_fn(Seq<int>) -> bool,
    right: spec_fn(Seq<int>) -> bool,
    reach: spec_fn(Seq<int>) -> bool,
)
    requires
        reach(prefix),
        forall|s: Seq<int>, i: int|
            reach(s) && 0 <= i < counts.len() ==> #[trigger] reach(s.push(i)),
        forall|s: Seq<int>| #[trigger]
            reach(s) && s.len() == prefix.len() + more ==> left(s) == right(s),
    ensures
        ways(counts, more, prefix, left) == ways(counts, more, prefix, right),
    decreases more,
{
    if more > 0 {
        let rest = (more - 1) as nat;
        lemma_ways_step(counts, more, prefix, left);
        lemma_ways_step(counts, more, prefix, right);
        let f = |i: int| branch(counts, i, rest, prefix, left);
        let g = |i: int| branch(counts, i, rest, prefix, right);
        assert forall|i: int| 0 <= i < counts.len() implies #[trigger] f(i) == g(i) by {
            lemma_ways_agree(drawn(counts, i), rest, prefix.push(i), left, right, reach);
        }
        lemma_sum_equal(counts.len(), f, g);
    }
}

/// Draws add: those in either event and those in both together make up the two events.
pub proof fn lemma_ways_union(
    counts: Seq<nat>,
    more: nat,
    prefix: Seq<int>,
    left: spec_fn(Seq<int>) -> bool,
    right: spec_fn(Seq<int>) -> bool,
)
    ensures
        ways(counts, more, prefix, |s: Seq<int>| left(s) || right(s)) + ways(
            counts,
            more,
            prefix,
            |s: Seq<int>| left(s) && right(s),
        ) == ways(counts, more, prefix, left) + ways(counts, more, prefix, right),
    decreases more,
{
    let either = |s: Seq<int>| left(s) || right(s);
    let both = |s: Seq<int>| left(s) && right(s);
    if more > 0 {
        let rest = (more - 1) as nat;
        lemma_ways_step(counts, more, prefix, left);
        lemma_ways_step(counts, more, prefix, right);
        lemma_ways_step(counts, more, prefix, either);
        lemma_ways_step(counts, more, prefix, both);
        let f = |i: int| branch(counts, i, rest, prefix, left);
        let g = |i: int| branch(counts, i, rest, prefix, right);
        let e = |i: int| branch(counts, i, rest, prefix, either);
        let b = |i: int| branch(counts, i, rest, prefix, both);
        let lhs = |i: int| e(i) + b(i);
        let rhs = |i: int| f(i) + g(i);
        assert forall|i: int| 0 <= i < counts.len() implies #[trigger] lhs(i) == rhs(i) by {
            lemma_ways_union(drawn(counts, i), rest, prefix.push(i), left, right);
            let n = counts[i];
            let we = ways(drawn(counts, i), rest, prefix.push(i), either);
            let wb = ways(drawn(counts, i), rest, prefix.push(i), both);
            let wf = ways(drawn(counts, i), rest, prefix.push(i), left);
            let wg = ways(drawn(counts, i), rest, prefix.push(i), right);
            assert(n * we + n * wb == n * wf + n * wg) by (nonlinear_arith)
                requires
                    we + wb == wf + wg,
            ;
        }
        lemma_sum_equal(counts.len(), lhs, rhs);
        lemma_sum_adds(counts.len(), e, b, lhs);
        lemma_sum_adds(counts.len(), f, g, rhs);
    }
}

/// The stock seen through coarser classes: class `p` gathers the classes that `class_of`
/// sends to it.
pub open spec fn gathered(counts: Seq<nat>, class_of: spec_fn(int) -> int, m: nat) -> Seq<nat> {
    Seq::new(m, |p: int| gathered_at(counts, class_of, p))
}

/// The copies of all classes that `class_of` sends to `p`.
pub open spec fn gathered_at(counts: Seq<nat>, class_of: spec_fn(int) -> int, p: int) -> nat {
    sum_to(
        counts.len(),
        |i: int|
            if class_of(i) == p {
                counts[i]
            } else {
                0
            },
    )
}

/// Drawing a copy draws one of its coarser class.
proof fn lemma_gathered_after_draw(
    counts: Seq<nat>,
    class_of: spec_fn(int) -> int,
    m: nat,
    i: int,
)
    requires
        0 <= i < counts.len(),
        counts[i] > 0,
        0 <= class_of(i) < m,
    ensures
        gathered(drawn(counts, i), class_of, m) == drawn(gathered(counts, class_of, m), class_of(i)),
{
    let before = gathered(counts, class_of, m);
    let after = gathered(drawn(counts, i), class_of, m);
    assert forall|p: int| 0 <= p < m implies #[trigger] after[p] == drawn(before, class_of(i))[p] by {
        let f = |k: int|
            if class_of(k) == p {
                counts[k]
            } else {
                0
            };
        let g = |k: int|
            if class_of(k) == p {
                drawn(counts, i)[k]
            } else {
                0
            };
        lemma_sum_replaces(counts.len(), i, f, g);
        lemma_sum_bounds_term(counts.len(), i, f);
    }
    assert(after =~= drawn(before, class_of(i)));
}

/// A sum over fine classes of a value of the coarse class is a sum over coarse classes.
proof fn lemma_sum_regroups(
    counts: Seq<nat>,
    class_of: spec_fn(int) -> int,
    m: nat,
    value: spec_fn(int) -> nat,
)
    requires
        forall|i: int| 0 <= i < counts.len() ==> 0 <= #[trigger] class_of(i) < m,
    ensures
        sum_to(counts.len(), |i: int| counts[i] * value(class_of(i))) == sum_to(
            m,
            |p: int| gathered_at(counts, class_of, p) * value(p),
        ),
{
    let n = counts.len();
    let cell = |i: int, p: int|
        if class_of(i) == p {
            counts[i] * value(p)
        } else {
            0
        };
    let rows = |i: int| sum_to(m, |p: int| cell(i, p));
    let columns = |p: int| sum_to(n, |i: int| cell(i, p));
    let fine = |i: int| counts[i] * value(class_of(i));
    let coarse = |p: int| gathered_at(counts, class_of, p) * value(p);
    lemma_sum_swaps(n, m, cell);
    assert forall|i: int| 0 <= i < n implies #[trigger] rows(i) == fine(i) by {
        lemma_sum_single(m, class_of(i), |p: int| cell(i, p));
    }
    lemma_sum_equal(n, rows, fine);
    assert forall|p: int| 0 <= p < m implies #[trigger] columns(p) == coarse(p) by {
        let member = |i: int|
            if class_of(i) == p {
                counts[i]
            } else {
                0
            };
        let column = |i: int| cell(i, p);
        assert forall|i: int| 0 <= i < n implies #[trigger] column(i) == value(p) * member(i) by {
            assert(counts[i] * value(p) == value(p) * counts[i]) by (nonlinear_arith);
            assert(value(p) * 0 == 0) by (nonlinear_arith);
        }
        lemma_sum_scales(n, value(p), member, column);
        assert(value(p) * gathered_at(counts, class_of, p) == gathered_at(counts, class_of, p)
            * value(p)) by (nonlinear_arith);
    }
    lemma_sum_equal(m, columns, coarse);
}

/// An event that looks only at coarse classes has equally many draws when the stock is
/// counted by coarse classes.
pub proof fn lemma_ways_gathered(
    counts: Seq<nat>,
    more: nat,
    prefix: Seq<int>,
    class_of: spec_fn(int) -> int,
    m: nat,
    event: spec_fn(Seq<int>) -> bool,
)
    requires
        forall|i: int| 0 <= i < counts.len() ==> 0 <= #[trigger] class_of(i) < m,
    ensures
        ways(counts, more, prefix, |s: Seq<int>| event(s.map_values(class_of))) == ways(
            gathered(counts, class_of, m),
            more,
            prefix.map_values(class_of),
            event,
        ),
    decreases more,
{
    let fine_event = |s: Seq<int>| event(s.map_values(class_of));
    let coarse_counts = gathered(counts, class_of, m);
    let coarse_prefix = prefix.map_values(class_of);
    if more > 0 {
        let rest = (more - 1) as nat;
        lemma_ways_step(counts, more, prefix, fine_event);
        lemma_ways_step(coarse_counts, more, coarse_prefix, event);
        let value = |p: int| ways(drawn(coarse_counts, p), rest, coarse_prefix.push(p), event);
        let fine = |i: int| branch(counts, i, rest, prefix, fine_event);
        let regrouped = |i: int| counts[i] * value(class_of(i));
        assert forall|i: int| 0 <= i < counts.len() implies #[trigger] fine(i) == regrouped(i) by {
            assert(prefix.push(i).map_values(class_of) =~= coarse_prefix.push(class_of(i)));
            lemma_ways_gathered(drawn(counts, i), rest, prefix.push(i), class_of, m, event);
            if counts[i] > 0 {
                lemma_gathered_after_draw(counts, class_of, m, i);
            } else {
                assert(counts[i] == 0);
                assert(0 * ways(drawn(counts, i), rest, prefix.push(i), fine_event) == 0)
                    by (nonlinear_arith);
                assert(0 * value(class_of(i)) == 0) by (nonlinear_arith);
            }
        }
        lemma_sum_equal(counts.len(), fine, regrouped);
        lemma_sum_regroups(counts, class_of, m, value);
        let coarse = |p: int| branch(coarse_counts, p, rest, coarse_prefix, event);
        let gathered_terms = |p: int| gathered_at(counts, class_of, p) * value(p);
        assert forall|p: int| 0 <= p < m implies #[trigger] coarse(p) == gathered_terms(p) by {}
        lemma_sum_equal(m, coarse, gathered_terms);
    }
}

/// Gathering keeps the number of copies.
pub proof fn lemma_gathered_total(counts: Seq<nat>, class_of: spec_fn(int) -> int, m: nat)
    requires
        forall|i: int| 0 <= i < counts.len() ==> 0 <= #[trigger] class_of(i) < m,
    ensures
        total(gathered(counts, class_of, m)) == total(counts),
{
    let one = |p: int| 1nat;
    lemma_sum_regroups(counts, class_of, m, one);
    lemma_sum_equal(
        counts.len(),
        |i: int| counts[i] * one(class_of(i)),
        |i: int| counts[i],
    );
    lemma_sum_equal(
        m,
        |p: int| gathered_at(counts, class_of, p) * one(p),
        |p: int| gathered(counts, class_of, m)[p],
    );
}

/// The sum of `value` over all sequences that extend `prefix` by `more` classes below `m`.
pub open spec fn tree(
    m: nat,
    more: nat,
    prefix: Seq<int>,
    value: spec_fn(Seq<int>) -> nat,
) -> nat
    decreases more, 0nat,
{
    if more == 0 {
        value(prefix)
    } else {
        tree_below(m, m, (more - 1) as nat, prefix, value)
    }
}

/// As `tree` with one more class than `rest`, where the next class is below `n`.
pub open spec fn tree_below(
    m: nat,
    n: nat,
    rest: nat,
    prefix: Seq<int>,
    value: spec_fn(Seq<int>) -> nat,
) -> nat
    decreases rest, n + 1,
{
    if n == 0 {
        0
    } else {
        tree_below(m, (n - 1) as nat, rest, prefix, value) + tree(
            m,
            rest,
            prefix.push(n - 1),
            value,
        )
    }
}

/// How often class `i` occurs in a sequence.
pub open spec fn occurrences(s: Seq<int>, i: int) -> nat
    decreases s.len(),
{
    if s.len() == 0 {
        0
    } else {
        occurrences(s.drop_last(), i) + if s.last() == i {
            1nat
        } else {
            0nat
        }
    }
}

/// How often each class below `m` occurs in a sequence.
pub open spec fn composition(m: nat, s: Seq<int>) -> Seq<nat> {
    Seq::new(m, |i: int| occurrences(s, i))
}

/// The product of `falling(counts[i], uses[i])` over the first `n` classes.
pub open spec fn mass(counts: Seq<nat>, uses: Seq<nat>, n: nat) -> nat
    decreases n,
{
    if n == 0 {
        1
    } else {
        mass(counts, uses, (n - 1) as nat) * falling(counts[n - 1], uses[n - 1])
    }
}

/// The stock without the copies that a sequence uses.
pub open spec fn remaining(counts: Seq<nat>, s: Seq<int>) -> Seq<nat> {
    Seq::new(counts.len(), |i: int| less(counts[i], occurrences(s, i)))
}

/// One more factor of a falling factorial, from its far end.
pub proof fn lemma_falling_extends(n: nat, k: nat)
    ensures
        falling(n, k + 1) == falling(n, k) * less(n, k),
    decreases k,
{
    if k > 0 {
        let j = (k - 1) as nat;
        lemma_falling_extends(less(n, 1), j);
        let a = falling(less(n, 1), j);
        let b = less(less(n, 1), j);
        assert(falling(less(n, 1), k) == a * b);
        assert(n * (a * b) == (n * a) * b) by (nonlinear_arith);
        if n >= 1 {
            assert(b == less(n, k));
        } else {
            assert(n * a == 0) by (nonlinear_arith)
                requires
                    n == 0,
            ;
            assert(falling(n, k) == 0);
            assert(0 * less(n, k) == 0) by (nonlinear_arith);
            assert(0 * b == 0) by (nonlinear_arith);
        }
    } else {
        reveal_with_fuel(falling, 2);
        assert(n * 1 == 1 * n);
    }
}

/// Using class `at` once more multiplies the mass by the copies left of it.
proof fn lemma_mass_extends(
    counts: Seq<nat>,
    uses: Seq<nat>,
    more_uses: Seq<nat>,
    at: int,
    n: nat,
)
    requires
        n <= counts.len(),
        n <= uses.len(),
        n <= more_uses.len(),
        0 <= at,
        forall|i: int| 0 <= i < n && i != at ==> uses[i] == more_uses[i],
        at < n ==> more_uses[at] == uses[at] + 1,
    ensures
        at < n ==> mass(counts, more_uses, n) == mass(counts, uses, n) * less(counts[at], uses[at]),
        at >= n ==> mass(counts, more_uses, n) == mass(counts, uses, n),
    decreases n,
{
    if n > 0 {
        let k = (n - 1) as nat;
        lemma_mass_extends(counts, uses, more_uses, at, k);
        let a = mass(counts, uses, k);
        let b = falling(counts[k as int], uses[k as int]);
        if at == k {
            lemma_falling_extends(counts[at], uses[at]);
            let c = less(counts[at], uses[at]);
            assert(a * (b * c) == (a * b) * c) by (nonlinear_arith);
        } else if at < k {
            let c = less(counts[at], uses[at]);
            assert((a * c) * b == (a * b) * c) by (nonlinear_arith);
        }
    }
}

/// The value of a sequence in the sum that counts an event: its mass, or nothing.
pub open spec fn mass_in(
    counts: Seq<nat>,
    event: spec_fn(Seq<int>) -> bool,
) -> spec_fn(Seq<int>) -> nat {
    |s: Seq<int>|
        if event(s) {
            mass(counts, composition(counts.len(), s), counts.len())
        } else {
            0
        }
}

/// The draws that form an event are the sum of the masses of its class sequences: copies
/// of one class are told apart only by how often the class is used.
pub proof fn lemma_ways_by_mass(
    counts: Seq<nat>,
    more: nat,
    prefix: Seq<int>,
    event: spec_fn(Seq<int>) -> bool,
)
    requires
        forall|k: int| 0 <= k < prefix.len() ==> 0 <= #[trigger] prefix[k] < counts.len(),
    ensures
        mass(counts, composition(counts.len(), prefix), counts.len()) * ways(
            remaining(counts, prefix),
            more,
            prefix,
            event,
        ) == tree(counts.len(), more, prefix, mass_in(counts, event)),
    decreases more, 0nat,
{
    let m = counts.len();
    let uses = composition(m, prefix);
    let left = remaining(counts, prefix);
    if more == 0 {
        assert(mass(counts, uses, m) * 1 == mass(counts, uses, m));
        assert(mass(counts, uses, m) * 0 == 0) by (nonlinear_arith);
    } else {
        let rest = (more - 1) as nat;
        lemma_ways_by_mass_below(counts, m, rest, prefix, event);
        lemma_ways_step(left, more, prefix, event);
    }
}

proof fn lemma_ways_by_mass_below(
    counts: Seq<nat>,
    n: nat,
    rest: nat,
    prefix: Seq<int>,
    event: spec_fn(Seq<int>) -> bool,
)
    requires
        n <= counts.len(),
        forall|k: int| 0 <= k < prefix.len() ==> 0 <= #[trigger] prefix[k] < counts.len(),
    ensures
        mass(counts, composition(counts.len(), prefix), counts.len()) * sum_to(
            n,
            |i: int| branch(remaining(counts, prefix), i, rest, prefix, event),
        ) == tree_below(counts.len(), n, rest, prefix, mass_in(counts, event)),
    decreases rest, n + 1,
{
    let m = counts.len();
    let uses = composition(m, prefix);
    let left = remaining(counts, prefix);
    let w = mass(counts, uses, m);
    if n == 0 {
        assert(w * 0 == 0) by (nonlinear_arith);
    } else {
        let i = n - 1;
        lemma_ways_by_mass_below(counts, i as nat, rest, prefix, event);
        let longer = prefix.push(i);
        let more_uses = composition(m, longer);
        assert(longer.drop_last() =~= prefix);
        assert(remaining(counts, longer) =~= drawn(left, i));
        lemma_mass_extends(counts, uses, more_uses, i, m);
        lemma_ways_by_mass(counts, rest, longer, event);
        let deeper = ways(drawn(left, i), rest, longer, event);
        let before = sum_to(i as nat, |k: int| branch(left, k, rest, prefix, event));
        assert(branch(left, i, rest, prefix, event) == left[i] * deeper);
        assert(w * (before + left[i] * deeper) == w * before + (w * left[i]) * deeper)
            by (nonlinear_arith);
    }
}

/// More factors make a falling factorial larger as long as they are all positive.
pub proof fn lemma_falling_grows(n: nat, k: nat, l: nat)
    requires
        k <= l <= n,
    ensures
        0 < falling(n, k) <= falling(n, l),
    decreases l,
{
    if k < l {
        lemma_falling_grows(n, k, (l - 1) as nat);
        lemma_falling_extends(n, (l - 1) as nat);
        let a = falling(n, (l - 1) as nat);
        let b = less(n, (l - 1) as nat);
        assert(a * b >= a) by (nonlinear_arith)
            requires
                b >= 1,
        ;
    } else {
        lemma_falling_positive(n, k);
    }
}

proof fn lemma_falling_positive(n: nat, k: nat)
    requires
        k <= n,
    ensures
        falling(n, k) > 0,
    decreases k,
{
    if k > 0 {
        lemma_falling_positive((n - 1) as nat, (k - 1) as nat);
        let a = falling((n - 1) as nat, (k - 1) as nat);
        assert(n * a > 0) by (nonlinear_arith)
            requires
                n > 0,
                a > 0,
        ;
    }
}

/// A falling factorial of a larger number is larger.
pub proof fn lemma_falling_monotone(a: nat, b: nat, k: nat)
    requires
        a <= b,
    ensures
        falling(a, k) <= falling(b, k),
    decreases k,
{
    if k > 0 {
        lemma_falling_monotone(less(a, 1), less(b, 1), (k - 1) as nat);
        let x = falling(less(a, 1), (k - 1) as nat);
        let y = falling(less(b, 1), (k - 1) as nat);
        assert(a * x <= b * y) by (nonlinear_arith)
            requires
                a <= b,
                x <= y,
        ;
    }
}

/// A smaller event has no more draws.
pub proof fn lemma_ways_subset(
    counts: Seq<nat>,
    more: nat,
    prefix: Seq<int>,
    small: spec_fn(Seq<int>) -> bool,
    large: spec_fn(Seq<int>) -> bool,
)
    requires
        forall|s: Seq<int>| #[trigger] small(s) ==> large(s),
    ensures
        ways(counts, more, prefix, small) <= ways(counts, more, prefix, large),
    decreases more,
{
    if more > 0 {
        let rest = (more - 1) as nat;
        lemma_ways_step(counts, more, prefix, small);
        lemma_ways_step(counts, more, prefix, large);
        let f = |i: int| branch(counts, i, rest, prefix, small);
        let g = |i: int| branch(counts, i, rest, prefix, large);
        assert forall|i: int| 0 <= i < counts.len() implies #[trigger] f(i) <= g(i) by {
            lemma_ways_subset(drawn(counts, i), rest, prefix.push(i), small, large);
            let a = ways(drawn(counts, i), rest, prefix.push(i), small);
            let b = ways(drawn(counts, i), rest, prefix.push(i), large);
            let n = counts[i];
            assert(n * a <= n * b) by (nonlinear_arith)
                requires
                    a <= b,
            ;
        }
        lemma_sum_at_most(counts.len(), f, g);
    } else {
        assert(small(prefix) ==> large(prefix));
    }
}

/// The draws of all sequences are those of a falling factorial.
pub proof fn lemma_ways_of_everything(counts: Seq<nat>, more: nat, prefix: Seq<int>)
    ensures
        ways(counts, more, prefix, |s: Seq<int>| true) == falling(total(counts), more),
{
    let everything = |s: Seq<int>| true;
    lemma_ways_of_all(counts, more, prefix, everything, everything);
}

/// No event has more draws than there are.
pub proof fn lemma_ways_at_most(
    counts: Seq<nat>,
    more: nat,
    prefix: Seq<int>,
    event: spec_fn(Seq<int>) -> bool,
)
    ensures
        ways(counts, more, prefix, event) <= falling(total(counts), more),
{
    lemma_ways_of_everything(counts, more, prefix);
    lemma_ways_subset(counts, more, prefix, event, |s: Seq<int>| true);
}

/// The draws of an event that splits into two disjoint parts.
pub proof fn lemma_ways_split(
    counts: Seq<nat>,
    more: nat,
    prefix: Seq<int>,
    whole: spec_fn(Seq<int>) -> bool,
    left: spec_fn(Seq<int>) -> bool,
    right: spec_fn(Seq<int>) -> bool,
)
    requires
        forall|s: Seq<int>| #[trigger] whole(s) == (left(s) || right(s)),
        forall|s: Seq<int>| !(#[trigger] left(s) && right(s)),
    ensures
        ways(counts, more, prefix, whole) == ways(counts, more, prefix, left) + ways(
            counts,
            more,
            prefix,
            right,
        ),
{
    let either = |s: Seq<int>| left(s) || right(s);
    let both = |s: Seq<int>| left(s) && right(s);
    let anything = |s: Seq<int>| true;
    lemma_ways_union(counts, more, prefix, left, right);
    lemma_ways_of_none(counts, more, prefix, both, anything);
    lemma_ways_agree(counts, more, prefix, whole, either, anything);
}

/// A shorter sum of the same terms is no larger.
pub proof fn lemma_sum_prefix(n: nat, m: nat, f: spec_fn(int) -> nat)
    requires
        n <= m,
    ensures
        sum_to(n, f) <= sum_to(m, f),
    decreases m,
{
    if n < m {
        lemma_sum_prefix(n, (m - 1) as nat, f);
    }
}

/// `base` to the power of `k`.
pub open spec fn power(base: nat, k: nat) -> nat
    decreases k,
{
    if k == 0 {
        1
    } else {
        base * power(base, (k - 1) as nat)
    }
}

/// Powers multiply by adding exponents.
pub proof fn lemma_power_adds(base: nat, k: nat, l: nat)
    ensures
        power(base, k + l) == power(base, k) * power(base, l),
    decreases k,
{
    if k == 0 {
        assert(1 * power(base, l) == power(base, l));
    } else {
        lemma_power_adds(base, (k - 1) as nat, l);
        let a = power(base, (k - 1) as nat);
        let b = power(base, l);
        assert(base * (a * b) == (base * a) * b) by (nonlinear_arith);
        assert((k - 1) as nat + l == (k + l - 1) as nat);
    }
}

/// Powers of a positive base grow with the exponent.
pub proof fn lemma_power_grows(base: nat, k: nat, l: nat)
    requires
        base >= 1,
        k <= l,
    ensures
        1 <= power(base, k) <= power(base, l),
    decreases l,
{
    if l == 0 {
    } else if k < l {
        lemma_power_grows(base, k, (l - 1) as nat);
        let a = power(base, (l - 1) as nat);
        assert(base * a >= a) by (nonlinear_arith)
            requires
                base >= 1,
        ;
    } else {
        lemma_power_grows(base, (k - 1) as nat, (l - 1) as nat);
        let a = power(base, (l - 1) as nat);
        assert(base * a >= a) by (nonlinear_arith)
            requires
                base >= 1,
        ;
    }
}

/// A falling factorial has no factor above its base.
pub proof fn lemma_falling_at_most_power(n: nat, base: nat, k: nat)
    requires
        n <= base,
    ensures
        falling(n, k) <= power(base, k),
    decreases k,
{
    if k > 0 {
        lemma_falling_at_most_power(less(n, 1), base, (k - 1) as nat);
        let a = falling(less(n, 1), (k - 1) as nat);
        let b = power(base, (k - 1) as nat);
        assert(n * a <= base * b) by (nonlinear_arith)
            requires
                n <= base,
                a <= b,
        ;
    }
}

/// The mass of `k` uses of classes with at most `base` copies is at most `base` to the `k`.
pub proof fn lemma_mass_at_most(counts: Seq<nat>, uses: Seq<nat>, n: nat, base: nat)
    requires
        n <= counts.len(),
        n <= uses.len(),
        forall|i: int| 0 <= i < n ==> #[trigger] counts[i] <= base,
    ensures
        mass(counts, uses, n) <= power(base, sum_to(n, |i: int| uses[i])),
    decreases n,
{
    if n > 0 {
        let k = (n - 1) as nat;
        lemma_mass_at_most(counts, uses, k, base);
        lemma_falling_at_most_power(counts[k as int], base, uses[k as int]);
        let so_far = sum_to(k, |i: int| uses[i]);
        lemma_power_adds(base, so_far, uses[k as int]);
        let a = mass(counts, uses, k);
        let b = falling(counts[k as int], uses[k as int]);
        let c = power(base, so_far);
        let d = power(base, uses[k as int]);
        assert(a * b <= c * d) by (nonlinear_arith)
            requires
                a <= c,
                b <= d,
        ;
    }
}

/// Nothing used has mass one.
pub proof fn lemma_mass_of_nothing(counts: Seq<nat>, uses: Seq<nat>, n: nat)
    requires
        n <= counts.len(),
        n <= uses.len(),
        forall|i: int| 0 <= i < n ==> #[trigger] uses[i] == 0,
    ensures
        mass(counts, uses, n) == 1,
    decreases n,
{
    if n > 0 {
        lemma_mass_of_nothing(counts, uses, (n - 1) as nat);
        assert(uses[n - 1] == 0);
        assert(1 * 1 == 1);
    }
}

/// The draws of an event are the masses of its class sequences, starting from nothing.
pub proof fn lemma_ways_is_tree(counts: Seq<nat>, more: nat, event: spec_fn(Seq<int>) -> bool)
    ensures
        ways(counts, more, Seq::empty(), event) == tree(
            counts.len(),
            more,
            Seq::empty(),
            mass_in(counts, event),
        ),
{
    let nothing = Seq::<int>::empty();
    lemma_ways_by_mass(counts, more, nothing, event);
    lemma_mass_of_nothing(counts, composition(counts.len(), nothing), counts.len());
    assert(remaining(counts, nothing) =~= counts);
    assert(1 * ways(counts, more, nothing, event) == ways(counts, more, nothing, event));
}

/// The copies of one class are no more than all.
pub proof fn lemma_count_at_most_total(counts: Seq<nat>, i: int)
    requires
        0 <= i < counts.len(),
    ensures
        counts[i] <= total(counts),
{
    lemma_sum_bounds_term(counts.len(), i, |k: int| counts[k]);
}

/// The draws that go on below class `n` are no more than all.
pub proof fn lemma_ways_below_at_most(
    counts: Seq<nat>,
    n: nat,
    rest: nat,
    prefix: Seq<int>,
    event: spec_fn(Seq<int>) -> bool,
)
    requires
        n <= counts.len(),
    ensures
        ways_below(counts, n, rest, prefix, event) <= ways(
            counts,
            rest + 1,
            prefix,
            event,
        ),
    decreases counts.len() - n,
{
    if n < counts.len() {
        lemma_ways_below_at_most(counts, n + 1, rest, prefix, event);
    }
}

} // verus!
