//! Ranking items by an order on them, and counting the different ones.

use vstd::prelude::*;

verus! {

/// A type whose values stand in a linear order.
pub trait Sortable: View + Sized {
    /// Whether a value comes before another or is equal to it.
    spec fn at_most(self, other: Self) -> bool;

    /// Of two values one comes before the other or they are equal.
    proof fn order_is_total(a: Self, b: Self)
        ensures
            a.at_most(b) || b.at_most(a),
    ;

    /// The order carries over.
    proof fn order_is_transitive(a: Self, b: Self, c: Self)
        requires
            a.at_most(b),
            b.at_most(c),
        ensures
            a.at_most(c),
    ;

    /// Values that come before each other are equal, and equal values do.
    proof fn order_tells_values_apart(a: Self, b: Self)
        ensures
            a.at_most(b) && b.at_most(a) <==> a@ == b@,
    ;

    /// Tells whether a value comes before another or is equal to it.
    fn is_at_most(&self, other: &Self) -> (result: bool)
        ensures
            result == self.at_most(*other),
    ;
}

/// Whether a text comes before another in the order of its characters, or is equal to it,
/// looking at the characters from `at` on.
pub open spec fn text_at_most(a: Seq<char>, b: Seq<char>, at: int) -> bool
    decreases a.len() - at,
{
    if at >= a.len() {
        true
    } else if at >= b.len() {
        false
    } else if a[at] == b[at] {
        text_at_most(a, b, at + 1)
    } else {
        (a[at] as int) < (b[at] as int)
    }
}

proof fn lemma_text_total(a: Seq<char>, b: Seq<char>, at: int)
    requires
        0 <= at,
    ensures
        text_at_most(a, b, at) || text_at_most(b, a, at),
    decreases a.len() - at,
{
    if at < a.len() && at < b.len() && a[at] == b[at] {
        lemma_text_total(a, b, at + 1);
    }
}

proof fn lemma_text_transitive(a: Seq<char>, b: Seq<char>, c: Seq<char>, at: int)
    requires
        0 <= at,
        text_at_most(a, b, at),
        text_at_most(b, c, at),
    ensures
        text_at_most(a, c, at),
    decreases a.len() - at,
{
    if at < a.len() && at < b.len() && at < c.len() && a[at] == b[at] && b[at] == c[at] {
        lemma_text_transitive(a, b, c, at + 1);
    }
}

proof fn lemma_text_reflexive(a: Seq<char>, at: int)
    requires
        0 <= at,
    ensures
        text_at_most(a, a, at),
    decreases a.len() - at,
{
    if at < a.len() {
        lemma_text_reflexive(a, at + 1);
    }
}

proof fn lemma_text_antisymmetric(a: Seq<char>, b: Seq<char>, at: int)
    requires
        0 <= at,
        at <= a.len(),
        at <= b.len(),
        text_at_most(a, b, at),
        text_at_most(b, a, at),
        forall|i: int| 0 <= i < at ==> a[i] == b[i],
    ensures
        a =~= b,
    decreases a.len() - at,
{
    if at < a.len() && at < b.len() {
        lemma_text_antisymmetric(a, b, at + 1);
    }
}

/// Texts stand in a linear order: it is total, it carries over and it tells texts apart.
pub proof fn lemma_text_order(a: Seq<char>, b: Seq<char>, c: Seq<char>)
    ensures
        text_at_most(a, b, 0) || text_at_most(b, a, 0),
        text_at_most(a, b, 0) && text_at_most(b, c, 0) ==> text_at_most(a, c, 0),
        text_at_most(a, b, 0) && text_at_most(b, a, 0) <==> a == b,
{
    lemma_text_total(a, b, 0);
    lemma_text_reflexive(a, 0);
    if text_at_most(a, b, 0) && text_at_most(b, c, 0) {
        lemma_text_transitive(a, b, c, 0);
    }
    if text_at_most(a, b, 0) && text_at_most(b, a, 0) {
        lemma_text_antisymmetric(a, b, 0);
    }
}

impl Sortable for Vec<char> {
    open spec fn at_most(self, other: Self) -> bool {
        text_at_most(self@, other@, 0)
    }

    proof fn order_is_total(a: Self, b: Self) {
        lemma_text_total(a@, b@, 0);
    }

    proof fn order_is_transitive(a: Self, b: Self, c: Self) {
        lemma_text_transitive(a@, b@, c@, 0);
    }

    proof fn order_tells_values_apart(a: Self, b: Self) {
        lemma_text_reflexive(a@, 0);
        if a.at_most(b) && b.at_most(a) {
            lemma_text_antisymmetric(a@, b@, 0);
        }
    }

    fn is_at_most(&self, other: &Self) -> (result: bool) {
        let mut at: usize = 0;
        while at < self.len()
            invariant
                at <= self.len(),
                text_at_most(self@, other@, 0) == text_at_most(self@, other@, at as int),
            decreases self.len() - at,
        {
            if at >= other.len() {
                return false;
            }
            let a: char = self[at];
            let b: char = other[at];
            if a != b {
                return a < b;
            }
            at = at + 1;
        }
        true
    }
}

impl Sortable for u64 {
    open spec fn at_most(self, other: Self) -> bool {
        self <= other
    }

    proof fn order_is_total(a: Self, b: Self) {
    }

    proof fn order_is_transitive(a: Self, b: Self, c: Self) {
    }

    proof fn order_tells_values_apart(a: Self, b: Self) {
    }

    fn is_at_most(&self, other: &Self) -> (result: bool) {
        *self <= *other
    }
}

impl Sortable for (u64, u64) {
    open spec fn at_most(self, other: Self) -> bool {
        self.0 < other.0 || (self.0 == other.0 && self.1 <= other.1)
    }

    proof fn order_is_total(a: Self, b: Self) {
    }

    proof fn order_is_transitive(a: Self, b: Self, c: Self) {
    }

    proof fn order_tells_values_apart(a: Self, b: Self) {
    }

    fn is_at_most(&self, other: &Self) -> (result: bool) {
        self.0 < other.0 || (self.0 == other.0 && self.1 <= other.1)
    }
}

impl Sortable for (u64, u64, u32) {
    open spec fn at_most(self, other: Self) -> bool {
        self.0 < other.0 || (self.0 == other.0 && (self.1 < other.1 || (self.1 == other.1 && self.2
            <= other.2)))
    }

    proof fn order_is_total(a: Self, b: Self) {
    }

    proof fn order_is_transitive(a: Self, b: Self, c: Self) {
    }

    proof fn order_tells_values_apart(a: Self, b: Self) {
    }

    fn is_at_most(&self, other: &Self) -> (result: bool) {
        self.0 < other.0 || (self.0 == other.0 && (self.1 < other.1 || (self.1 == other.1 && self.2
            <= other.2)))
    }
}

/// A text, then a place: the order in time.
pub struct TimeKey {
    pub time: Vec<char>,
    pub place: (u64, u64, u32),
}

impl View for TimeKey {
    type V = (Seq<char>, (u64, u64, u32));

    open spec fn view(&self) -> (Seq<char>, (u64, u64, u32)) {
        (self.time@, self.place)
    }
}

impl Sortable for TimeKey {
    open spec fn at_most(self, other: Self) -> bool {
        self.time.at_most(other.time) && (!other.time.at_most(self.time) || self.place.at_most(
            other.place,
        ))
    }

    proof fn order_is_total(a: Self, b: Self) {
        Vec::<char>::order_is_total(a.time, b.time);
        <(u64, u64, u32)>::order_is_total(a.place, b.place);
    }

    proof fn order_is_transitive(a: Self, b: Self, c: Self) {
        Vec::<char>::order_is_transitive(a.time, b.time, c.time);
        if c.time.at_most(a.time) {
            Vec::<char>::order_is_transitive(c.time, a.time, b.time);
            Vec::<char>::order_is_transitive(b.time, c.time, a.time);
            <(u64, u64, u32)>::order_is_transitive(a.place, b.place, c.place);
        }
    }

    proof fn order_tells_values_apart(a: Self, b: Self) {
        Vec::<char>::order_tells_values_apart(a.time, b.time);
        <(u64, u64, u32)>::order_tells_values_apart(a.place, b.place);
    }

    fn is_at_most(&self, other: &Self) -> (result: bool) {
        self.time.is_at_most(&other.time) && (!other.time.is_at_most(&self.time)
            || self.place.is_at_most(&other.place))
    }
}

/// Whether the item at one position ranks before that at another: by the order, and by the
/// position where they are equal.
pub open spec fn ahead<T: Sortable>(items: Seq<T>, i: int, j: int) -> bool {
    items[i].at_most(items[j]) && (!items[j].at_most(items[i]) || i < j)
}

/// Whether `ranks` lists every position of a range once, each ahead of the next ones.
pub open spec fn is_ranking<T: Sortable>(
    items: Seq<T>,
    ranks: Seq<usize>,
    from: int,
    to: int,
) -> bool {
    &&& forall|k: int| 0 <= k < ranks.len() ==> from <= #[trigger] ranks[k] < to
    &&& forall|i: usize| from <= i < to ==> #[trigger] ranks.contains(i)
    &&& forall|a: int, b: int|
        #![trigger ranks[a], ranks[b]]
        0 <= a < b < ranks.len() ==> ahead(items, ranks[a] as int, ranks[b] as int)
}

/// No position stands twice in a ranking, so it is as long as the range.
pub proof fn lemma_ranking_length<T: Sortable>(
    items: Seq<T>,
    ranks: Seq<usize>,
    from: int,
    to: int,
)
    requires
        is_ranking(items, ranks, from, to),
        0 <= from <= to <= usize::MAX,
    ensures
        ranks.no_duplicates(),
        ranks.len() == to - from,
    decreases to - from,
{
    assert forall|a: int, b: int|
        0 <= a < ranks.len() && 0 <= b < ranks.len() && a != b implies ranks[a] != ranks[b] by {
        if a < b {
            assert(ahead(items, ranks[a] as int, ranks[b] as int));
        } else {
            assert(ahead(items, ranks[b] as int, ranks[a] as int));
        }
    }
    let spots = ranks.map_values(|i: usize| i as int);
    let range = vstd::set_lib::set_int_range(from, to);
    vstd::set_lib::lemma_int_range(from, to);
    assert(spots.no_duplicates());
    spots.unique_seq_to_set();
    assert forall|i: int| spots.to_set().contains(i) <==> range.contains(i) by {
        if range.contains(i) {
            assert(ranks.contains(i as usize));
            let k = choose|k: int| 0 <= k < ranks.len() && ranks[k] == i as usize;
            assert(spots[k] == i);
        }
        if spots.to_set().contains(i) {
            let k = choose|k: int| 0 <= k < spots.len() && spots[k] == i;
            assert(spots[k] == ranks[k]);
        }
    }
    assert(spots.to_set() =~= range);
}

/// Ranks the positions of the items.
pub fn ranked_positions<T: Sortable>(items: &Vec<T>) -> (ranks: Vec<usize>)
    ensures
        is_ranking(items@, ranks@, 0, items.len() as int),
        ranks.len() == items.len(),
{
    let ranks: Vec<usize> = rank_range(items, 0, items.len());
    proof {
        lemma_ranking_length(items@, ranks@, 0, items.len() as int);
    }
    ranks
}

fn rank_range<T: Sortable>(items: &Vec<T>, from: usize, to: usize) -> (ranks: Vec<usize>)
    requires
        from <= to <= items.len(),
    ensures
        is_ranking(items@, ranks@, from as int, to as int),
    decreases to - from,
{
    let mut ranks: Vec<usize> = Vec::new();
    if to - from == 0 {
        return ranks;
    }
    if to - from == 1 {
        ranks.push(from);
        proof {
            assert(ranks@[0] == from);
        }
        return ranks;
    }
    let middle: usize = from + (to - from) / 2;
    let left: Vec<usize> = rank_range(items, from, middle);
    let right: Vec<usize> = rank_range(items, middle, to);
    merge(items, &left, &right, from, middle, to)
}

fn merge<T: Sortable>(
    items: &Vec<T>,
    left: &Vec<usize>,
    right: &Vec<usize>,
    from: usize,
    middle: usize,
    to: usize,
) -> (ranks: Vec<usize>)
    requires
        from <= middle <= to <= items.len(),
        is_ranking(items@, left@, from as int, middle as int),
        is_ranking(items@, right@, middle as int, to as int),
    ensures
        is_ranking(items@, ranks@, from as int, to as int),
{
    let mut ranks: Vec<usize> = Vec::new();
    let mut l: usize = 0;
    let mut r: usize = 0;
    while l < left.len() || r < right.len()
        invariant
            from <= middle <= to <= items.len(),
            is_ranking(items@, left@, from as int, middle as int),
            is_ranking(items@, right@, middle as int, to as int),
            l <= left.len(),
            r <= right.len(),
            forall|k: int| 0 <= k < ranks.len() ==> from <= #[trigger] ranks@[k] < to,
            forall|k: int| 0 <= k < l ==> ranks@.contains(#[trigger] left@[k]),
            forall|k: int| 0 <= k < r ==> ranks@.contains(#[trigger] right@[k]),
            forall|a: int, b: int|
                #![trigger ranks@[a], ranks@[b]]
                0 <= a < b < ranks.len() ==> ahead(items@, ranks@[a] as int, ranks@[b] as int),
            forall|k: int, j: int|
                #![trigger ranks@[k], left@[j]]
                0 <= k < ranks.len() && l <= j < left.len() ==> ahead(
                    items@,
                    ranks@[k] as int,
                    left@[j] as int,
                ),
            forall|k: int, j: int|
                #![trigger ranks@[k], right@[j]]
                0 <= k < ranks.len() && r <= j < right.len() ==> ahead(
                    items@,
                    ranks@[k] as int,
                    right@[j] as int,
                ),
        decreases (left.len() - l) + (right.len() - r),
    {
        let take_left: bool = if l >= left.len() {
            false
        } else if r >= right.len() {
            true
        } else {
            items[left[l]].is_at_most(&items[right[r]])
        };
        let ghost before = ranks@;
        if take_left {
            let next: usize = left[l];
            proof {
                assert forall|j: int| #![trigger right@[j]] r <= j < right.len() implies ahead(
                    items@,
                    next as int,
                    right@[j] as int,
                ) by {
                    let first = right@[r as int] as int;
                    if j > r {
                        assert(ahead(items@, first, right@[j] as int));
                        T::order_is_transitive(
                            items@[next as int],
                            items@[first],
                            items@[right@[j] as int],
                        );
                    }
                    assert(right@[j] >= middle);
                }
            }
            ranks.push(next);
            l = l + 1;
        } else {
            let next: usize = right[r];
            proof {
                assert forall|j: int| #![trigger left@[j]] l <= j < left.len() implies ahead(
                    items@,
                    next as int,
                    left@[j] as int,
                ) by {
                    let first = left@[l as int] as int;
                    let one = items@[next as int];
                    T::order_is_total(items@[first], one);
                    let other = items@[left@[j] as int];
                    if j > l {
                        assert(ahead(items@, first, left@[j] as int));
                        T::order_is_transitive(one, items@[first], other);
                        if other.at_most(one) {
                            T::order_is_transitive(items@[first], other, one);
                        }
                    }
                }
            }
            ranks.push(next);
            r = r + 1;
        }
        proof {
            assert(ranks@ == before.push(ranks@.last()));
            assert forall|k: int| 0 <= k < l implies ranks@.contains(#[trigger] left@[k]) by {
                if k < l && before.contains(left@[k]) {
                    let at = choose|at: int| 0 <= at < before.len() && before[at] == left@[k];
                    assert(ranks@[at] == left@[k]);
                } else {
                    assert(ranks@[before.len() as int] == left@[k]);
                }
            }
            assert forall|k: int| 0 <= k < r implies ranks@.contains(#[trigger] right@[k]) by {
                if k < r && before.contains(right@[k]) {
                    let at = choose|at: int| 0 <= at < before.len() && before[at] == right@[k];
                    assert(ranks@[at] == right@[k]);
                } else {
                    assert(ranks@[before.len() as int] == right@[k]);
                }
            }
        }
    }
    proof {
        assert forall|i: usize| from <= i < to implies #[trigger] ranks@.contains(i) by {
            if i < middle {
                assert(left@.contains(i));
                let k = choose|k: int| 0 <= k < left.len() && left@[k] == i;
                assert(ranks@.contains(left@[k]));
            } else {
                assert(right@.contains(i));
                let k = choose|k: int| 0 <= k < right.len() && right@[k] == i;
                assert(ranks@.contains(right@[k]));
            }
        }
    }
    ranks
}

/// The values of items.
pub open spec fn values_of<T: View>(items: Seq<T>) -> Seq<T::V> {
    items.map_values(|item: T| item@)
}

/// Counts the different values among the items.
pub fn distinct_count<T: Sortable>(items: &Vec<T>) -> (count: usize)
    ensures
        count == values_of(items@).to_set().len(),
        count <= items.len(),
{
    let ranks: Vec<usize> = ranked_positions(items);
    let mut count: usize = 0;
    let mut k: usize = 0;
    let ghost mut seen: Set<T::V> = Set::empty();
    while k < ranks.len()
        invariant
            k <= ranks.len() == items.len(),
            count <= k,
            is_ranking(items@, ranks@, 0, items.len() as int),
            seen.finite(),
            seen.len() == count,
            forall|v: T::V| #[trigger]
                seen.contains(v) <==> exists|j: int|
                    0 <= j < k && items@[#[trigger] ranks@[j] as int]@ == v,
        decreases ranks.len() - k,
    {
        let fresh: bool = k == 0 || !items[ranks[k]].is_at_most(&items[ranks[k - 1]]);
        let ghost value = items@[ranks@[k as int] as int]@;
        proof {
            let now = items@[ranks@[k as int] as int];
            if k > 0 {
                let last = items@[ranks@[k - 1] as int];
                assert(ahead(items@, ranks@[k - 1] as int, ranks@[k as int] as int));
                T::order_tells_values_apart(now, last);
                if fresh {
                    assert forall|j: int| 0 <= j < k implies items@[#[trigger] ranks@[j] as int]@
                        != value by {
                        let earlier = items@[ranks@[j] as int];
                        T::order_tells_values_apart(now, earlier);
                        if j < k - 1 {
                            assert(ahead(items@, ranks@[j] as int, ranks@[k - 1] as int));
                            if now.at_most(earlier) {
                                T::order_is_transitive(now, earlier, last);
                            }
                        }
                    }
                    assert(!seen.contains(value));
                } else {
                    assert(items@[ranks@[k - 1] as int]@ == value);
                    assert(seen.contains(value));
                }
            } else {
                assert(!seen.contains(value));
            }
            let grown = seen.insert(value);
            assert forall|v: T::V| #[trigger]
                grown.contains(v) <==> exists|j: int|
                    0 <= j < k + 1 && items@[#[trigger] ranks@[j] as int]@ == v by {
                if grown.contains(v) {
                    if v == value {
                        assert(items@[ranks@[k as int] as int]@ == v);
                    } else {
                        assert(seen.contains(v));
                        let j = choose|j: int|
                            0 <= j < k && items@[#[trigger] ranks@[j] as int]@ == v;
                        assert(0 <= j < k + 1 && items@[ranks@[j] as int]@ == v);
                    }
                }
                if exists|j: int| 0 <= j < k + 1 && items@[#[trigger] ranks@[j] as int]@ == v {
                    let j = choose|j: int|
                        0 <= j < k + 1 && items@[#[trigger] ranks@[j] as int]@ == v;
                    if j < k {
                        assert(0 <= j < k && items@[ranks@[j] as int]@ == v);
                        assert(seen.contains(v));
                    }
                }
            }
            if !fresh {
                assert(grown =~= seen);
            }
            seen = grown;
        }
        if fresh {
            count = count + 1;
        }
        k = k + 1;
    }
    proof {
        let all = values_of(items@).to_set();
        assert forall|v: T::V| seen.contains(v) <==> all.contains(v) by {
            if seen.contains(v) {
                let j = choose|j: int| 0 <= j < k && items@[#[trigger] ranks@[j] as int]@ == v;
                assert(values_of(items@)[ranks@[j] as int] == v);
            }
            if all.contains(v) {
                let i = choose|i: int| 0 <= i < values_of(items@).len() && values_of(items@)[i] == v;
                assert(ranks@.contains(i as usize));
                let j = choose|j: int| 0 <= j < ranks.len() && ranks@[j] == i as usize;
                assert(items@[ranks@[j] as int]@ == v);
            }
        }
        assert(seen =~= all);
    }
    count
}

/// Items whose values are as many as they are have no value twice.
pub proof fn lemma_all_different<V>(values: Seq<V>)
    requires
        values.to_set().len() == values.len(),
    ensures
        values.no_duplicates(),
{
    assert forall|a: int, b: int|
        0 <= a < values.len() && 0 <= b < values.len() && a != b implies values[a]
        != values[b] by {
        if values[a] == values[b] {
            let shorter = values.remove(b);
            shorter.lemma_cardinality_of_set();
            assert forall|v: V| values.to_set().contains(v) <==> shorter.to_set().contains(v) by {
                if values.to_set().contains(v) {
                    let i = choose|i: int| 0 <= i < values.len() && values[i] == v;
                    let j = if i == b {
                        a
                    } else {
                        i
                    };
                    let at = if j < b {
                        j
                    } else {
                        j - 1
                    };
                    assert(shorter[at] == v);
                }
                if shorter.to_set().contains(v) {
                    let i = choose|i: int| 0 <= i < shorter.len() && shorter[i] == v;
                    let at = if i < b {
                        i
                    } else {
                        i + 1
                    };
                    assert(values[at] == v);
                }
            }
            assert(values.to_set() =~= shorter.to_set());
        }
    }
}

} // verus!
