//! Which recorded rounds can be replayed, and in what order.
//!
//! A shoe is known before each of its rounds only if its rounds are recorded from the first one
//! on, without a gap and with valid cards. The other shoes are left out as a whole.

use vstd::prelude::*;

use crate::baccarat::load;
use crate::baccarat::records::{CsvQualityReport, LoadedRound};
use crate::sorting;
use crate::sorting::{Sortable, TimeKey};
use crate::text;

verus! {

/// Whether a row belongs to a shoe.
pub open spec fn member(rounds: Seq<LoadedRound>, session: (u64, u64), i: int) -> bool {
    0 <= i < rounds.len() && rounds[i].session() == session
}

/// Whether the first recorded round of a shoe is number one.
pub open spec fn starts_at_one(rounds: Seq<LoadedRound>, session: (u64, u64)) -> bool {
    &&& exists|i: int| #[trigger] member(rounds, session, i) && rounds[i].round_no == 1
    &&& forall|i: int| #[trigger] member(rounds, session, i) ==> rounds[i].round_no >= 1
}

/// Whether a round of a shoe is missing between two recorded ones.
pub open spec fn has_gap(rounds: Seq<LoadedRound>, session: (u64, u64)) -> bool {
    exists|i: int, j: int|
        #![trigger member(rounds, session, i), member(rounds, session, j)]
        {
            &&& member(rounds, session, i)
            &&& member(rounds, session, j)
            &&& rounds[i].round_no < rounds[j].round_no
            &&& forall|k: int| #[trigger]
                member(rounds, session, k) ==> rounds[k].round_no != rounds[i].round_no + 1
        }
}

/// Whether a row of a shoe tells no cards.
pub open spec fn has_empty(rounds: Seq<LoadedRound>, session: (u64, u64)) -> bool {
    exists|i: int| #[trigger] member(rounds, session, i) && rounds[i].blank()
}

/// Whether something is wrong with a round of a shoe.
pub open spec fn has_invalid(rounds: Seq<LoadedRound>, session: (u64, u64)) -> bool {
    exists|i: int| #[trigger] member(rounds, session, i) && rounds[i].validation_error is Some
}

/// Whether the shoe is known before each of its rounds.
pub open spec fn observable(rounds: Seq<LoadedRound>, session: (u64, u64)) -> bool {
    &&& starts_at_one(rounds, session)
    &&& !has_gap(rounds, session)
    &&& !has_empty(rounds, session)
    &&& !has_invalid(rounds, session)
}

/// The recorded shoes.
pub open spec fn sessions(rounds: Seq<LoadedRound>) -> Set<(u64, u64)> {
    rounds.map_values(|round: LoadedRound| round.session()).to_set()
}

/// Whether a row comes before another in time, or stands at the same place.
pub open spec fn in_time(a: LoadedRound, b: LoadedRound) -> bool {
    &&& sorting::text_at_most(a.time(), b.time(), 0)
    &&& sorting::text_at_most(b.time(), a.time(), 0) ==> a.place().at_most(b.place())
}

/// The rows to replay, in order, with the shoe of each.
#[derive(Debug)]
pub struct Schedule {
    /// The rows in order of time.
    pub order: Vec<usize>,
    /// The shoe of each of these rows, numbered from zero.
    pub slots: Vec<usize>,
    /// The number of shoes.
    pub session_count: usize,
    /// How the rows and the shoes were judged.
    pub quality: CsvQualityReport,
}

impl Schedule {
    /// Whether the schedule holds each row of each observable shoe once, in order of time, and
    /// numbers the shoes.
    pub open spec fn fits(self, rounds: Seq<LoadedRound>) -> bool {
        &&& self.order@.no_duplicates()
        &&& forall|k: int| 0 <= k < self.order.len() ==> #[trigger] self.order@[k] < rounds.len()
        &&& forall|i: usize| #[trigger]
            self.order@.contains(i) <==> i < rounds.len() && observable(
                rounds,
                rounds[i as int].session(),
            )
        &&& forall|a: int, b: int|
            #![trigger self.order@[a], self.order@[b]]
            0 <= a < b < self.order.len() ==> in_time(
                rounds[self.order@[a] as int],
                rounds[self.order@[b] as int],
            )
        &&& self.slots.len() == self.order.len()
        &&& forall|k: int| 0 <= k < self.slots.len() ==> #[trigger] self.slots@[k]
            < self.session_count
        &&& forall|a: int, b: int|
            #![trigger self.slots@[a], self.slots@[b]]
            0 <= a < self.slots.len() && 0 <= b < self.slots.len() ==> (self.slots@[a]
                == self.slots@[b] <==> rounds[self.order@[a] as int].session()
                == rounds[self.order@[b] as int].session())
    }
}

/// Whether a report counts the shoes of judged rows.
pub open spec fn counts_sessions(report: CsvQualityReport, rounds: Seq<LoadedRound>) -> bool {
    let all = sessions(rounds);
    &&& report.sessions_starting_at_one == all.filter(
        |s: (u64, u64)| starts_at_one(rounds, s),
    ).len()
    &&& report.sessions_starting_mid_shoe == all.filter(
        |s: (u64, u64)| !starts_at_one(rounds, s),
    ).len()
    &&& report.sessions_with_round_gaps == all.filter(|s: (u64, u64)| has_gap(rounds, s)).len()
    &&& report.sessions_with_empty_cards == all.filter(|s: (u64, u64)| has_empty(rounds, s)).len()
    &&& report.sessions_with_invalid_rows == all.filter(
        |s: (u64, u64)| has_invalid(rounds, s),
    ).len()
    &&& report.fully_observable_sessions == all.filter(
        |s: (u64, u64)| observable(rounds, s),
    ).len()
    &&& report.quarantined_rounds == vstd::set_lib::set_int_range(0, rounds.len() as int).filter(
        |i: int| !observable(rounds, rounds[i].session()),
    ).len()
}

/// The rows of one shoe stand together in a ranking by place, from `from` to before `to`, with
/// rising round numbers.
spec fn is_group(
    rounds: Seq<LoadedRound>,
    ranks: Seq<usize>,
    session: (u64, u64),
    from: int,
    to: int,
) -> bool {
    &&& 0 <= from < to <= ranks.len()
    &&& forall|k: int| from <= k < to ==> member(rounds, session, #[trigger] ranks[k] as int)
    &&& forall|i: int| #[trigger]
        member(rounds, session, i) ==> exists|k: int| from <= k < to && #[trigger] ranks[k] == i
    &&& forall|a: int, b: int|
        #![trigger ranks[a], ranks[b]]
        from <= a < b < to ==> rounds[ranks[a] as int].round_no < rounds[ranks[b] as int].round_no
}

proof fn lemma_group_start(
    rounds: Seq<LoadedRound>,
    ranks: Seq<usize>,
    session: (u64, u64),
    from: int,
    to: int,
)
    requires
        is_group(rounds, ranks, session, from, to),
    ensures
        starts_at_one(rounds, session) <==> rounds[ranks[from] as int].round_no == 1,
{
    let first = ranks[from] as int;
    assert(member(rounds, session, first));
    assert forall|i: int| #[trigger] member(rounds, session, i) implies rounds[i].round_no
        >= rounds[first].round_no by {
        let k = choose|k: int| from <= k < to && #[trigger] ranks[k] == i;
        assert(ranks[from] == first);
    }
}

proof fn lemma_group_gap(
    rounds: Seq<LoadedRound>,
    ranks: Seq<usize>,
    session: (u64, u64),
    from: int,
    to: int,
)
    requires
        is_group(rounds, ranks, session, from, to),
    ensures
        has_gap(rounds, session) <==> exists|k: int|
            from <= k < to - 1 && rounds[(#[trigger] ranks[k]) as int].round_no + 1
                != rounds[ranks[k + 1] as int].round_no,
{
    if exists|k: int|
        from <= k < to - 1 && rounds[(#[trigger] ranks[k]) as int].round_no + 1
            != rounds[ranks[k + 1] as int].round_no {
        let k = choose|k: int|
            from <= k < to - 1 && rounds[(#[trigger] ranks[k]) as int].round_no + 1
                != rounds[ranks[k + 1] as int].round_no;
        let i = ranks[k] as int;
        let j = ranks[k + 1] as int;
        assert(member(rounds, session, i) && member(rounds, session, j));
        assert forall|m: int| #[trigger] member(rounds, session, m) implies rounds[m].round_no
            != rounds[i].round_no + 1 by {
            let at = choose|at: int| from <= at < to && #[trigger] ranks[at] == m;
            if at < k {
                assert(rounds[ranks[at] as int].round_no < rounds[ranks[k] as int].round_no);
            } else if at > k + 1 {
                assert(rounds[ranks[k + 1] as int].round_no < rounds[ranks[at] as int].round_no);
            }
        }
        assert(has_gap(rounds, session));
    }
    if has_gap(rounds, session) {
        let (i, j) = choose|i: int, j: int|
            #![trigger member(rounds, session, i), member(rounds, session, j)]
            {
                &&& member(rounds, session, i)
                &&& member(rounds, session, j)
                &&& rounds[i].round_no < rounds[j].round_no
                &&& forall|k: int| #[trigger]
                    member(rounds, session, k) ==> rounds[k].round_no != rounds[i].round_no + 1
            };
        let p = choose|p: int| from <= p < to && #[trigger] ranks[p] == i;
        let q = choose|q: int| from <= q < to && #[trigger] ranks[q] == j;
        if q < p {
            assert(rounds[ranks[q] as int].round_no < rounds[ranks[p] as int].round_no);
        }
        assert(p < q);
        assert(member(rounds, session, ranks[p + 1] as int));
        assert(rounds[(ranks[p]) as int].round_no + 1 != rounds[ranks[p + 1] as int].round_no);
    }
}

proof fn lemma_group_flags(
    rounds: Seq<LoadedRound>,
    ranks: Seq<usize>,
    session: (u64, u64),
    from: int,
    to: int,
)
    requires
        is_group(rounds, ranks, session, from, to),
    ensures
        has_empty(rounds, session) <==> exists|k: int|
            from <= k < to && rounds[(#[trigger] ranks[k]) as int].blank(),
        has_invalid(rounds, session) <==> exists|k: int|
            from <= k < to && rounds[(#[trigger] ranks[k]) as int].validation_error is Some,
{
    if has_empty(rounds, session) {
        let i = choose|i: int| #[trigger]
            member(rounds, session, i) && rounds[i].blank();
        let k = choose|k: int| from <= k < to && #[trigger] ranks[k] == i;
        assert(rounds[(ranks[k]) as int].blank());
    }
    if exists|k: int| from <= k < to && rounds[(#[trigger] ranks[k]) as int].blank() {
        let k = choose|k: int|
            from <= k < to && rounds[(#[trigger] ranks[k]) as int].blank();
        assert(member(rounds, session, ranks[k] as int));
    }
    if has_invalid(rounds, session) {
        let i = choose|i: int| #[trigger]
            member(rounds, session, i) && rounds[i].validation_error is Some;
        let k = choose|k: int| from <= k < to && #[trigger] ranks[k] == i;
        assert(rounds[(ranks[k]) as int].validation_error is Some);
    }
    if exists|k: int|
        from <= k < to && rounds[(#[trigger] ranks[k]) as int].validation_error is Some {
        let k = choose|k: int|
            from <= k < to && rounds[(#[trigger] ranks[k]) as int].validation_error is Some;
        assert(member(rounds, session, ranks[k] as int));
    }
}

/// What is found of the rows of one shoe.
struct GroupFlags {
    starts_at_one: bool,
    has_gap: bool,
    has_empty: bool,
    has_invalid: bool,
}

fn judge_group(
    rounds: &Vec<LoadedRound>,
    ranks: &Vec<usize>,
    Ghost(session): Ghost<(u64, u64)>,
    from: usize,
    to: usize,
) -> (flags: GroupFlags)
    requires
        is_group(rounds@, ranks@, session, from as int, to as int),
    ensures
        flags.starts_at_one == starts_at_one(rounds@, session),
        flags.has_gap == has_gap(rounds@, session),
        flags.has_empty == has_empty(rounds@, session),
        flags.has_invalid == has_invalid(rounds@, session),
{
    proof {
        lemma_group_start(rounds@, ranks@, session, from as int, to as int);
        lemma_group_gap(rounds@, ranks@, session, from as int, to as int);
        lemma_group_flags(rounds@, ranks@, session, from as int, to as int);
        assert(member(rounds@, session, ranks@[from as int] as int));
    }
    let mut flags: GroupFlags = GroupFlags {
        starts_at_one: rounds[ranks[from]].round_no == 1,
        has_gap: false,
        has_empty: false,
        has_invalid: false,
    };
    let ghost starts = flags.starts_at_one;
    let mut k: usize = from;
    while k < to
        invariant
            from <= k <= to,
            is_group(rounds@, ranks@, session, from as int, to as int),
            flags.starts_at_one == starts,
            flags.has_gap <==> exists|j: int|
                from <= j < k && j < to - 1 && rounds@[(#[trigger] ranks@[j]) as int].round_no + 1
                    != rounds@[ranks@[j + 1] as int].round_no,
            flags.has_empty <==> exists|j: int|
                from <= j < k && rounds@[(#[trigger] ranks@[j]) as int].blank(),
            flags.has_invalid <==> exists|j: int|
                from <= j < k && rounds@[(#[trigger] ranks@[j]) as int].validation_error is Some,
        decreases to - k,
    {
        let ghost before = flags;
        assert(member(rounds@, session, ranks@[k as int] as int));
        let round: &LoadedRound = &rounds[ranks[k]];
        if k + 1 < to {
            assert(member(rounds@, session, ranks@[k + 1] as int));
            let next: &LoadedRound = &rounds[ranks[k + 1]];
            if next.round_no != round.round_no.saturating_add(1) {
                flags.has_gap = true;
            }
            proof {
                assert(rounds@[ranks@[k as int] as int].round_no
                    < rounds@[ranks@[k + 1] as int].round_no);
            }
        }
        if round.cards.is_none() && round.validation_error.is_none() {
            flags.has_empty = true;
        }
        if round.validation_error.is_some() {
            flags.has_invalid = true;
        }
        proof {
            let last = ranks@[k as int];
            assert(flags.has_gap <==> before.has_gap || (k < to - 1 && rounds@[last as int].round_no
                + 1 != rounds@[ranks@[k + 1] as int].round_no));
            assert(flags.has_empty <==> before.has_empty || rounds@[last as int].blank());
            assert(flags.has_invalid <==> before.has_invalid
                || rounds@[last as int].validation_error is Some);
        }
        k = k + 1;
    }
    flags
}

proof fn lemma_filter_insert<A>(set: Set<A>, item: A, keep: spec_fn(A) -> bool)
    requires
        set.finite(),
        !set.contains(item),
    ensures
        set.insert(item).filter(keep).len() == set.filter(keep).len() + if keep(item) {
            1int
        } else {
            0int
        },
        set.filter(keep).len() <= set.len(),
{
    set.lemma_len_filter(keep);
    if keep(item) {
        assert(set.insert(item).filter(keep) =~= set.filter(keep).insert(item));
    } else {
        assert(set.insert(item).filter(keep) =~= set.filter(keep));
    }
}

fn time_key(round: &LoadedRound) -> (key: TimeKey)
    ensures
        key.time@ == round.time(),
        key.place == round.place(),
{
    let time: Vec<char> = if round.has_started_at {
        text::chars_of(round.started_at.as_str())
    } else {
        Vec::new()
    };
    assert(time@ =~= round.time());
    TimeKey { time, place: (round.table_id, round.session_id, round.round_no) }
}

fn append_group(
    rows: &mut Vec<usize>,
    slots: &mut Vec<usize>,
    ranks: &Vec<usize>,
    from: usize,
    to: usize,
    slot: usize,
)
    requires
        from <= to <= ranks.len(),
    ensures
        final(rows)@ == old(rows)@ + ranks@.subrange(from as int, to as int),
        final(slots)@ == old(slots)@ + Seq::new((to - from) as nat, |k: int| slot),
{
    let mut k: usize = from;
    let ghost first_rows = rows@;
    let ghost first_slots = slots@;
    assert(rows@ =~= first_rows + ranks@.subrange(from as int, from as int));
    assert(slots@ =~= first_slots + Seq::new(0, |j: int| slot));
    while k < to
        invariant
            from <= k <= to <= ranks.len(),
            rows@ == first_rows + ranks@.subrange(from as int, k as int),
            slots@ == first_slots + Seq::new((k - from) as nat, |j: int| slot),
        decreases to - k,
    {
        rows.push(ranks[k]);
        slots.push(slot);
        k = k + 1;
        proof {
            assert(rows@ =~= first_rows + ranks@.subrange(from as int, k as int));
            assert(slots@ =~= first_slots + Seq::new((k - from) as nat, |j: int| slot));
        }
    }
}

/// What is known of the rows that have been looked at: the first ones of a ranking by place.
struct Progress {
    rows: Vec<usize>,
    slots: Vec<usize>,
    session_count: usize,
    starting_at_one: usize,
    starting_mid_shoe: usize,
    with_gaps: usize,
    with_empty: usize,
    with_invalid: usize,
}

impl Progress {
    spec fn holds(
        self,
        rounds: Seq<LoadedRound>,
        ranks: Seq<usize>,
        from: int,
        seen: Set<(u64, u64)>,
    ) -> bool {
        &&& seen.finite()
        &&& seen.len() <= from
        &&& forall|s: (u64, u64)| #[trigger]
            seen.contains(s) <==> exists|k: int|
                0 <= k < from && rounds[(#[trigger] ranks[k]) as int].session() == s
        &&& self.starting_at_one == seen.filter(|s: (u64, u64)| starts_at_one(rounds, s)).len()
        &&& self.starting_mid_shoe == seen.filter(
            |s: (u64, u64)| !starts_at_one(rounds, s),
        ).len()
        &&& self.with_gaps == seen.filter(|s: (u64, u64)| has_gap(rounds, s)).len()
        &&& self.with_empty == seen.filter(|s: (u64, u64)| has_empty(rounds, s)).len()
        &&& self.with_invalid == seen.filter(|s: (u64, u64)| has_invalid(rounds, s)).len()
        &&& self.session_count == seen.filter(|s: (u64, u64)| observable(rounds, s)).len()
        &&& self.rows@.no_duplicates()
        &&& forall|i: usize| #[trigger]
            self.rows@.contains(i) <==> exists|k: int|
                0 <= k < from && #[trigger] ranks[k] == i && observable(
                    rounds,
                    rounds[i as int].session(),
                )
        &&& self.slots.len() == self.rows.len()
        &&& forall|e: int| 0 <= e < self.slots.len() ==> #[trigger] self.slots@[e]
            < self.session_count
        &&& forall|a: int, b: int|
            #![trigger self.slots@[a], self.slots@[b]]
            0 <= a < self.slots.len() && 0 <= b < self.slots.len() ==> (self.slots@[a]
                == self.slots@[b] <==> rounds[self.rows@[a] as int].session()
                == rounds[self.rows@[b] as int].session())
    }
}

proof fn lemma_seen_grows(
    rounds: Seq<LoadedRound>,
    ranks: Seq<usize>,
    seen: Set<(u64, u64)>,
    session: (u64, u64),
    from: int,
    to: int,
)
    requires
        is_group(rounds, ranks, session, from, to),
        forall|s: (u64, u64)| #[trigger]
            seen.contains(s) <==> exists|k: int|
                0 <= k < from && rounds[(#[trigger] ranks[k]) as int].session() == s,
    ensures
        forall|s: (u64, u64)| #[trigger]
            seen.insert(session).contains(s) <==> exists|k: int|
                0 <= k < to && rounds[(#[trigger] ranks[k]) as int].session() == s,
{
    assert forall|s: (u64, u64)| #[trigger]
        seen.insert(session).contains(s) <==> exists|k: int|
            0 <= k < to && rounds[(#[trigger] ranks[k]) as int].session() == s by {
        if seen.insert(session).contains(s) {
            if s == session {
                assert(member(rounds, session, ranks[from] as int));
                assert(rounds[(ranks[from]) as int].session() == s);
            } else {
                let k = choose|k: int|
                    0 <= k < from && rounds[(#[trigger] ranks[k]) as int].session() == s;
                assert(0 <= k < to && rounds[(ranks[k]) as int].session() == s);
            }
        }
        if exists|k: int| 0 <= k < to && rounds[(#[trigger] ranks[k]) as int].session() == s {
            let k = choose|k: int|
                0 <= k < to && rounds[(#[trigger] ranks[k]) as int].session() == s;
            if k < from {
                assert(seen.contains(s));
            } else {
                assert(member(rounds, session, ranks[k] as int));
            }
        }
    }
}

proof fn lemma_rows_grow(
    rounds: Seq<LoadedRound>,
    ranks: Seq<usize>,
    before: Progress,
    after: Progress,
    session: (u64, u64),
    from: int,
    to: int,
    seen: Set<(u64, u64)>,
)
    requires
        is_group(rounds, ranks, session, from, to),
        ranks.no_duplicates(),
        before.holds(rounds, ranks, from, seen),
        forall|k: int| 0 <= k < from ==> rounds[(#[trigger] ranks[k]) as int].session() != session,
        if observable(rounds, session) {
            &&& after.rows@ == before.rows@ + ranks.subrange(from, to)
            &&& after.slots@ == before.slots@ + Seq::new(
                (to - from) as nat,
                |k: int| before.session_count,
            )
            &&& after.session_count == before.session_count + 1
        } else {
            &&& after.rows@ == before.rows@
            &&& after.slots@ == before.slots@
            &&& after.session_count == before.session_count
        },
    ensures
        after.rows@.no_duplicates(),
        forall|i: usize| #[trigger]
            after.rows@.contains(i) <==> exists|k: int|
                0 <= k < to && #[trigger] ranks[k] == i && observable(
                    rounds,
                    rounds[i as int].session(),
                ),
        after.slots.len() == after.rows.len(),
        forall|e: int| 0 <= e < after.slots.len() ==> #[trigger] after.slots@[e]
            < after.session_count,
        forall|a: int, b: int|
            #![trigger after.slots@[a], after.slots@[b]]
            0 <= a < after.slots.len() && 0 <= b < after.slots.len() ==> (after.slots@[a]
                == after.slots@[b] <==> rounds[after.rows@[a] as int].session()
                == rounds[after.rows@[b] as int].session()),
{
    let old_rows = before.rows@;
    let n = old_rows.len();
    assert forall|e: int| 0 <= e < n implies rounds[(#[trigger] old_rows[e]) as int].session()
        != session by {
        assert(old_rows.contains(old_rows[e]));
        let k = choose|k: int|
            0 <= k < from && #[trigger] ranks[k] == old_rows[e] && observable(
                rounds,
                rounds[old_rows[e] as int].session(),
            );
        assert(rounds[(ranks[k]) as int].session() != session);
    }
    if observable(rounds, session) {
        let group = ranks.subrange(from, to);
        assert forall|e: int| n <= e < after.rows.len() implies rounds[(#[trigger] after.rows@[e])
            as int].session() == session && after.rows@[e] == ranks[from + (e - n)]
            && after.slots@[e] == before.session_count by {
            assert(after.rows@[e] == group[e - n]);
            assert(member(rounds, session, ranks[from + (e - n)] as int));
        }
        assert forall|e: int| 0 <= e < n implies #[trigger] after.rows@[e] == old_rows[e]
            && after.slots@[e] == before.slots@[e] by {}
        assert forall|a: int, b: int|
            0 <= a < after.rows.len() && 0 <= b < after.rows.len() && a != b implies after.rows@[a]
            != after.rows@[b] by {
            let x = after.rows@[a];
            let y = after.rows@[b];
            if a < n && b < n {
                assert(old_rows[a] != old_rows[b]);
            } else if a < n {
                assert(rounds[old_rows[a] as int].session() != session);
            } else if b < n {
                assert(rounds[old_rows[b] as int].session() != session);
            } else {
                assert(ranks[from + (a - n)] != ranks[from + (b - n)]);
            }
        }
        assert forall|i: usize| #[trigger]
            after.rows@.contains(i) <==> exists|k: int|
                0 <= k < to && #[trigger] ranks[k] == i && observable(
                    rounds,
                    rounds[i as int].session(),
                ) by {
            if after.rows@.contains(i) {
                let e = choose|e: int| 0 <= e < after.rows.len() && after.rows@[e] == i;
                if e < n {
                    assert(old_rows[e] == i);
                    assert(old_rows.contains(i));
                    let k = choose|k: int|
                        0 <= k < from && #[trigger] ranks[k] == i && observable(
                            rounds,
                            rounds[i as int].session(),
                        );
                    assert(0 <= k < to && ranks[k] == i);
                } else {
                    assert(ranks[from + (e - n)] == i);
                }
            }
            if exists|k: int|
                0 <= k < to && #[trigger] ranks[k] == i && observable(
                    rounds,
                    rounds[i as int].session(),
                ) {
                let k = choose|k: int|
                    0 <= k < to && #[trigger] ranks[k] == i && observable(
                        rounds,
                        rounds[i as int].session(),
                    );
                if k < from {
                    assert(old_rows.contains(i));
                    let e = choose|e: int| 0 <= e < n && old_rows[e] == i;
                    assert(after.rows@[e] == i);
                } else {
                    assert(after.rows@[n + (k - from)] == i);
                }
            }
        }
        assert forall|e: int| 0 <= e < after.slots.len() implies #[trigger] after.slots@[e]
            < after.session_count by {
            if e < n {
                assert(after.slots@[e] == before.slots@[e]);
            }
        }
        assert forall|a: int, b: int|
            #![trigger after.slots@[a], after.slots@[b]]
            0 <= a < after.slots.len() && 0 <= b < after.slots.len() implies (after.slots@[a]
            == after.slots@[b] <==> rounds[after.rows@[a] as int].session()
            == rounds[after.rows@[b] as int].session()) by {
            let x = after.rows@[a];
            let y = after.rows@[b];
            if a < n {
                assert(x == old_rows[a] && after.slots@[a] == before.slots@[a]);
            }
            if b < n {
                assert(y == old_rows[b] && after.slots@[b] == before.slots@[b]);
            }
        }
    } else {
        assert forall|i: usize| #[trigger]
            after.rows@.contains(i) <==> exists|k: int|
                0 <= k < to && #[trigger] ranks[k] == i && observable(
                    rounds,
                    rounds[i as int].session(),
                ) by {
            if after.rows@.contains(i) {
                let k = choose|k: int|
                    0 <= k < from && #[trigger] ranks[k] == i && observable(
                        rounds,
                        rounds[i as int].session(),
                    );
                assert(0 <= k < to && ranks[k] == i);
            }
            if exists|k: int|
                0 <= k < to && #[trigger] ranks[k] == i && observable(
                    rounds,
                    rounds[i as int].session(),
                ) {
                let k = choose|k: int|
                    0 <= k < to && #[trigger] ranks[k] == i && observable(
                        rounds,
                        rounds[i as int].session(),
                    );
                if k >= from {
                    assert(member(rounds, session, ranks[k] as int));
                }
                assert(k < from);
                assert(before.rows@.contains(i));
            }
        }
    }
}

/// The rows left out and the rows scheduled make up all rows.
pub proof fn lemma_quarantined(rounds: Seq<LoadedRound>, rows: Seq<usize>)
    requires
        rows.no_duplicates(),
        rounds.len() <= usize::MAX,
        forall|i: usize| #[trigger]
            rows.contains(i) <==> i < rounds.len() && observable(
                rounds,
                rounds[i as int].session(),
            ),
    ensures
        vstd::set_lib::set_int_range(0, rounds.len() as int).filter(
            |i: int| !observable(rounds, rounds[i].session()),
        ).len() == rounds.len() - rows.len(),
        rows.len() <= rounds.len(),
{
    let all = vstd::set_lib::set_int_range(0, rounds.len() as int);
    vstd::set_lib::lemma_int_range(0, rounds.len() as int);
    let left_out = all.filter(|i: int| !observable(rounds, rounds[i].session()));
    let spots = rows.map_values(|i: usize| i as int);
    assert(spots.no_duplicates());
    spots.unique_seq_to_set();
    let kept = spots.to_set();
    assert forall|i: int| kept.contains(i) <==> all.contains(i) && !left_out.contains(i) by {
        if kept.contains(i) {
            let k = choose|k: int| 0 <= k < spots.len() && spots[k] == i;
            assert(rows[k] == i);
            assert(rows.contains(rows[k]));
        }
        if all.contains(i) && !left_out.contains(i) {
            assert(rows.contains(i as usize));
            let k = choose|k: int| 0 <= k < rows.len() && rows[k] == i as usize;
            assert(spots[k] == i);
        }
    }
    assert(all.difference(kept) =~= left_out);
    assert(left_out.disjoint(kept));
    assert(left_out.union(kept) =~= all);
    vstd::set_lib::lemma_set_disjoint_lens(left_out, kept);
}

/// Finds the rows that can be replayed and puts them in order of time.
pub fn schedule(rounds: &Vec<LoadedRound>, quality: CsvQualityReport) -> (schedule: Schedule)
    requires
        load::well_formed(rounds@),
    ensures
        schedule.fits(rounds@),
        schedule.session_count == sessions(rounds@).filter(
            |s: (u64, u64)| observable(rounds@, s),
        ).len(),
        counts_sessions(schedule.quality, rounds@),
        schedule.quality.valid_card_rows == quality.valid_card_rows,
        schedule.quality.empty_card_rows == quality.empty_card_rows,
        schedule.quality.invalid_card_rows == quality.invalid_card_rows,
        schedule.quality.outcome_mismatch_rows == quality.outcome_mismatch_rows,
{
    let mut places: Vec<(u64, u64, u32)> = Vec::new();
    let mut i: usize = 0;
    while i < rounds.len()
        invariant
            i <= rounds.len(),
            places.len() == i,
            forall|j: int| 0 <= j < i ==> #[trigger] places@[j] == rounds@[j].place(),
        decreases rounds.len() - i,
    {
        places.push((rounds[i].table_id, rounds[i].session_id, rounds[i].round_no));
        i = i + 1;
    }
    let ranks: Vec<usize> = sorting::ranked_positions(&places);
    proof {
        sorting::lemma_ranking_length(places@, ranks@, 0, places.len() as int);
        assert forall|a: int, b: int|
            #![trigger ranks@[a], ranks@[b]]
            0 <= a < b < ranks.len() implies rounds@[ranks@[a] as int].place().at_most(
            rounds@[ranks@[b] as int].place(),
        ) && rounds@[ranks@[a] as int].place() != rounds@[ranks@[b] as int].place() by {
            assert(sorting::ahead(places@, ranks@[a] as int, ranks@[b] as int));
            let x = ranks@[a] as int;
            let y = ranks@[b] as int;
            assert(x != y);
            assert(places@[x] == rounds@[x].place());
            assert(places@[y] == rounds@[y].place());
            if x < y {
                assert(rounds@[x].place() != rounds@[y].place());
            } else {
                assert(rounds@[y].place() != rounds@[x].place());
            }
        }
    }
    let mut found: Progress = Progress {
        rows: Vec::new(),
        slots: Vec::new(),
        session_count: 0,
        starting_at_one: 0,
        starting_mid_shoe: 0,
        with_gaps: 0,
        with_empty: 0,
        with_invalid: 0,
    };
    let ghost mut seen: Set<(u64, u64)> = Set::empty();
    let mut from: usize = 0;
    proof {
        assert(seen.filter(|s: (u64, u64)| starts_at_one(rounds@, s)) =~= Set::empty());
        assert(seen.filter(|s: (u64, u64)| !starts_at_one(rounds@, s)) =~= Set::empty());
        assert(seen.filter(|s: (u64, u64)| has_gap(rounds@, s)) =~= Set::empty());
        assert(seen.filter(|s: (u64, u64)| has_empty(rounds@, s)) =~= Set::empty());
        assert(seen.filter(|s: (u64, u64)| has_invalid(rounds@, s)) =~= Set::empty());
        assert(seen.filter(|s: (u64, u64)| observable(rounds@, s)) =~= Set::empty());
    }
    while from < ranks.len()
        invariant
            from <= ranks.len() == rounds.len(),
            sorting::is_ranking(places@, ranks@, 0, rounds.len() as int),
            ranks@.no_duplicates(),
            forall|a: int, b: int|
                #![trigger ranks@[a], ranks@[b]]
                0 <= a < b < ranks.len() ==> rounds@[ranks@[a] as int].place().at_most(
                    rounds@[ranks@[b] as int].place(),
                ) && rounds@[ranks@[a] as int].place() != rounds@[ranks@[b] as int].place(),
            found.holds(rounds@, ranks@, from as int, seen),
            forall|a: int, b: int|
                #![trigger ranks@[a], ranks@[b]]
                0 <= a < from <= b < ranks.len() ==> rounds@[ranks@[a] as int].session()
                    != rounds@[ranks@[b] as int].session(),
        decreases ranks.len() - from,
    {
        let table_id: u64 = rounds[ranks[from]].table_id;
        let session_id: u64 = rounds[ranks[from]].session_id;
        let ghost session = (table_id, session_id);
        let mut to: usize = from + 1;
        while to < ranks.len() && rounds[ranks[to]].table_id == table_id
            && rounds[ranks[to]].session_id == session_id
            invariant
                from < to <= ranks.len() == rounds.len(),
                sorting::is_ranking(places@, ranks@, 0, rounds.len() as int),
                session == (table_id, session_id),
                forall|k: int|
                    from <= k < to ==> rounds@[(#[trigger] ranks@[k]) as int].session() == session,
            decreases ranks.len() - to,
        {
            to = to + 1;
        }
        proof {
            assert forall|b: int| to <= b < ranks.len() implies rounds@[(#[trigger] ranks@[b])
                as int].session() != session by {
                assert(rounds@[ranks@[to as int] as int].session() != session);
                assert(rounds@[ranks@[from as int] as int].place().at_most(
                    rounds@[ranks@[to as int] as int].place(),
                ));
                if b > to {
                    assert(rounds@[ranks@[to as int] as int].place().at_most(
                        rounds@[ranks@[b] as int].place(),
                    ));
                }
            }
            assert forall|k: int| from <= k < to implies member(
                rounds@,
                session,
                #[trigger] ranks@[k] as int,
            ) by {}
            assert forall|i: int| #[trigger] member(rounds@, session, i) implies exists|k: int|
                from <= k < to && #[trigger] ranks@[k] == i by {
                assert(ranks@.contains(i as usize));
                let k = choose|k: int| 0 <= k < ranks.len() && ranks@[k] == i as usize;
                if k < from {
                    assert(rounds@[ranks@[k] as int].session()
                        != rounds@[ranks@[from as int] as int].session());
                }
                assert(from <= k < to && ranks@[k] == i);
            }
            assert forall|a: int, b: int|
                #![trigger ranks@[a], ranks@[b]]
                from <= a < b < to implies rounds@[ranks@[a] as int].round_no
                < rounds@[ranks@[b] as int].round_no by {
                assert(rounds@[ranks@[a] as int].place().at_most(
                    rounds@[ranks@[b] as int].place(),
                ));
            }
            assert(is_group(rounds@, ranks@, session, from as int, to as int));
            assert forall|k: int| 0 <= k < from implies rounds@[(#[trigger] ranks@[k])
                as int].session() != session by {
                assert(rounds@[ranks@[k] as int].session()
                    != rounds@[ranks@[from as int] as int].session());
            }
            assert(!seen.contains(session));
            lemma_filter_insert(seen, session, |s: (u64, u64)| starts_at_one(rounds@, s));
            lemma_filter_insert(seen, session, |s: (u64, u64)| !starts_at_one(rounds@, s));
            lemma_filter_insert(seen, session, |s: (u64, u64)| has_gap(rounds@, s));
            lemma_filter_insert(seen, session, |s: (u64, u64)| has_empty(rounds@, s));
            lemma_filter_insert(seen, session, |s: (u64, u64)| has_invalid(rounds@, s));
            lemma_filter_insert(seen, session, |s: (u64, u64)| observable(rounds@, s));
        }
        let flags: GroupFlags = judge_group(rounds, &ranks, Ghost(session), from, to);
        let ghost before = found;
        if flags.starts_at_one {
            found.starting_at_one = found.starting_at_one + 1;
        } else {
            found.starting_mid_shoe = found.starting_mid_shoe + 1;
        }
        if flags.has_gap {
            found.with_gaps = found.with_gaps + 1;
        }
        if flags.has_empty {
            found.with_empty = found.with_empty + 1;
        }
        if flags.has_invalid {
            found.with_invalid = found.with_invalid + 1;
        }
        if flags.starts_at_one && !flags.has_gap && !flags.has_empty && !flags.has_invalid {
            let slot: usize = found.session_count;
            append_group(&mut found.rows, &mut found.slots, &ranks, from, to, slot);
            found.session_count = slot + 1;
        }
        proof {
            lemma_rows_grow(
                rounds@,
                ranks@,
                before,
                found,
                session,
                from as int,
                to as int,
                seen,
            );
            lemma_seen_grows(rounds@, ranks@, seen, session, from as int, to as int);
            seen = seen.insert(session);
        }
        from = to;
    }
    proof {
        let all = sessions(rounds@);
        let listed = rounds@.map_values(|round: LoadedRound| round.session());
        assert forall|s: (u64, u64)| seen.contains(s) <==> all.contains(s) by {
            if seen.contains(s) {
                let k = choose|k: int|
                    0 <= k < from && rounds@[(#[trigger] ranks@[k]) as int].session() == s;
                assert(listed[ranks@[k] as int] == s);
            }
            if all.contains(s) {
                let i = choose|i: int| 0 <= i < listed.len() && listed[i] == s;
                assert(ranks@.contains(i as usize));
                let k = choose|k: int| 0 <= k < ranks.len() && ranks@[k] == i as usize;
                assert(rounds@[(ranks@[k]) as int].session() == s);
            }
        }
        assert(seen =~= all);
        assert forall|i: usize| #[trigger]
            found.rows@.contains(i) <==> i < rounds.len() && observable(
                rounds@,
                rounds@[i as int].session(),
            ) by {
            if i < rounds.len() && observable(rounds@, rounds@[i as int].session()) {
                assert(ranks@.contains(i));
                let k = choose|k: int| 0 <= k < ranks.len() && ranks@[k] == i;
                assert(0 <= k < from && ranks@[k] == i);
            }
        }
        lemma_quarantined(rounds@, found.rows@);
    }
    let counted: CsvQualityReport = CsvQualityReport {
        valid_card_rows: quality.valid_card_rows,
        empty_card_rows: quality.empty_card_rows,
        invalid_card_rows: quality.invalid_card_rows,
        outcome_mismatch_rows: quality.outcome_mismatch_rows,
        sessions_starting_at_one: found.starting_at_one as u64,
        sessions_starting_mid_shoe: found.starting_mid_shoe as u64,
        sessions_with_round_gaps: found.with_gaps as u64,
        sessions_with_empty_cards: found.with_empty as u64,
        sessions_with_invalid_rows: found.with_invalid as u64,
        fully_observable_sessions: found.session_count as u64,
        quarantined_rounds: (rounds.len() - found.rows.len()) as u64,
    };
    let (order, slots): (Vec<usize>, Vec<usize>) = put_in_time(rounds, &found.rows, &found.slots);
    proof {
        assert forall|k: int| 0 <= k < order.len() implies #[trigger] order@[k] < rounds.len() by {
            assert(order@.contains(order@[k]));
        }
        assert forall|k: int| 0 <= k < slots.len() implies #[trigger] slots@[k]
            < found.session_count by {
            assert(listed(found.rows@, found.slots@, order@[k], slots@[k]));
            let e = choose|e: int| #[trigger]
                stands(found.rows@, found.slots@, e, order@[k], slots@[k]);
            assert(found.slots@[e] < found.session_count);
        }
        assert forall|a: int, b: int|
            #![trigger slots@[a], slots@[b]]
            0 <= a < slots.len() && 0 <= b < slots.len() implies (slots@[a] == slots@[b]
            <==> rounds@[order@[a] as int].session() == rounds@[order@[b] as int].session()) by {
            assert(listed(found.rows@, found.slots@, order@[a], slots@[a]));
            assert(listed(found.rows@, found.slots@, order@[b], slots@[b]));
            let e = choose|e: int| #[trigger]
                stands(found.rows@, found.slots@, e, order@[a], slots@[a]);
            let f = choose|f: int| #[trigger]
                stands(found.rows@, found.slots@, f, order@[b], slots@[b]);
            assert(found.slots@[e] == found.slots@[f] <==> rounds@[found.rows@[e] as int].session()
                == rounds@[found.rows@[f] as int].session());
        }
    }
    Schedule { order, slots, session_count: found.session_count, quality: counted }
}

/// Whether a row stands at a position, with a slot.
spec fn stands(rows: Seq<usize>, slots: Seq<usize>, e: int, row: usize, slot: usize) -> bool {
    0 <= e < rows.len() && rows[e] == row && slots[e] == slot
}

/// Whether a row stands somewhere, with a slot.
spec fn listed(rows: Seq<usize>, slots: Seq<usize>, row: usize, slot: usize) -> bool {
    exists|e: int| #[trigger] stands(rows, slots, e, row, slot)
}

/// Puts rows in order of time, each with its slot.
fn put_in_time(rounds: &Vec<LoadedRound>, rows: &Vec<usize>, slots: &Vec<usize>) -> (result: (
    Vec<usize>,
    Vec<usize>,
))
    requires
        rows.len() == slots.len(),
        rows@.no_duplicates(),
        forall|i: usize| #[trigger] rows@.contains(i) ==> i < rounds.len(),
    ensures
        result.0.len() == result.1.len(),
        result.0@.no_duplicates(),
        forall|i: usize| #[trigger] result.0@.contains(i) <==> rows@.contains(i),
        forall|k: int|
            0 <= k < result.0.len() ==> #[trigger] listed(
                rows@,
                slots@,
                result.0@[k],
                result.1@[k],
            ),
        forall|a: int, b: int|
            #![trigger result.0@[a], result.0@[b]]
            0 <= a < b < result.0.len() ==> in_time(
                rounds@[result.0@[a] as int],
                rounds@[result.0@[b] as int],
            ),
{
    let mut keys: Vec<TimeKey> = Vec::new();
    let mut e: usize = 0;
    while e < rows.len()
        invariant
            e <= rows.len(),
            keys.len() == e,
            forall|i: usize| #[trigger] rows@.contains(i) ==> i < rounds.len(),
            forall|j: int|
                0 <= j < e ==> (#[trigger] keys@[j]).time@ == rounds@[rows@[j] as int].time()
                    && keys@[j].place == rounds@[rows@[j] as int].place(),
        decreases rows.len() - e,
    {
        assert(rows@.contains(rows@[e as int]));
        keys.push(time_key(&rounds[rows[e]]));
        e = e + 1;
    }
    let ranks: Vec<usize> = sorting::ranked_positions(&keys);
    proof {
        sorting::lemma_ranking_length(keys@, ranks@, 0, keys.len() as int);
    }
    let mut order: Vec<usize> = Vec::new();
    let mut order_slots: Vec<usize> = Vec::new();
    let mut k: usize = 0;
    while k < ranks.len()
        invariant
            k <= ranks.len() == rows.len() == slots.len() == keys.len(),
            sorting::is_ranking(keys@, ranks@, 0, keys.len() as int),
            order.len() == k,
            order_slots.len() == k,
            forall|j: int|
                0 <= j < k ==> #[trigger] order@[j] == rows@[ranks@[j] as int] && order_slots@[j]
                    == slots@[ranks@[j] as int],
        decreases ranks.len() - k,
    {
        assert(ranks@[k as int] < keys.len());
        order.push(rows[ranks[k]]);
        order_slots.push(slots[ranks[k]]);
        k = k + 1;
    }
    proof {
        assert forall|a: int, b: int|
            0 <= a < order.len() && 0 <= b < order.len() && a != b implies order@[a]
            != order@[b] by {
            assert(ranks@[a] != ranks@[b]);
            assert(order@[a] == rows@[ranks@[a] as int]);
            assert(order@[b] == rows@[ranks@[b] as int]);
        }
        assert forall|i: usize| #[trigger] order@.contains(i) <==> rows@.contains(i) by {
            if order@.contains(i) {
                let j = choose|j: int| 0 <= j < order.len() && order@[j] == i;
                assert(rows@[ranks@[j] as int] == i);
            }
            if rows@.contains(i) {
                let e = choose|e: int| 0 <= e < rows.len() && rows@[e] == i;
                assert(ranks@.contains(e as usize));
                let j = choose|j: int| 0 <= j < ranks.len() && ranks@[j] == e as usize;
                assert(order@[j] == i);
            }
        }
        assert forall|j: int| 0 <= j < order.len() implies #[trigger] listed(
            rows@,
            slots@,
            order@[j],
            order_slots@[j],
        ) by {
            assert(order@[j] == rows@[ranks@[j] as int]);
            assert(stands(rows@, slots@, ranks@[j] as int, order@[j], order_slots@[j]));
        }
        assert forall|a: int, b: int|
            #![trigger order@[a], order@[b]]
            0 <= a < b < order.len() implies in_time(
            rounds@[order@[a] as int],
            rounds@[order@[b] as int],
        ) by {
            let x = ranks@[a] as int;
            let y = ranks@[b] as int;
            assert(sorting::ahead(keys@, x, y));
            assert(keys@[x].at_most(keys@[y]));
            assert(keys@[x].time@ == rounds@[rows@[x] as int].time());
            assert(keys@[y].time@ == rounds@[rows@[y] as int].time());
        }
    }
    (order, order_slots)
}

} // verus!
