//! Loading the rows of one day.

use vstd::prelude::*;

use crate::baccarat::load;
use crate::baccarat::load::{load_rounds, LoadedRounds};
use crate::baccarat::records::{read_date, CsvReplayError, CsvRound};
use crate::sorting;
use crate::sorting::Sortable;
use crate::text;

verus! {

/// Why the rows of a day are refused.
#[derive(Debug)]
pub enum DayLoadError {
    /// The rows cannot be read or are repeated.
    Rows(CsvReplayError),
    /// The rows are not those of a single date: the dates with the number of their rows.
    MultipleBusinessDates(Vec<(String, u64)>),
}

/// Whether something stands at a position.
pub open spec fn stands_at<V>(items: Seq<V>, item: V) -> spec_fn(int) -> bool {
    |i: int| items[i] == item
}

/// How often an item occurs.
pub open spec fn frequency<V>(items: Seq<V>, item: V) -> nat {
    vstd::set_lib::set_int_range(0, items.len() as int).filter(stands_at(items, item)).len()
}

/// Whether a list holds the different dates in order, each with the number of its rows.
pub open spec fn tells_dates(list: Seq<(String, u64)>, dates: Seq<Seq<char>>) -> bool {
    &&& forall|i: int|
        0 <= i < list.len() ==> (#[trigger] list[i]).1 == frequency(dates, list[i].0@)
            && dates.contains(list[i].0@)
    &&& forall|i: int, j: int|
        #![trigger list[i], list[j]]
        0 <= i < j < list.len() ==> sorting::text_at_most(list[i].0@, list[j].0@, 0) && list[i].0@
            != list[j].0@
    &&& forall|d: int|
        0 <= d < dates.len() ==> exists|i: int|
            0 <= i < list.len() && (#[trigger] list[i]).0@ == #[trigger] dates[d]
}

/// Whether there is one date.
pub open spec fn single(dates: Seq<Seq<char>>) -> bool {
    dates.len() > 0 && forall|d: int| 0 <= d < dates.len() ==> #[trigger] dates[d] == dates[0]
}

/// Whether a result is that of loading the rows of a day.
pub open spec fn is_day_loading(
    result: Result<LoadedRounds, DayLoadError>,
    loading: Result<LoadedRounds, CsvReplayError>,
    rows: Seq<CsvRound>,
) -> bool {
    match loading {
        Err(CsvReplayError::InvalidTimestamp(time)) => result == Err::<LoadedRounds, DayLoadError>(
            DayLoadError::Rows(CsvReplayError::InvalidTimestamp(time)),
        ),
        Err(CsvReplayError::Csv(message)) => result == Err::<LoadedRounds, DayLoadError>(
            DayLoadError::Rows(CsvReplayError::Csv(message)),
        ),
        _ => if single(load::dates(rows)) {
            match loading {
                Ok(loaded) => result == Ok::<LoadedRounds, DayLoadError>(loaded),
                Err(error) => result == Err::<LoadedRounds, DayLoadError>(
                    DayLoadError::Rows(error),
                ),
            }
        } else {
            result matches Err(DayLoadError::MultipleBusinessDates(list)) && tells_dates(
                list@,
                load::dates(rows),
            )
        },
    }
}

fn dates_of(rows: &Vec<CsvRound>) -> (dates: Vec<Vec<char>>)
    ensures
        sorting::values_of(dates@) == load::dates(rows@),
{
    let mut list: Vec<Vec<char>> = Vec::new();
    let ghost days = rows@.map_values(|row: CsvRound| load::row_date(row));
    let mut i: usize = 0;
    proof {
        assert(days.take(0) =~= Seq::empty());
        assert(sorting::values_of(list@) =~= Seq::empty());
    }
    while i < rows.len()
        invariant
            i <= rows.len(),
            days == rows@.map_values(|row: CsvRound| load::row_date(row)),
            sorting::values_of(list@) == load::present(days.take(i as int)),
        decreases rows.len() - i,
    {
        proof {
            assert(days.take(i + 1).drop_last() =~= days.take(i as int));
            assert(days.take(i + 1).last() == load::row_date(rows@[i as int]));
        }
        let ghost before = sorting::values_of(list@);
        match &rows[i].started_at {
            Some(time) => {
                let chars: Vec<char> = text::chars_of(time.as_str());
                match read_date(&chars) {
                    Some(date) => {
                        let ghost shown = date@;
                        list.push(date);
                        assert(sorting::values_of(list@) =~= before.push(shown));
                    },
                    None => {},
                }
            },
            None => {},
        }
        i = i + 1;
    }
    assert(days.take(i as int) =~= days);
    list
}

proof fn lemma_filter_with_one_more<V>(taken: Set<int>, items: Seq<V>, p: int, item: V)
    requires
        taken.finite(),
        !taken.contains(p),
    ensures
        taken.insert(p).filter(stands_at(items, item)).len() == taken.filter(
            stands_at(items, item),
        ).len() + if items[p] == item {
            1int
        } else {
            0int
        },
        taken.filter(stands_at(items, item)).len() <= taken.len(),
{
    let keep = stands_at(items, item);
    taken.lemma_len_filter(keep);
    if items[p] == item {
        assert(taken.insert(p).filter(keep) =~= taken.filter(keep).insert(p));
    } else {
        assert(taken.insert(p).filter(keep) =~= taken.filter(keep));
    }
}

/// The dates so far, in order, with how often each was met.
spec fn counts_so_far(
    found: Seq<(Vec<char>, u64)>,
    dates: Seq<Seq<char>>,
    ranks: Seq<usize>,
    taken: Set<int>,
    k: int,
) -> bool {
    &&& taken.finite()
    &&& taken.len() == k
    &&& forall|p: int| #[trigger] taken.contains(p) <==> exists|j: int|
        0 <= j < k && #[trigger] ranks[j] == p
    &&& forall|i: int|
        0 <= i < found.len() ==> (#[trigger] found[i]).1 == taken.filter(
            stands_at(dates, found[i].0@),
        ).len() && found[i].1 > 0 && dates.contains(found[i].0@)
    &&& forall|i: int, j: int|
        #![trigger found[i], found[j]]
        0 <= i < j < found.len() ==> found[i].0.at_most(found[j].0) && found[i].0@ != found[j].0@
    &&& forall|j: int|
        0 <= j < k ==> exists|i: int|
            0 <= i < found.len() && (#[trigger] found[i]).0@ == dates[#[trigger] ranks[j] as int]
    &&& k > 0 ==> found.len() > 0 && found.last().0@ == dates[ranks[k - 1] as int]
}

fn count_dates(list: &Vec<Vec<char>>) -> (result: Vec<(String, u64)>)
    ensures
        tells_dates(result@, sorting::values_of(list@)),
{
    let ghost dates = sorting::values_of(list@);
    let ranks: Vec<usize> = sorting::ranked_positions(list);
    proof {
        sorting::lemma_ranking_length(list@, ranks@, 0, list.len() as int);
    }
    let mut found: Vec<(Vec<char>, u64)> = Vec::new();
    let ghost mut taken: Set<int> = Set::empty();
    let mut k: usize = 0;
    while k < ranks.len()
        invariant
            k <= ranks.len() == list.len(),
            dates == sorting::values_of(list@),
            sorting::is_ranking(list@, ranks@, 0, list.len() as int),
            ranks@.no_duplicates(),
            counts_so_far(found@, dates, ranks@, taken, k as int),
        decreases ranks.len() - k,
    {
        let at: usize = ranks[k];
        let date: &Vec<char> = &list[at];
        let ghost before = found@;
        let ghost grown = taken.insert(at as int);
        proof {
            assert(dates[at as int] == date@);
            if taken.contains(at as int) {
                let j = choose|j: int| 0 <= j < k && #[trigger] ranks@[j] == at as int;
                assert(ranks@[j] != ranks@[k as int]);
            }
            assert forall|p: int| #[trigger] grown.contains(p) <==> exists|j: int|
                0 <= j < k + 1 && #[trigger] ranks@[j] == p by {
                if grown.contains(p) {
                    if p == at {
                        assert(ranks@[k as int] == p);
                    } else {
                        assert(taken.contains(p));
                    }
                }
                if exists|j: int| 0 <= j < k + 1 && #[trigger] ranks@[j] == p {
                    let j = choose|j: int| 0 <= j < k + 1 && #[trigger] ranks@[j] == p;
                    if j < k {
                        assert(taken.contains(p));
                    }
                }
            }
            assert forall|item: Seq<char>|
                #![trigger stands_at(dates, item)]
                grown.filter(stands_at(dates, item)).len() == taken.filter(
                    stands_at(dates, item),
                ).len() + if dates[at as int] == item {
                    1int
                } else {
                    0int
                } && taken.filter(stands_at(dates, item)).len() <= k by {
                lemma_filter_with_one_more(taken, dates, at as int, item);
            }
        }
        let last: usize = found.len();
        let same: bool = last > 0 && found[last - 1].0.is_at_most(date) && date.is_at_most(
            &found[last - 1].0,
        );
        if last > 0 {
            proof {
                Vec::<char>::order_tells_values_apart(before[last - 1].0, *date);
            }
        }
        if same {
            let (held, count): (Vec<char>, u64) = match found.pop() {
                Some(entry) => entry,
                None => (Vec::new(), 0),
            };
            proof {
                assert((held, count) == before[last - 1]);
                assert(count == taken.filter(stands_at(dates, held@)).len());
            }
            found.push((held, count + 1));
            proof {
                assert(found@ =~= before.update(last - 1, (held, (count + 1) as u64)));
            }
        } else {
            let copy: Vec<char> = text::part_of(date, 0, date.len());
            assert(copy@ =~= date@);
            found.push((copy, 1));
        }
        proof {
            lemma_counts_grow(
                before,
                found@,
                list@,
                dates,
                ranks@,
                taken,
                k as int,
                same,
            );
            taken = grown;
        }
        k = k + 1;
    }
    let mut result: Vec<(String, u64)> = Vec::new();
    let mut i: usize = 0;
    while i < found.len()
        invariant
            i <= found.len(),
            result.len() == i,
            forall|j: int|
                0 <= j < i ==> (#[trigger] result@[j]).0@ == found@[j].0@ && result@[j].1
                    == found@[j].1,
        decreases found.len() - i,
    {
        let shown: String = text::text_of(&found[i].0, 0, found[i].0.len());
        assert(shown@ =~= found@[i as int].0@);
        result.push((shown, found[i].1));
        i = i + 1;
    }
    proof {
        let all = vstd::set_lib::set_int_range(0, dates.len() as int);
        assert(taken =~= all) by {
            assert forall|p: int| taken.contains(p) <==> all.contains(p) by {
                if all.contains(p) {
                    assert(ranks@.contains(p as usize));
                    let j = choose|j: int| 0 <= j < ranks.len() && ranks@[j] == p as usize;
                    assert(ranks@[j] == p);
                }
                if taken.contains(p) {
                    let j = choose|j: int| 0 <= j < k && #[trigger] ranks@[j] == p;
                    assert(ranks@[j] < list.len());
                }
            }
        }
        assert forall|a: int, b: int|
            #![trigger result@[a], result@[b]]
            0 <= a < b < result.len() implies sorting::text_at_most(
            result@[a].0@,
            result@[b].0@,
            0,
        ) && result@[a].0@ != result@[b].0@ by {
            assert(found@[a].0.at_most(found@[b].0));
        }
        assert forall|d: int| 0 <= d < dates.len() implies exists|a: int|
            0 <= a < result.len() && (#[trigger] result@[a]).0@ == #[trigger] dates[d] by {
            assert(ranks@.contains(d as usize));
            let j = choose|j: int| 0 <= j < ranks.len() && ranks@[j] == d as usize;
            let a = choose|a: int|
                0 <= a < found.len() && (#[trigger] found@[a]).0@ == dates[ranks@[j] as int];
            assert(result@[a].0@ == dates[d]);
        }
    }
    result
}

proof fn lemma_counts_grow(
    before: Seq<(Vec<char>, u64)>,
    after: Seq<(Vec<char>, u64)>,
    list: Seq<Vec<char>>,
    dates: Seq<Seq<char>>,
    ranks: Seq<usize>,
    taken: Set<int>,
    k: int,
    same: bool,
)
    requires
        0 <= k < ranks.len() == list.len(),
        dates == sorting::values_of(list),
        sorting::is_ranking(list, ranks, 0, list.len() as int),
        ranks.no_duplicates(),
        counts_so_far(before, dates, ranks, taken, k),
        !taken.contains(ranks[k] as int),
        forall|p: int| #[trigger] taken.insert(ranks[k] as int).contains(p) <==> exists|j: int|
            0 <= j < k + 1 && #[trigger] ranks[j] == p,
        forall|item: Seq<char>|
            #![trigger stands_at(dates, item)]
            taken.insert(ranks[k] as int).filter(stands_at(dates, item)).len() == taken.filter(
                stands_at(dates, item),
            ).len() + if dates[ranks[k] as int] == item {
                1int
            } else {
                0int
            },
        same == (before.len() > 0 && before.last().0@ == dates[ranks[k] as int]),
        same ==> after.len() == before.len() && (forall|i: int|
            0 <= i < before.len() - 1 ==> #[trigger] after[i] == before[i]) && after.last().0@
            == before.last().0@ && after.last().0 == before.last().0 && after.last().1
            == before.last().1 + 1,
        !same ==> after.len() == before.len() + 1 && (forall|i: int|
            0 <= i < before.len() ==> #[trigger] after[i] == before[i]) && after.last().0@
            == dates[ranks[k] as int] && after.last().1 == 1,
    ensures
        counts_so_far(after, dates, ranks, taken.insert(ranks[k] as int), k + 1),
{
    let grown = taken.insert(ranks[k] as int);
    let now = dates[ranks[k] as int];
    let n = after.len() as int;
    assert(0 <= ranks[k] < list.len());
    assert(dates[ranks[k] as int] == list[ranks[k] as int]@);
    assert(dates.contains(now));
    // Nothing met before the last date is this date.
    assert forall|p: int| !same && taken.contains(p) implies dates[p] != now by {
        let j = choose|j: int| 0 <= j < k && #[trigger] ranks[j] == p;
        let last = ranks[k - 1] as int;
        assert(sorting::ahead(list, last, ranks[k] as int));
        if j < k - 1 {
            assert(sorting::ahead(list, ranks[j] as int, last));
        }
        if dates[p] == now {
            assert(list[p]@ == dates[p]);
            assert(list[last]@ == dates[last]);
            Vec::<char>::order_tells_values_apart(list[p], list[ranks[k] as int]);
            Vec::<char>::order_tells_values_apart(list[last], list[last]);
            Vec::<char>::order_is_transitive(list[ranks[k] as int], list[p], list[last]);
            Vec::<char>::order_tells_values_apart(list[last], list[ranks[k] as int]);
            assert(dates[last] == now);
        }
    }
    if !same {
        assert(taken.filter(stands_at(dates, now)) =~= Set::empty());
    }
    assert forall|i: int| 0 <= i < n implies (#[trigger] after[i]).1 == grown.filter(
        stands_at(dates, after[i].0@),
    ).len() && after[i].1 > 0 && dates.contains(after[i].0@) by {
        if i < n - 1 {
            assert(after[i] == before[i]);
            assert(before[i].0@ != now) by {
                if before[i].0@ == now {
                    if same {
                        assert(before[i].0@ != before[before.len() - 1].0@);
                    } else {
                        let m = before[i].0@;
                        assert(before[i].1 == taken.filter(stands_at(dates, m)).len());
                        lemma_met(before, dates, ranks, taken, k, i);
                        let p = choose|p: int| #[trigger] taken.contains(p) && dates[p] == m;
                        assert(dates[p] != now);
                    }
                }
            }
        } else if same {
            assert(before[n - 1].1 == taken.filter(stands_at(dates, now)).len());
        }
    }
    assert forall|i: int, j: int|
        #![trigger after[i], after[j]]
        0 <= i < j < n implies after[i].0.at_most(after[j].0) && after[i].0@ != after[j].0@ by {
        assert(after[i] == before[i]);
        if j < n - 1 {
            assert(after[j] == before[j]);
        } else if same {
            assert(before[i].0.at_most(before[j].0));
        } else {
            lemma_met(before, dates, ranks, taken, k, i);
            let p = choose|p: int| #[trigger] taken.contains(p) && dates[p] == before[i].0@;
            let r = choose|r: int| 0 <= r < k && #[trigger] ranks[r] == p;
            assert(sorting::ahead(list, ranks[r] as int, ranks[k] as int));
            assert(list[p]@ == before[i].0@);
            Vec::<char>::order_tells_values_apart(list[p], before[i].0);
            Vec::<char>::order_tells_values_apart(list[ranks[k] as int], after[j].0);
            Vec::<char>::order_is_transitive(before[i].0, list[p], list[ranks[k] as int]);
            Vec::<char>::order_is_transitive(before[i].0, list[ranks[k] as int], after[j].0);
        }
    }
    assert forall|j: int| 0 <= j < k + 1 implies exists|i: int|
        0 <= i < n && (#[trigger] after[i]).0@ == dates[#[trigger] ranks[j] as int] by {
        if j < k {
            let i = choose|i: int|
                0 <= i < before.len() && (#[trigger] before[i]).0@ == dates[ranks[j] as int];
            assert(after[i].0@ == before[i].0@);
        } else {
            assert(after[n - 1].0@ == now);
        }
    }
}

proof fn lemma_met(
    found: Seq<(Vec<char>, u64)>,
    dates: Seq<Seq<char>>,
    ranks: Seq<usize>,
    taken: Set<int>,
    k: int,
    i: int,
)
    requires
        counts_so_far(found, dates, ranks, taken, k),
        0 <= i < found.len(),
    ensures
        exists|p: int| #[trigger] taken.contains(p) && dates[p] == found[i].0@,
{
    let met = taken.filter(stands_at(dates, found[i].0@));
    assert(found[i].1 == met.len());
    let p = met.choose();
    assert(met.contains(p));
    assert(taken.contains(p));
}

/// Loads the rows of one day. What is wrong with a row comes first, then a second date or none,
/// then repeated rows. `failure` tells why the row after them could not be read, where one could
/// not.
pub fn load_day(rows: &Vec<CsvRound>, failure: Option<String>) -> (result: Result<
    LoadedRounds,
    DayLoadError,
>)
    requires
        rows.len() + 2 <= u64::MAX,
    ensures
        exists|loading: Result<LoadedRounds, CsvReplayError>| #[trigger]
            load::is_loading(loading, rows@, failure) && is_day_loading(result, loading, rows@),
{
    let loading: Result<LoadedRounds, CsvReplayError> = load_rounds(rows, failure);
    let ghost told = loading;
    match loading {
        Err(CsvReplayError::InvalidTimestamp(time)) => {
            let result: Result<LoadedRounds, DayLoadError> = Err(
                DayLoadError::Rows(CsvReplayError::InvalidTimestamp(time)),
            );
            assert(is_day_loading(result, told, rows@));
            result
        },
        Err(CsvReplayError::Csv(message)) => {
            let result: Result<LoadedRounds, DayLoadError> = Err(
                DayLoadError::Rows(CsvReplayError::Csv(message)),
            );
            assert(is_day_loading(result, told, rows@));
            result
        },
        other => {
            let list: Vec<(String, u64)> = count_dates(&dates_of(rows));
            let ghost dates = load::dates(rows@);
            if list.len() != 1 {
                proof {
                    if single(dates) {
                        let i = choose|i: int|
                            0 <= i < list.len() && (#[trigger] list@[i]).0@ == dates[0];
                        assert(list.len() > 1);
                        let a = list@[0].0@;
                        let b = list@[1].0@;
                        assert(dates.contains(a) && dates.contains(b));
                        assert(a != b);
                    }
                }
                let result: Result<LoadedRounds, DayLoadError> = Err(
                    DayLoadError::MultipleBusinessDates(list),
                );
                assert(is_day_loading(result, told, rows@));
                return result;
            }
            proof {
                assert(dates.contains(list@[0].0@));
                assert forall|d: int| 0 <= d < dates.len() implies #[trigger] dates[d]
                    == dates[0] by {
                    let i = choose|i: int|
                        0 <= i < list.len() && (#[trigger] list@[i]).0@ == dates[d];
                    let j = choose|j: int|
                        0 <= j < list.len() && (#[trigger] list@[j]).0@ == dates[0];
                }
                assert(single(dates));
            }
            let result: Result<LoadedRounds, DayLoadError> = match other {
                Ok(loaded) => Ok(loaded),
                Err(error) => Err(DayLoadError::Rows(error)),
            };
            assert(is_day_loading(result, told, rows@));
            result
        },
    }
}

} // verus!
