//! Loading recorded rounds: judging every row, refusing repeated ones and describing the rest.

use vstd::prelude::*;

use crate::baccarat::records;
use crate::baccarat::records::{CsvDatasetReport, CsvQualityReport, CsvReplayError, CsvRound};
use crate::baccarat::records::{LoadedRound, RowVerdict};
use crate::sorting;
use crate::sorting::Sortable;
use crate::text;

verus! {

/// The items that are there.
pub open spec fn present<T>(items: Seq<Option<T>>) -> Seq<T>
    decreases items.len(),
{
    if items.len() == 0 {
        Seq::empty()
    } else {
        let before = present(items.drop_last());
        match items.last() {
            Some(item) => before.push(item),
            None => before,
        }
    }
}

/// The recorded times at which the rounds started.
pub open spec fn start_times(rows: Seq<CsvRound>) -> Seq<Seq<char>> {
    present(rows.map_values(|row: CsvRound| records::text_of(row.started_at)))
}

/// The recorded times at which the rounds were settled.
pub open spec fn settling_times(rows: Seq<CsvRound>) -> Seq<Seq<char>> {
    present(rows.map_values(|row: CsvRound| records::text_of(row.settled_at)))
}

/// The keys of the rows at their source.
pub open spec fn source_keys(rows: Seq<CsvRound>) -> Seq<Seq<char>> {
    present(rows.map_values(|row: CsvRound| records::text_of(row.source_pk)))
}

/// The date of a row, where its time was recorded and starts with one.
pub open spec fn row_date(row: CsvRound) -> Option<Seq<char>> {
    match row.started_at {
        Some(time) => records::date_of(time@),
        None => None,
    }
}

/// The dates of the rows.
pub open spec fn dates(rows: Seq<CsvRound>) -> Seq<Seq<char>> {
    present(rows.map_values(|row: CsvRound| row_date(row)))
}

/// The places of the rows: table, shoe and round.
pub open spec fn places(rows: Seq<CsvRound>) -> Seq<(u64, u64, u32)> {
    rows.map_values(|row: CsvRound| (row.table_id, row.session_id, row.round_no))
}

/// The shoes of the rows.
pub open spec fn sessions(rows: Seq<CsvRound>) -> Seq<(u64, u64)> {
    rows.map_values(|row: CsvRound| (row.table_id, row.session_id))
}

/// The tables of the rows.
pub open spec fn tables(rows: Seq<CsvRound>) -> Seq<u64> {
    rows.map_values(|row: CsvRound| row.table_id)
}

/// How many of the values repeat an earlier one.
pub open spec fn repeats<V>(values: Seq<V>) -> int {
    values.len() - values.to_set().len()
}

/// The least of the texts. An empty text yields to any that follows it.
pub open spec fn least(texts: Seq<Seq<char>>) -> Seq<char>
    decreases texts.len(),
{
    if texts.len() == 0 {
        Seq::empty()
    } else {
        let before = least(texts.drop_last());
        if before.len() == 0 || !sorting::text_at_most(before, texts.last(), 0) {
            texts.last()
        } else {
            before
        }
    }
}

/// The greatest of the texts.
pub open spec fn greatest(texts: Seq<Seq<char>>) -> Seq<char>
    decreases texts.len(),
{
    if texts.len() == 0 {
        Seq::empty()
    } else {
        let before = greatest(texts.drop_last());
        if before.len() == 0 || !sorting::text_at_most(texts.last(), before, 0) {
            texts.last()
        } else {
            before
        }
    }
}

/// How many of the rows are judged so.
pub open spec fn judged(rows: Seq<CsvRound>, verdict: RowVerdict) -> nat
    decreases rows.len(),
{
    if rows.len() == 0 {
        0
    } else {
        judged(rows.drop_last(), verdict) + if records::row_verdict(rows.last()) == verdict {
            1nat
        } else {
            0nat
        }
    }
}

/// Whether the recorded time of a row does not start with a date.
pub open spec fn undated(row: CsvRound) -> bool {
    row.started_at is Some && row_date(row) is None
}

/// Whether a report describes rows.
pub open spec fn describes(report: CsvDatasetReport, rows: Seq<CsvRound>) -> bool {
    &&& report.total_rows == rows.len()
    &&& report.table_count == tables(rows).to_set().len()
    &&& report.session_count == sessions(rows).to_set().len()
    &&& report.business_date_count == dates(rows).to_set().len()
    &&& report.business_date_min@ == least(dates(rows))
    &&& report.business_date_max@ == greatest(dates(rows))
    &&& report.started_at_min@ == least(start_times(rows))
    &&& report.started_at_max@ == greatest(start_times(rows))
    &&& report.settled_at_min@ == least(settling_times(rows))
    &&& report.settled_at_max@ == greatest(settling_times(rows))
    &&& report.duplicate_source_pk_rows == repeats(source_keys(rows))
    &&& report.duplicate_round_keys == repeats(places(rows))
}

/// Whether a report counts how rows were judged, and no shoe yet.
pub open spec fn counts_rows(report: CsvQualityReport, rows: Seq<CsvRound>) -> bool {
    &&& report.valid_card_rows == judged(rows, RowVerdict::Valid)
    &&& report.empty_card_rows == judged(rows, RowVerdict::Empty)
    &&& report.invalid_card_rows == judged(rows, RowVerdict::Invalid)
    &&& report.outcome_mismatch_rows == judged(rows, RowVerdict::Mismatch)
    &&& report.sessions_starting_at_one == 0
    &&& report.sessions_starting_mid_shoe == 0
    &&& report.sessions_with_round_gaps == 0
    &&& report.sessions_with_empty_cards == 0
    &&& report.sessions_with_invalid_rows == 0
    &&& report.fully_observable_sessions == 0
    &&& report.quarantined_rounds == 0
}

/// Every row is judged in one way.
pub proof fn lemma_every_row_is_judged(rows: Seq<CsvRound>)
    ensures
        judged(rows, RowVerdict::Valid) + judged(rows, RowVerdict::Empty) + judged(
            rows,
            RowVerdict::Invalid,
        ) + judged(rows, RowVerdict::Mismatch) == rows.len(),
    decreases rows.len(),
{
    if rows.len() > 0 {
        lemma_every_row_is_judged(rows.drop_last());
    }
}

/// Of texts that are not empty the least one comes before all of them, and is one of them.
pub proof fn lemma_least_is_the_minimum(texts: Seq<Seq<char>>)
    requires
        texts.len() > 0,
        forall|i: int| 0 <= i < texts.len() ==> (#[trigger] texts[i]).len() > 0,
    ensures
        texts.contains(least(texts)),
        forall|i: int|
            0 <= i < texts.len() ==> sorting::text_at_most(least(texts), #[trigger] texts[i], 0),
    decreases texts.len(),
{
    let last = texts.last();
    assert(texts[texts.len() - 1] == last);
    if texts.len() == 1 {
        sorting::lemma_text_order(last, last, last);
        assert(least(texts.drop_last()) =~= Seq::<char>::empty());
    } else {
        let rest = texts.drop_last();
        assert forall|i: int| 0 <= i < rest.len() implies (#[trigger] rest[i]).len() > 0 by {
            assert(rest[i] == texts[i]);
        }
        lemma_least_is_the_minimum(rest);
        let before = least(rest);
        let at = choose|at: int| 0 <= at < rest.len() && rest[at] == before;
        assert(texts[at] == before);
        assert forall|i: int| 0 <= i < texts.len() implies sorting::text_at_most(
            least(texts),
            #[trigger] texts[i],
            0,
        ) by {
            if i < rest.len() {
                assert(rest[i] == texts[i]);
                sorting::lemma_text_order(last, before, texts[i]);
            } else {
                sorting::lemma_text_order(last, last, before);
            }
        }
    }
}

proof fn lemma_present_step<T>(items: Seq<Option<T>>, i: int)
    requires
        0 <= i < items.len(),
    ensures
        present(items.take(i + 1)) == match items[i] {
            Some(item) => present(items.take(i)).push(item),
            None => present(items.take(i)),
        },
{
    assert(items.take(i + 1).drop_last() =~= items.take(i));
}

proof fn lemma_present_at_most<T>(items: Seq<Option<T>>)
    ensures
        present(items).len() <= items.len(),
    decreases items.len(),
{
    if items.len() > 0 {
        lemma_present_at_most(items.drop_last());
    }
}

proof fn lemma_values_push<T: View>(items: Seq<T>, item: T)
    ensures
        sorting::values_of(items.push(item)) == sorting::values_of(items).push(item@),
{
    assert(sorting::values_of(items.push(item)) =~= sorting::values_of(items).push(item@));
}

fn least_text(texts: &Vec<Vec<char>>) -> (result: String)
    ensures
        result@ == least(sorting::values_of(texts@)),
{
    let mut best: Vec<char> = Vec::new();
    let mut i: usize = 0;
    let ghost values = sorting::values_of(texts@);
    assert(values.take(0) =~= Seq::empty());
    while i < texts.len()
        invariant
            i <= texts.len(),
            values == sorting::values_of(texts@),
            best@ == least(values.take(i as int)),
        decreases texts.len() - i,
    {
        proof {
            assert(values.take(i + 1).drop_last() =~= values.take(i as int));
            assert(values.take(i + 1).last() == texts@[i as int]@);
        }
        if best.len() == 0 || !best.is_at_most(&texts[i]) {
            best = text::part_of(&texts[i], 0, texts[i].len());
            assert(best@ =~= texts@[i as int]@);
        }
        i = i + 1;
    }
    assert(values.take(i as int) =~= values);
    let result: String = text::text_of(&best, 0, best.len());
    assert(result@ =~= best@);
    result
}

fn greatest_text(texts: &Vec<Vec<char>>) -> (result: String)
    ensures
        result@ == greatest(sorting::values_of(texts@)),
{
    let mut best: Vec<char> = Vec::new();
    let mut i: usize = 0;
    let ghost values = sorting::values_of(texts@);
    assert(values.take(0) =~= Seq::empty());
    while i < texts.len()
        invariant
            i <= texts.len(),
            values == sorting::values_of(texts@),
            best@ == greatest(values.take(i as int)),
        decreases texts.len() - i,
    {
        proof {
            assert(values.take(i + 1).drop_last() =~= values.take(i as int));
            assert(values.take(i + 1).last() == texts@[i as int]@);
        }
        if best.len() == 0 || !texts[i].is_at_most(&best) {
            best = text::part_of(&texts[i], 0, texts[i].len());
            assert(best@ =~= texts@[i as int]@);
        }
        i = i + 1;
    }
    assert(values.take(i as int) =~= values);
    let result: String = text::text_of(&best, 0, best.len());
    assert(result@ =~= best@);
    result
}

/// Judged rows without a repeated place, with what they look like.
#[derive(Debug)]
pub struct LoadedRounds {
    rounds: Vec<LoadedRound>,
    dataset: CsvDatasetReport,
    quality: CsvQualityReport,
}

/// Whether judged rows are in order by themselves and no place occurs twice.
pub open spec fn well_formed(rounds: Seq<LoadedRound>) -> bool {
    &&& forall|i: int| 0 <= i < rounds.len() ==> (#[trigger] rounds[i]).wf()
    &&& forall|i: int, j: int|
        #![trigger rounds[i], rounds[j]]
        0 <= i < j < rounds.len() ==> rounds[i].place() != rounds[j].place()
}

impl LoadedRounds {
    #[verifier::type_invariant]
    spec fn inv(self) -> bool {
        well_formed(self.rounds@)
    }

    /// The judged rows.
    pub closed spec fn list(self) -> Seq<LoadedRound> {
        self.rounds@
    }

    /// What the rows look like.
    pub closed spec fn description(self) -> CsvDatasetReport {
        self.dataset
    }

    /// How the rows were judged.
    pub closed spec fn judgement(self) -> CsvQualityReport {
        self.quality
    }

    /// The judged rows.
    pub fn rounds(&self) -> (rounds: &Vec<LoadedRound>)
        ensures
            rounds@ == self.list(),
            well_formed(rounds@),
    {
        proof {
            use_type_invariant(self);
        }
        &self.rounds
    }

    /// What the rows look like.
    pub fn dataset(&self) -> (dataset: &CsvDatasetReport)
        ensures
            *dataset == self.description(),
    {
        &self.dataset
    }

    /// How the rows were judged.
    pub fn quality(&self) -> (quality: CsvQualityReport)
        ensures
            quality == self.judgement(),
    {
        self.quality
    }
}

/// Whether a result is that of loading rows in their order. `failure` tells why the row after
/// them could not be read, where one could not.
pub open spec fn is_loading(
    result: Result<LoadedRounds, CsvReplayError>,
    rows: Seq<CsvRound>,
    failure: Option<String>,
) -> bool {
    match result {
        Ok(loaded) => {
            &&& forall|i: int| 0 <= i < rows.len() ==> !undated(#[trigger] rows[i])
            &&& failure is None
            &&& rows.len() > 0
            &&& repeats(source_keys(rows)) == 0
            &&& repeats(places(rows)) == 0
            &&& loaded.list().len() == rows.len()
            &&& forall|i: int|
                0 <= i < rows.len() ==> (#[trigger] loaded.list()[i]).tells(rows[i], i)
            &&& describes(loaded.description(), rows)
            &&& counts_rows(loaded.judgement(), rows)
        },
        Err(CsvReplayError::InvalidTimestamp(time)) => exists|i: int|
            {
                &&& 0 <= i < rows.len()
                &&& undated(#[trigger] rows[i])
                &&& forall|j: int| 0 <= j < i ==> !undated(#[trigger] rows[j])
                &&& records::text_of(rows[i].started_at) == Some(time@)
            },
        Err(CsvReplayError::Csv(message)) => {
            &&& forall|i: int| 0 <= i < rows.len() ==> !undated(#[trigger] rows[i])
            &&& records::text_of(failure) == Some(message@)
        },
        Err(CsvReplayError::EmptyDataset) => failure is None && rows.len() == 0,
        Err(CsvReplayError::DuplicateKeys { source_pk_rows, round_keys }) => {
            &&& forall|i: int| 0 <= i < rows.len() ==> !undated(#[trigger] rows[i])
            &&& failure is None
            &&& rows.len() > 0
            &&& source_pk_rows == repeats(source_keys(rows))
            &&& round_keys == repeats(places(rows))
            &&& source_pk_rows > 0 || round_keys > 0
        },
        Err(_) => false,
    }
}

/// Loads rows in their order. `failure` tells why the row after them could not be read, where
/// one could not.
pub fn load_rounds(rows: &Vec<CsvRound>, failure: Option<String>) -> (result: Result<
    LoadedRounds,
    CsvReplayError,
>)
    requires
        rows.len() + 2 <= u64::MAX,
    ensures
        is_loading(result, rows@, failure),
{
    let mut rounds: Vec<LoadedRound> = Vec::new();
    let mut start_list: Vec<Vec<char>> = Vec::new();
    let mut settling_list: Vec<Vec<char>> = Vec::new();
    let mut key_list: Vec<Vec<char>> = Vec::new();
    let mut date_list: Vec<Vec<char>> = Vec::new();
    let mut table_list: Vec<u64> = Vec::new();
    let mut session_list: Vec<(u64, u64)> = Vec::new();
    let mut place_list: Vec<(u64, u64, u32)> = Vec::new();
    let mut valid: u64 = 0;
    let mut empty: u64 = 0;
    let mut invalid: u64 = 0;
    let mut mismatch: u64 = 0;
    let mut i: usize = 0;
    let ghost starts = rows@.map_values(|row: CsvRound| records::text_of(row.started_at));
    let ghost settlings = rows@.map_values(|row: CsvRound| records::text_of(row.settled_at));
    let ghost keys = rows@.map_values(|row: CsvRound| records::text_of(row.source_pk));
    let ghost days = rows@.map_values(|row: CsvRound| row_date(row));
    proof {
        assert(starts.take(0) =~= Seq::empty());
        assert(settlings.take(0) =~= Seq::empty());
        assert(keys.take(0) =~= Seq::empty());
        assert(days.take(0) =~= Seq::empty());
        assert(rows@.take(0) =~= Seq::empty());
        assert(sorting::values_of(start_list@) =~= Seq::empty());
    }
    while i < rows.len()
        invariant
            i <= rows.len(),
            rows.len() + 2 <= u64::MAX,
            starts == rows@.map_values(|row: CsvRound| records::text_of(row.started_at)),
            settlings == rows@.map_values(|row: CsvRound| records::text_of(row.settled_at)),
            keys == rows@.map_values(|row: CsvRound| records::text_of(row.source_pk)),
            days == rows@.map_values(|row: CsvRound| row_date(row)),
            rounds.len() == i,
            forall|j: int| 0 <= j < i ==> (#[trigger] rounds@[j]).tells(rows@[j], j),
            forall|j: int| 0 <= j < i ==> (#[trigger] rounds@[j]).wf(),
            forall|j: int| 0 <= j < i ==> !undated(#[trigger] rows@[j]),
            sorting::values_of(start_list@) == present(starts.take(i as int)),
            sorting::values_of(settling_list@) == present(settlings.take(i as int)),
            sorting::values_of(key_list@) == present(keys.take(i as int)),
            sorting::values_of(date_list@) == present(days.take(i as int)),
            table_list@ == tables(rows@.take(i as int)),
            session_list@ == sessions(rows@.take(i as int)),
            place_list@ == places(rows@.take(i as int)),
            valid == judged(rows@.take(i as int), RowVerdict::Valid),
            empty == judged(rows@.take(i as int), RowVerdict::Empty),
            invalid == judged(rows@.take(i as int), RowVerdict::Invalid),
            mismatch == judged(rows@.take(i as int), RowVerdict::Mismatch),
        decreases rows.len() - i,
    {
        let row: &CsvRound = &rows[i];
        proof {
            lemma_present_step(starts, i as int);
            lemma_present_step(settlings, i as int);
            lemma_present_step(keys, i as int);
            lemma_present_step(days, i as int);
            lemma_every_row_is_judged(rows@.take(i as int));
            assert(rows@.take(i + 1).drop_last() =~= rows@.take(i as int));
            assert(rows@.take(i + 1) =~= rows@.take(i as int).push(*row));
        }
        match &row.source_pk {
            Some(key) => {
                let chars: Vec<char> = text::chars_of(key.as_str());
                proof {
                    lemma_values_push(key_list@, chars);
                }
                key_list.push(chars);
            },
            None => {},
        }
        match &row.settled_at {
            Some(time) => {
                let chars: Vec<char> = text::chars_of(time.as_str());
                proof {
                    lemma_values_push(settling_list@, chars);
                }
                settling_list.push(chars);
            },
            None => {},
        }
        match &row.started_at {
            Some(time) => {
                let chars: Vec<char> = text::chars_of(time.as_str());
                match records::read_date(&chars) {
                    Some(date) => {
                        proof {
                            lemma_values_push(date_list@, date);
                        }
                        date_list.push(date);
                    },
                    None => {
                        return Err(CsvReplayError::InvalidTimestamp(time.clone()));
                    },
                }
                proof {
                    lemma_values_push(start_list@, chars);
                }
                start_list.push(chars);
            },
            None => {},
        }
        table_list.push(row.table_id);
        session_list.push((row.table_id, row.session_id));
        place_list.push((row.table_id, row.session_id, row.round_no));
        let (loaded, verdict): (LoadedRound, RowVerdict) = records::validate_source_round(row, i);
        match verdict {
            RowVerdict::Valid => {
                valid = valid + 1;
            },
            RowVerdict::Empty => {
                empty = empty + 1;
            },
            RowVerdict::Invalid => {
                invalid = invalid + 1;
            },
            RowVerdict::Mismatch => {
                mismatch = mismatch + 1;
            },
        }
        rounds.push(loaded);
        proof {
            assert(tables(rows@.take(i + 1)) =~= tables(rows@.take(i as int)).push(row.table_id));
            assert(sessions(rows@.take(i + 1)) =~= sessions(rows@.take(i as int)).push(
                (row.table_id, row.session_id),
            ));
            assert(places(rows@.take(i + 1)) =~= places(rows@.take(i as int)).push(
                (row.table_id, row.session_id, row.round_no),
            ));
        }
        i = i + 1;
    }
    proof {
        assert(starts.take(i as int) =~= starts);
        assert(settlings.take(i as int) =~= settlings);
        assert(keys.take(i as int) =~= keys);
        assert(days.take(i as int) =~= days);
        assert(rows@.take(i as int) =~= rows@);
        lemma_present_at_most(keys);
    }
    match failure {
        Some(message) => {
            return Err(CsvReplayError::Csv(message));
        },
        None => {},
    }
    if rows.len() == 0 {
        return Err(CsvReplayError::EmptyDataset);
    }
    proof {
        assert(sorting::values_of(table_list@) =~= tables(rows@));
        assert(sorting::values_of(session_list@) =~= sessions(rows@));
        assert(sorting::values_of(place_list@) =~= places(rows@));
    }
    let repeated_keys: u64 = (key_list.len() - sorting::distinct_count(&key_list)) as u64;
    let repeated_places: u64 = (place_list.len() - sorting::distinct_count(&place_list)) as u64;
    if repeated_keys > 0 || repeated_places > 0 {
        return Err(
            CsvReplayError::DuplicateKeys {
                source_pk_rows: repeated_keys,
                round_keys: repeated_places,
            },
        );
    }
    let dataset: CsvDatasetReport = CsvDatasetReport {
        total_rows: rows.len() as u64,
        table_count: sorting::distinct_count(&table_list),
        session_count: sorting::distinct_count(&session_list),
        business_date_count: sorting::distinct_count(&date_list),
        business_date_min: least_text(&date_list),
        business_date_max: greatest_text(&date_list),
        started_at_min: least_text(&start_list),
        started_at_max: greatest_text(&start_list),
        settled_at_min: least_text(&settling_list),
        settled_at_max: greatest_text(&settling_list),
        duplicate_source_pk_rows: repeated_keys,
        duplicate_round_keys: repeated_places,
    };
    let quality: CsvQualityReport = CsvQualityReport {
        valid_card_rows: valid,
        empty_card_rows: empty,
        invalid_card_rows: invalid,
        outcome_mismatch_rows: mismatch,
        sessions_starting_at_one: 0,
        sessions_starting_mid_shoe: 0,
        sessions_with_round_gaps: 0,
        sessions_with_empty_cards: 0,
        sessions_with_invalid_rows: 0,
        fully_observable_sessions: 0,
        quarantined_rounds: 0,
    };
    proof {
        sorting::lemma_all_different(places(rows@));
        assert forall|a: int, b: int|
            #![trigger rounds@[a], rounds@[b]]
            0 <= a < b < rounds.len() implies rounds@[a].place() != rounds@[b].place() by {
            assert(rounds@[a].tells(rows@[a], a));
            assert(rounds@[b].tells(rows@[b], b));
            assert(rounds@[a].place() == places(rows@)[a]);
            assert(rounds@[b].place() == places(rows@)[b]);
        }
    }
    Ok(LoadedRounds { rounds, dataset, quality })
}

} // verus!
