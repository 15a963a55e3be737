//! Decoding activity tables into records, and summing their durations.
//!
//! A table has a header row naming its columns; the `Date` column holds a
//! start time `YYYY-MM-DD HH:MM:SS`, read as UTC (the export carries no zone),
//! and the `Time` column an elapsed time `HH:MM:SS`. Other columns are ignored.

use vstd::prelude::*;
use crate::duration_text::{clamp_u64, decode_duration, duration_of_text};
use crate::errors::{ActivityFault, Column, Error, RowError, RowFault};
use crate::instant::{later, naive_utc_of, parse_naive_utc, Instant};

verus! {

/// The pattern of the `Date` column.
pub const DATE_FORMAT: &'static str = "%Y-%m-%d %H:%M:%S";

/// The header of the start-time column.
pub const DATE_COLUMN: &'static str = "Date";

/// The header of the elapsed-time column.
pub const TIME_COLUMN: &'static str = "Time";

/// One recorded activity: when it started, and how many seconds it lasted.
#[derive(Clone, Copy, Debug, PartialEq, Eq, Structural)]
pub struct Activity {
    pub date: Instant,
    pub duration: u64,
}

/// The activities of a log, in the order of their rows.
#[derive(Clone, Debug)]
pub struct Activities {
    pub activities: Vec<Activity>,
}

impl View for Activities {
    type V = Seq<Activity>;

    open spec fn view(&self) -> Seq<Activity> {
        self.activities@
    }
}

/// A decoded log: the activities of the well-formed rows, and an error for
/// each malformed row, both in row order.
#[derive(Clone, Debug)]
pub struct ActivityLog {
    pub activities: Activities,
    pub row_errors: Vec<RowError>,
}

/// The sum of all durations.
pub open spec fn total_of(acts: Seq<Activity>) -> int
    decreases acts.len(),
{
    if acts.len() == 0 {
        0
    } else {
        total_of(acts.drop_last()) + acts.last().duration
    }
}

/// The sum of the durations of the activities that start strictly after `since`.
pub open spec fn total_after(acts: Seq<Activity>, since: Instant) -> int
    decreases acts.len(),
{
    if acts.len() == 0 {
        0
    } else {
        total_after(acts.drop_last(), since) + if later(acts.last().date, since) {
            acts.last().duration as int
        } else {
            0
        }
    }
}

/// `i` is the first position of `name` in the header `h`.
pub open spec fn column_at(h: Seq<Seq<char>>, name: Seq<char>, i: int) -> bool {
    &&& 0 <= i < h.len()
    &&& h[i] == name
    &&& forall|j: int| 0 <= j < i ==> #[trigger] h[j] != name
}

/// The first position of `name` in the header `h`, if any.
pub open spec fn column_of(h: Seq<Seq<char>>, name: Seq<char>) -> Option<int> {
    if exists|i: int| column_at(h, name, i) {
        Some(choose|i: int| column_at(h, name, i))
    } else {
        None
    }
}

/// The outcome of a row whose `Date` field read as `date` and whose `Time`
/// field is `time`.
#[verifier::opaque]
pub open spec fn fields_outcome(date: Option<(i64, u32)>, time: Seq<char>) -> Result<
    Activity,
    RowFault,
> {
    match date {
        None => Err(RowFault::BadDate),
        Some(t) => match duration_of_text(time) {
            None => Err(RowFault::BadDuration),
            Some(d) => Ok(Activity { date: Instant { secs: t.0, nanos: t.1 }, duration: d }),
        },
    }
}

/// The outcome of one data row, with the date and time columns at `dc` and `tc`.
pub open spec fn row_outcome(row: Option<Seq<Seq<char>>>, dc: int, tc: int) -> Result<
    Activity,
    RowFault,
> {
    match row {
        None => Err(RowFault::Unreadable),
        Some(f) => if !(0 <= dc < f.len() && 0 <= tc < f.len()) {
            Err(RowFault::MissingField)
        } else {
            fields_outcome(naive_utc_of(f[dc], DATE_FORMAT@), f[tc])
        },
    }
}

/// The activities of the well-formed rows among `rows`, in order.
pub open spec fn decoded_rows(rows: Seq<Option<Seq<Seq<char>>>>, dc: int, tc: int) -> Seq<Activity>
    decreases rows.len(),
{
    if rows.len() == 0 {
        Seq::empty()
    } else {
        let init = decoded_rows(rows.drop_last(), dc, tc);
        match row_outcome(rows.last(), dc, tc) {
            Ok(a) => init.push(a),
            Err(_) => init,
        }
    }
}

/// An error for each malformed row among `rows`, in order.
pub open spec fn rejected_rows(rows: Seq<Option<Seq<Seq<char>>>>, dc: int, tc: int) -> Seq<RowError>
    decreases rows.len(),
{
    if rows.len() == 0 {
        Seq::empty()
    } else {
        let init = rejected_rows(rows.drop_last(), dc, tc);
        match row_outcome(rows.last(), dc, tc) {
            Ok(_) => init,
            Err(f) => init.push(RowError { row: (rows.len() - 1) as usize, fault: f }),
        }
    }
}

/// The data rows of a table: every row after the header.
pub open spec fn data_rows(t: Seq<Option<Seq<Seq<char>>>>) -> Seq<Option<Seq<Seq<char>>>> {
    if t.len() == 0 {
        t
    } else {
        t.drop_first()
    }
}

/// The decoded log of a table whose first row is the header (an empty table
/// has an empty header): the activities and the row errors, or why the table
/// as a whole is rejected.
pub open spec fn log_of_table(t: Seq<Option<Seq<Seq<char>>>>) -> Result<
    (Seq<Activity>, Seq<RowError>),
    ActivityFault,
> {
    let header = if t.len() == 0 {
        Some(Seq::<Seq<char>>::empty())
    } else {
        t[0]
    };
    match header {
        None => Err(ActivityFault::UnreadableHeader),
        Some(h) => match (column_of(h, DATE_COLUMN@), column_of(h, TIME_COLUMN@)) {
            (None, _) => Err(ActivityFault::MissingColumn(Column::Date)),
            (_, None) => Err(ActivityFault::MissingColumn(Column::Time)),
            (Some(dc), Some(tc)) => Ok(
                (decoded_rows(data_rows(t), dc, tc), rejected_rows(data_rows(t), dc, tc)),
            ),
        },
    }
}

/// What the record reader gives for a byte stream: each record, the header
/// row first, as its text fields, or `None` where the record could not be read.
pub uninterp spec fn csv_records_of(data: Seq<u8>) -> Seq<Option<Seq<Seq<char>>>>;

/// Relies on `csv::Reader` (default dialect, the header row read as a
/// record) to split `data` into records of text fields; a record the reader
/// reports an error for becomes `None`.
#[verifier::external_body]
fn read_csv_records(data: &[u8]) -> (r: Vec<Option<Vec<String>>>)
    ensures
        r.deep_view() == csv_records_of(data@),
{
    csv::ReaderBuilder::new().has_headers(false).from_reader(data).into_records().map(
        |rec| rec.ok().map(|rec| rec.iter().map(String::from).collect()),
    ).collect()
}

/// Whether two texts are equal.
pub fn text_eq(a: &str, b: &str) -> (r: bool)
    ensures
        r == (a@ == b@),
{
    let n = a.unicode_len();
    if n != b.unicode_len() {
        return false;
    }
    let mut i: usize = 0;
    while i < n
        invariant
            n == a@.len() == b@.len(),
            i <= n,
            forall|k: int| 0 <= k < i ==> a@[k] == b@[k],
        decreases n - i,
    {
        if a.get_char(i) != b.get_char(i) {
            return false;
        }
        i = i + 1;
    }
    assert(a@ =~= b@);
    true
}

/// The first position of `name` among the header fields `h`.
pub fn find_column(h: &Vec<String>, name: &str) -> (r: Option<usize>)
    ensures
        match r {
            Some(i) => column_of(h.deep_view(), name@) == Some(i as int),
            None => column_of(h.deep_view(), name@) is None,
        },
{
    let ghost hv = h.deep_view();
    let mut i: usize = 0;
    while i < h.len()
        invariant
            hv == h.deep_view(),
            hv.len() == h@.len(),
            i <= h.len(),
            forall|j: int| 0 <= j < i ==> #[trigger] hv[j] != name@,
        decreases h.len() - i,
    {
        assert(hv[i as int] == h@[i as int]@);
        if text_eq(h[i].as_str(), name) {
            proof {
                assert(column_at(hv, name@, i as int));
                let c = choose|c: int| column_at(hv, name@, c);
                if c < i {
                    assert(hv[c] != name@);
                } else if c > i {
                    assert(hv[i as int] != name@);
                }
            }
            return Some(i);
        }
        i = i + 1;
    }
    proof {
        if exists|c: int| column_at(hv, name@, c) {
            let c = choose|c: int| column_at(hv, name@, c);
            assert(hv[c] == name@);
        }
    }
    None
}

/// Decodes one data row, with the date and time columns at `dc` and `tc`.
pub fn decode_row(row: &Option<Vec<String>>, dc: usize, tc: usize) -> (r: Result<Activity, RowFault>)
    ensures
        r == row_outcome(row.deep_view(), dc as int, tc as int),
{
    match row {
        None => Err(RowFault::Unreadable),
        Some(f) => {
            let ghost fv = f.deep_view();
            if dc >= f.len() || tc >= f.len() {
                return Err(RowFault::MissingField);
            }
            assert(fv[dc as int] == f@[dc as int]@);
            assert(fv[tc as int] == f@[tc as int]@);
            activity_from_fields(parse_naive_utc(f[dc].as_str(), DATE_FORMAT), f[tc].as_str())
        },
    }
}

/// Builds an activity from the reading of its `Date` field (`None` where it
/// did not match the pattern) and its `Time` field.
pub fn activity_from_fields(date: Option<(i64, u32)>, time: &str) -> (r: Result<Activity, RowFault>)
    ensures
        r == fields_outcome(date, time@),
{
    reveal(fields_outcome);
    match date {
        None => Err(RowFault::BadDate),
        Some(t) => match decode_duration(time) {
            None => Err(RowFault::BadDuration),
            Some(d) => Ok(Activity { date: Instant { secs: t.0, nanos: t.1 }, duration: d }),
        },
    }
}

/// Decodes a table of text records whose first row is the header. Malformed
/// data rows are skipped and reported in `row_errors`; the table is rejected
/// as a whole only where its header cannot be read or lacks the `Date` or
/// `Time` column.
pub fn parse_activity_table(table: &Vec<Option<Vec<String>>>) -> (r: Result<ActivityLog, Error>)
    ensures
        match log_of_table(table.deep_view()) {
            Ok((acts, errs)) => r matches Ok(log) && log.activities@ == acts && log.row_errors@
                == errs,
            Err(f) => r == Err::<ActivityLog, Error>(Error::ActivityFormatError(f)),
        },
{
    let ghost t = table.deep_view();
    let empty: Vec<String> = Vec::new();
    assert(empty.deep_view() =~= Seq::<Seq<char>>::empty());
    let header: Option<&Vec<String>> = if table.len() == 0 {
        Some(&empty)
    } else {
        match &table[0] {
            Some(h) => Some(h),
            None => None,
        }
    };
    let h = match header {
        Some(h) => h,
        None => {
            return Err(Error::ActivityFormatError(ActivityFault::UnreadableHeader));
        },
    };
    assert(t.len() > 0 ==> t[0] == table@[0].deep_view());
    let dc = match find_column(h, DATE_COLUMN) {
        Some(c) => c,
        None => {
            return Err(Error::ActivityFormatError(ActivityFault::MissingColumn(Column::Date)));
        },
    };
    let tc = match find_column(h, TIME_COLUMN) {
        Some(c) => c,
        None => {
            return Err(Error::ActivityFormatError(ActivityFault::MissingColumn(Column::Time)));
        },
    };
    let ghost rows = data_rows(t);
    let ghost hv = h.deep_view();
    let mut acts: Vec<Activity> = Vec::new();
    let mut errs: Vec<RowError> = Vec::new();
    let mut i: usize = 1;
    assert(rows.subrange(0, 0) =~= Seq::<Option<Seq<Seq<char>>>>::empty());
    while i < table.len()
        invariant
            t == table.deep_view(),
            t.len() == table@.len(),
            rows == data_rows(t),
            column_of(hv, DATE_COLUMN@) == Some(dc as int),
            column_of(hv, TIME_COLUMN@) == Some(tc as int),
            t.len() == 0 ==> hv == Seq::<Seq<char>>::empty(),
            t.len() > 0 ==> t[0] == Some(hv),
            rows.len() == if t.len() == 0 { 0 } else { t.len() - 1 },
            1 <= i <= rows.len() + 1,
            acts@ == decoded_rows(rows.subrange(0, i - 1), dc as int, tc as int),
            errs@ == rejected_rows(rows.subrange(0, i - 1), dc as int, tc as int),
        decreases table.len() - i,
    {
        let ghost pre = rows.subrange(0, i - 1);
        let ghost next = rows.subrange(0, i as int);
        assert(next.drop_last() =~= pre);
        assert(next.last() == t[i as int]);
        match decode_row(&table[i], dc, tc) {
            Ok(a) => {
                acts.push(a);
            },
            Err(f) => {
                errs.push(RowError { row: i - 1, fault: f });
            },
        }
        i = i + 1;
    }
    assert(rows.subrange(0, i - 1) =~= rows);
    Ok(ActivityLog { activities: Activities { activities: acts }, row_errors: errs })
}

/// Decodes an activity table from its bytes, skipping malformed rows and
/// reporting them in `row_errors`.
pub fn parse_activity_log(data: &[u8]) -> (r: Result<ActivityLog, Error>)
    ensures
        match log_of_table(csv_records_of(data@)) {
            Ok((acts, errs)) => r matches Ok(log) && log.activities@ == acts && log.row_errors@
                == errs,
            Err(f) => r == Err::<ActivityLog, Error>(Error::ActivityFormatError(f)),
        },
{
    let table = read_csv_records(data);
    parse_activity_table(&table)
}

impl Activities {
    /// Decodes a table of text records whose first row is the header, failing
    /// on the first malformed row.
    pub fn from_table(table: &Vec<Option<Vec<String>>>) -> (r: Result<Activities, Error>)
        ensures
            match log_of_table(table.deep_view()) {
                Ok((acts, errs)) => if errs.len() == 0 {
                    r matches Ok(a) && a@ == acts
                } else {
                    r == Err::<Activities, Error>(
                        Error::ActivityFormatError(ActivityFault::Row(errs[0])),
                    )
                },
                Err(f) => r == Err::<Activities, Error>(Error::ActivityFormatError(f)),
            },
    {
        let log = parse_activity_table(table)?;
        if log.row_errors.len() > 0 {
            Err(Error::ActivityFormatError(ActivityFault::Row(log.row_errors[0])))
        } else {
            Ok(log.activities)
        }
    }

    /// Decodes an activity table from its bytes, failing on the first
    /// malformed row.
    pub fn from_csv(data: &[u8]) -> (r: Result<Activities, Error>)
        ensures
            match log_of_table(csv_records_of(data@)) {
                Ok((acts, errs)) => if errs.len() == 0 {
                    r matches Ok(a) && a@ == acts
                } else {
                    r == Err::<Activities, Error>(
                        Error::ActivityFormatError(ActivityFault::Row(errs[0])),
                    )
                },
                Err(f) => r == Err::<Activities, Error>(Error::ActivityFormatError(f)),
            },
    {
        let table = read_csv_records(data);
        Activities::from_table(&table)
    }

    /// The activities, in row order.
    pub fn iter(&self) -> (r: &[Activity])
        ensures
            r@ == self@,
    {
        self.activities.as_slice()
    }

    /// The sum of all durations, clamped to `u64::MAX`.
    pub fn total_duration(&self) -> (r: u64)
        ensures
            r == clamp_u64(total_of(self@)),
    {
        let mut acc: u64 = 0;
        let mut i: usize = 0;
        while i < self.activities.len()
            invariant
                i <= self@.len(),
                acc == clamp_u64(total_of(self@.subrange(0, i as int))),
            decreases self@.len() - i,
        {
            assert(self@.subrange(0, i + 1).drop_last() =~= self@.subrange(0, i as int));
            proof {
                lemma_total_nonneg(self@.subrange(0, i as int));
            }
            acc = acc.saturating_add(self.activities[i].duration);
            i = i + 1;
        }
        assert(self@.subrange(0, i as int) =~= self@);
        acc
    }

    /// The sum of the durations of the activities that start strictly after
    /// `since`, clamped to `u64::MAX`.
    pub fn total_duration_since(&self, since: Instant) -> (r: u64)
        ensures
            r == clamp_u64(total_after(self@, since)),
    {
        total_after_in(self.activities.as_slice(), since)
    }
}

/// The sum of the durations of the activities in `acts` that start strictly
/// after `since`, clamped to `u64::MAX`.
pub fn total_after_in(acts: &[Activity], since: Instant) -> (r: u64)
    ensures
        r == clamp_u64(total_after(acts@, since)),
{
    let mut acc: u64 = 0;
    let mut i: usize = 0;
    while i < acts.len()
        invariant
            i <= acts@.len(),
            acc == clamp_u64(total_after(acts@.subrange(0, i as int), since)),
        decreases acts@.len() - i,
    {
        assert(acts@.subrange(0, i + 1).drop_last() =~= acts@.subrange(0, i as int));
        proof {
            lemma_total_after_nonneg(acts@.subrange(0, i as int), since);
        }
        if acts[i].date.is_after(&since) {
            acc = acc.saturating_add(acts[i].duration);
        }
        i = i + 1;
    }
    assert(acts@.subrange(0, i as int) =~= acts@);
    acc
}

proof fn lemma_total_nonneg(acts: Seq<Activity>)
    ensures
        total_of(acts) >= 0,
    decreases acts.len(),
{
    if acts.len() > 0 {
        lemma_total_nonneg(acts.drop_last());
    }
}

proof fn lemma_total_after_nonneg(acts: Seq<Activity>, since: Instant)
    ensures
        total_after(acts, since) >= 0,
    decreases acts.len(),
{
    if acts.len() > 0 {
        lemma_total_after_nonneg(acts.drop_last(), since);
    }
}

proof fn lemma_total_remove(s: Seq<Activity>, j: int)
    requires
        0 <= j < s.len(),
    ensures
        total_of(s) == total_of(s.remove(j)) + s[j].duration,
    decreases s.len(),
{
    if j == s.len() - 1 {
        assert(s.remove(j) =~= s.drop_last());
    } else {
        lemma_total_remove(s.drop_last(), j);
        assert(s.remove(j).drop_last() =~= s.drop_last().remove(j));
    }
}

/// The total does not depend on the order of the activities: two logs that
/// hold the same activities, in any order, have the same total.
pub proof fn lemma_total_order_independent(a: Seq<Activity>, b: Seq<Activity>)
    requires
        a.to_multiset() == b.to_multiset(),
    ensures
        total_of(a) == total_of(b),
    decreases a.len(),
{
    broadcast use vstd::seq_lib::group_to_multiset_ensures;

    if a.len() == 0 {
        assert(b.to_multiset().len() == 0);
        assert(b =~= Seq::<Activity>::empty());
    } else {
        let x = a.last();
        assert(a =~= a.drop_last().push(x));
        assert(a.to_multiset().count(x) > 0);
        assert(b.contains(x));
        let j = choose|j: int| 0 <= j < b.len() && b[j] == x;
        assert(b.remove(j).to_multiset() =~= a.drop_last().to_multiset());
        lemma_total_order_independent(a.drop_last(), b.remove(j));
        lemma_total_remove(b, j);
    }
}

proof fn lemma_total_at_least_two(acts: Seq<Activity>, i: int, j: int)
    requires
        0 <= i < j < acts.len(),
    ensures
        total_of(acts) >= acts[i].duration + acts[j].duration,
    decreases acts.len(),
{
    lemma_total_nonneg(acts.drop_last());
    if j < acts.len() - 1 {
        lemma_total_at_least_two(acts.drop_last(), i, j);
    } else {
        lemma_total_at_least(acts.drop_last(), i);
    }
}

proof fn lemma_total_at_least(acts: Seq<Activity>, i: int)
    requires
        0 <= i < acts.len(),
    ensures
        total_of(acts) >= acts[i].duration,
    decreases acts.len(),
{
    lemma_total_nonneg(acts.drop_last());
    if i < acts.len() - 1 {
        lemma_total_at_least(acts.drop_last(), i);
    }
}

/// Summing never wraps around: where two activities together last longer
/// than `u64::MAX` seconds, the clamped total is `u64::MAX`.
pub proof fn lemma_total_saturates(acts: Seq<Activity>, i: int, j: int)
    requires
        0 <= i < j < acts.len(),
        acts[i].duration + acts[j].duration > u64::MAX,
    ensures
        clamp_u64(total_of(acts)) == u64::MAX,
{
    lemma_total_at_least_two(acts, i, j);
}

/// Where every activity starts after `since`, the filtered total is the
/// whole total.
pub proof fn lemma_total_after_all(acts: Seq<Activity>, since: Instant)
    requires
        forall|i: int| 0 <= i < acts.len() ==> later(#[trigger] acts[i].date, since),
    ensures
        total_after(acts, since) == total_of(acts),
    decreases acts.len(),
{
    if acts.len() > 0 {
        lemma_total_after_all(acts.drop_last(), since);
    }
}

/// A table in which exactly one data row is malformed keeps every other row,
/// in order, and reports one error naming that row's position.
pub proof fn lemma_single_malformed_row(rows: Seq<Option<Seq<Seq<char>>>>, dc: int, tc: int, k: int)
    requires
        0 <= k < rows.len() <= usize::MAX,
        row_outcome(rows[k], dc, tc) is Err,
        forall|i: int| 0 <= i < rows.len() && i != k ==> (#[trigger] row_outcome(rows[i], dc, tc)) is Ok,
    ensures
        decoded_rows(rows, dc, tc).len() == rows.len() - 1,
        forall|i: int| 0 <= i < k ==> #[trigger] decoded_rows(rows, dc, tc)[i] == row_outcome(rows[i], dc, tc)->Ok_0,
        forall|i: int|
            k < i < rows.len() ==> #[trigger] decoded_rows(rows, dc, tc)[i - 1] == row_outcome(rows[i], dc, tc)->Ok_0,
        rejected_rows(rows, dc, tc) == seq![RowError { row: k as usize, fault: row_outcome(rows[k], dc, tc)->Err_0 }],
    decreases rows.len(),
{
    let init = rows.drop_last();
    if k == rows.len() - 1 {
        lemma_all_rows_good(init, dc, tc);
        assert(decoded_rows(rows, dc, tc) == decoded_rows(init, dc, tc));
    } else {
        assert forall|i: int| 0 <= i < init.len() && i != k implies (#[trigger] row_outcome(init[i], dc, tc)) is Ok by {
            assert(init[i] == rows[i]);
        }
        assert(init[k] == rows[k]);
        lemma_single_malformed_row(init, dc, tc, k);
        let last = row_outcome(rows[rows.len() - 1], dc, tc);
        assert(last is Ok);
        assert(rejected_rows(rows, dc, tc) == rejected_rows(init, dc, tc));
        assert(decoded_rows(rows, dc, tc) == decoded_rows(init, dc, tc).push(last->Ok_0));
        assert forall|i: int| 0 <= i < k implies #[trigger] decoded_rows(rows, dc, tc)[i] == row_outcome(rows[i], dc, tc)->Ok_0 by {
            assert(init[i] == rows[i]);
        }
        assert forall|i: int| k < i < rows.len() implies #[trigger] decoded_rows(rows, dc, tc)[i - 1] == row_outcome(rows[i], dc, tc)->Ok_0 by {
            if i < rows.len() - 1 {
                assert(init[i] == rows[i]);
            }
        }
    }
}

/// A table whose data rows are all well-formed keeps them all, in order, and
/// reports no error.
pub proof fn lemma_all_rows_good(rows: Seq<Option<Seq<Seq<char>>>>, dc: int, tc: int)
    requires
        forall|i: int| 0 <= i < rows.len() ==> (#[trigger] row_outcome(rows[i], dc, tc)) is Ok,
    ensures
        decoded_rows(rows, dc, tc).len() == rows.len(),
        forall|i: int| 0 <= i < rows.len() ==> #[trigger] decoded_rows(rows, dc, tc)[i] == row_outcome(rows[i], dc, tc)->Ok_0,
        rejected_rows(rows, dc, tc) == Seq::<RowError>::empty(),
    decreases rows.len(),
{
    if rows.len() > 0 {
        let init = rows.drop_last();
        assert forall|i: int| 0 <= i < init.len() implies (#[trigger] row_outcome(init[i], dc, tc)) is Ok by {
            assert(init[i] == rows[i]);
        }
        lemma_all_rows_good(init, dc, tc);
        assert(row_outcome(rows[rows.len() - 1], dc, tc) is Ok);
        assert forall|i: int| 0 <= i < rows.len() implies #[trigger] decoded_rows(rows, dc, tc)[i] == row_outcome(rows[i], dc, tc)->Ok_0 by {
            if i < rows.len() - 1 {
                assert(init[i] == rows[i]);
            }
        }
    }
}

} // verus!
