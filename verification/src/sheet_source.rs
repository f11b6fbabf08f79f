use vstd::prelude::*;

use crate::sheet::{
    cores_run, cores_start, cores_view, parts_run, parts_start, rows_view, CoreRecord, CoresParser,
    ParseError, PartsOutput, PartsParser,
};
use crate::text::{chars_of, starts_with_chars};

verus! {

/// Declares `csv::Error`, the error a CSV reader reports, so that it can be
/// carried through; nothing inside it is read.
#[verifier::external_type_specification]
#[verifier::external_body]
pub struct ExCsvError(csv::Error);

/// The items a CSV reader yields for `bytes` (no header row, records of any
/// length): the fields of a record, or nothing where the reader reported an
/// error.
pub uninterp spec fn csv_items(bytes: Seq<u8>) -> Seq<Option<Seq<Seq<char>>>>;

/// Trusted: reads `bytes` with `csv::ReaderBuilder` (`has_headers(false)`,
/// `flexible(true)`) and collects every item of `Reader::records`, each record
/// turned into its fields. The contract names the outcome (`csv_items`)
/// without stating the CSV format.
#[verifier::external_body]
fn read_csv_items(bytes: &[u8]) -> (r: Vec<Result<Vec<String>, csv::Error>>)
    ensures
        r@.len() == csv_items(bytes@).len(),
        forall|i: int|
            0 <= i < r@.len() ==> match #[trigger] r@[i] {
                Ok(fields) => csv_items(bytes@)[i] == Some(fields@.map_values(|f: String| f@)),
                Err(_) => csv_items(bytes@)[i] is None,
            },
{
    let mut reader = csv::ReaderBuilder::new().has_headers(false).flexible(true).from_reader(bytes);
    reader.records().map(|item| item.map(|record| record.iter().map(str::to_string).collect())).collect()
}

/// Why a sheet file is refused.
#[derive(Debug)]
pub enum SheetError {
    Csv(csv::Error),
    Parse(ParseError),
}

/// A record as a row: its fields, without the first one when asked to.
pub open spec fn record_row(fields: Seq<Seq<char>>, trim_first_column: bool) -> Seq<Seq<char>> {
    if trim_first_column && fields.len() > 0 {
        fields.drop_first()
    } else {
        fields
    }
}

/// The items after the first `skip`.
pub open spec fn items_after(items: Seq<Option<Seq<Seq<char>>>>, skip: int) -> Seq<Option<Seq<Seq<char>>>> {
    if skip < items.len() {
        items.skip(skip)
    } else {
        Seq::empty()
    }
}

/// The rows of CSV items once the first `skip` items are dropped; `None`
/// when a remaining item is an error.
pub open spec fn csv_rows(items: Seq<Option<Seq<Seq<char>>>>, skip: int, trim_first_column: bool) -> Option<
    Seq<Seq<Seq<char>>>,
> {
    let rest = items_after(items, skip);
    if exists|i: int| #![trigger rest[i]] 0 <= i < rest.len() && rest[i] is None {
        None
    } else {
        Some(rest.map_values(|it: Option<Seq<Seq<char>>>| record_row(it->0, trim_first_column)))
    }
}

/// The records of a CSV reader as plain values: the fields of each record,
/// or nothing where the reader reported an error.
pub open spec fn records_view(items: Seq<Result<Vec<String>, csv::Error>>) -> Seq<Option<Seq<Seq<char>>>> {
    items.map_values(
        |it: Result<Vec<String>, csv::Error>| match it {
            Ok(fields) => Some(fields@.map_values(|f: String| f@)),
            Err(_) => None,
        },
    )
}

/// The rows of a sheet exported as CSV: the records after the first
/// `skip_header_rows` (which are dropped whatever they hold), each without its
/// first cell when `trim_first_column` is set.
pub fn read_csv_rows(bytes: &[u8], skip_header_rows: usize, trim_first_column: bool) -> (r: Result<
    Vec<Vec<String>>,
    csv::Error,
>)
    ensures
        match r {
            Ok(rows) => csv_rows(csv_items(bytes@), skip_header_rows as int, trim_first_column) == Some(
                rows_view(rows@),
            ),
            Err(_) => csv_rows(csv_items(bytes@), skip_header_rows as int, trim_first_column) is None,
        },
{
    let items = read_csv_items(bytes);
    assert(records_view(items@) =~= csv_items(bytes@));
    rows_from_records(items, skip_header_rows, trim_first_column)
}

/// The rows of the records a CSV reader yielded: those after the first
/// `skip_header_rows`, each without its first cell when `trim_first_column`
/// is set; the first error among them, if any.
pub fn rows_from_records(
    items: Vec<Result<Vec<String>, csv::Error>>,
    skip_header_rows: usize,
    trim_first_column: bool,
) -> (r: Result<Vec<Vec<String>>, csv::Error>)
    ensures
        match r {
            Ok(rows) => csv_rows(records_view(items@), skip_header_rows as int, trim_first_column) == Some(
                rows_view(rows@),
            ),
            Err(e) => {
                &&& csv_rows(records_view(items@), skip_header_rows as int, trim_first_column) is None
                &&& exists|k: int|
                    skip_header_rows <= k < items@.len() && #[trigger] items@[k] == Err::<Vec<String>, csv::Error>(e)
                        && forall|j: int| skip_header_rows <= j < k ==> #[trigger] items@[j] is Ok
            },
        },
{
    let ghost all = records_view(items@);
    let n = items.len();
    let start = if skip_header_rows < n { skip_header_rows } else { n };
    let ghost rest = items_after(all, skip_header_rows as int);
    assert(rest == all.skip(start as int));
    let mut rows: Vec<Vec<String>> = Vec::new();
    let mut pending = items;
    // Take the items out from the back so that each can be moved.
    let mut taken: Vec<Result<Vec<String>, csv::Error>> = Vec::new();
    while pending.len() > start
        invariant
            start <= pending@.len() <= n,
            n == all.len(),
            forall|i: int|
                0 <= i < pending@.len() ==> match #[trigger] pending@[i] {
                    Ok(fields) => all[i] == Some(fields@.map_values(|f: String| f@)),
                    Err(_) => all[i] is None,
                },
            taken@.len() == n - pending@.len(),
            forall|i: int| 0 <= i < pending@.len() ==> #[trigger] pending@[i] == items@[i],
            forall|j: int| 0 <= j < taken@.len() ==> #[trigger] taken@[j] == items@[n - 1 - j],
            forall|j: int|
                0 <= j < taken@.len() ==> match #[trigger] taken@[j] {
                    Ok(fields) => all[n - 1 - j] == Some(fields@.map_values(|f: String| f@)),
                    Err(_) => all[n - 1 - j] is None,
                },
        decreases pending@.len(),
    {
        let ghost before = pending@;
        let item = pending.pop().unwrap();
        assert(before[before.len() - 1] == item);
        taken.push(item);
    }
    assert(rest.len() == n - start);
    assert(rows_view(rows@) =~= rest.take(0).map_values(
        |it: Option<Seq<Seq<char>>>| record_row(it->0, trim_first_column),
    ));
    while taken.len() > 0
        invariant
            n == all.len(),
            start <= n,
            rest == all.skip(start as int),
            rest == items_after(all, skip_header_rows as int),
            all == records_view(items@),
            rest.len() == n - start,
            taken@.len() <= n - start,
            forall|j: int|
                0 <= j < taken@.len() ==> match #[trigger] taken@[j] {
                    Ok(fields) => all[n - 1 - j] == Some(fields@.map_values(|f: String| f@)),
                    Err(_) => all[n - 1 - j] is None,
                },
            rows@.len() == n - start - taken@.len(),
            forall|j: int| 0 <= j < taken@.len() ==> #[trigger] taken@[j] == items@[n - 1 - j],
            forall|k: int| 0 <= k < rows@.len() ==> #[trigger] rest[k] is Some,
            forall|k: int| start <= k < start + rows@.len() ==> #[trigger] items@[k] is Ok,
            rows_view(rows@) == rest.take(rows@.len() as int).map_values(
                |it: Option<Seq<Seq<char>>>| record_row(it->0, trim_first_column),
            ),
        decreases taken@.len(),
    {
        let ghost k = rows@.len() as int;
        let ghost before = taken@;
        let item = taken.pop().unwrap();
        assert(before[before.len() - 1] == item);
        assert(rest[k] == all[n - 1 - (before.len() - 1)]);
        match item {
            Ok(fields) => {
                let mut fields = fields;
                let ghost fv = fields@.map_values(|f: String| f@);
                if trim_first_column && fields.len() > 0 {
                    fields.remove(0);
                    assert(fields@.map_values(|f: String| f@) =~= fv.drop_first());
                }
                let ghost prev = rows_view(rows@);
                assert(items@[start + k] is Ok);
                rows.push(fields);
                assert(rest.take(k + 1) == rest.take(k).push(rest[k]));
                assert(rows_view(rows@) =~= prev.push(record_row(rest[k]->0, trim_first_column)));
            },
            Err(e) => {
                assert(rest[k] is None);
                assert(0 <= k < rest.len());
                assert(csv_rows(all, skip_header_rows as int, trim_first_column) is None);
                assert(items@[start + k] == Err::<Vec<String>, csv::Error>(e));
                assert(skip_header_rows <= start + k);
                return Err(e);
            },
        }
    }
    assert(rest.take(rest.len() as int) == rest);
    Ok(rows)
}

/// A row that starts the notes below the parts table.
pub open spec fn is_notes_row(row: Seq<Seq<char>>) -> bool {
    row.len() >= 2 && row[1].len() >= 8 && row[1].take(8) == "Notable "@
}

/// The position of the first notes row at or after `k` (the end if none).
pub open spec fn notes_start(rows: Seq<Seq<Seq<char>>>, k: int) -> int
    decreases rows.len() - k,
{
    if k >= rows.len() {
        rows.len() as int
    } else if is_notes_row(rows[k]) {
        k
    } else {
        notes_start(rows, k + 1)
    }
}

proof fn lemma_notes_start_bounds(rows: Seq<Seq<Seq<char>>>, k: int)
    requires
        0 <= k,
    ensures
        k <= notes_start(rows, k) <= rows.len() || (k > rows.len() && notes_start(rows, k) == rows.len()),
    decreases rows.len() - k,
{
    if k < rows.len() && !is_notes_row(rows[k]) {
        lemma_notes_start_bounds(rows, k + 1);
    }
}

/// The rows above the notes.
pub open spec fn before_notes(rows: Seq<Seq<Seq<char>>>) -> Seq<Seq<Seq<char>>> {
    rows.take(notes_start(rows, 0))
}

/// Cuts the parts rows at the first notes row: what follows is free text.
pub fn drop_notes(rows: &mut Vec<Vec<String>>)
    ensures
        rows_view(final(rows)@) == before_notes(rows_view(old(rows)@)),
{
    let ghost rv = rows_view(rows@);
    let mut k: usize = 0;
    let notable = chars_of("Notable ");
    proof {
        reveal_strlit("Notable ");
    }
    while k < rows.len()
        invariant
            k <= rows@.len(),
            rv == rows_view(rows@),
            notable@ == "Notable "@,
            notable@.len() == 8,
            notes_start(rv, 0) == notes_start(rv, k as int),
        ensures
            k <= rows@.len(),
            rv == rows_view(rows@),
            notes_start(rv, 0) == k,
        decreases rows@.len() - k,
    {
        let row = &rows[k];
        assert(rv[k as int] == row@.map_values(|c: String| c@));
        if row.len() >= 2 {
            let cell = chars_of(row[1].as_str());
            if starts_with_chars(cell.as_slice(), notable.as_slice()) {
                assert(is_notes_row(rv[k as int]));
                break;
            }
        }
        k += 1;
    }
    proof {
        lemma_notes_start_bounds(rv, 0);
    }
    rows.truncate(k);
    assert(rows_view(rows@) =~= rv.take(k as int));
}

impl PartsParser {
    /// Reads the parts sheet from the contents of its CSV export: two header
    /// rows are dropped, then the first column, then everything from the
    /// notes on.
    pub fn parse_file(&mut self, bytes: &[u8]) -> (r: Result<PartsOutput, SheetError>)
        ensures
            match csv_rows(csv_items(bytes@), 2, true) {
                None => r matches Err(SheetError::Csv(_)) && final(self)@ == old(self)@,
                Some(rows) => {
                    let st = parts_run(parts_start(old(self)@), before_notes(rows));
                    &&& final(self)@ == st.seen
                    &&& match r {
                        Ok(out) => st.error is None && out@ == st.sections,
                        Err(SheetError::Parse(e)) => st.error == Some(e@),
                        Err(SheetError::Csv(_)) => false,
                    }
                },
            },
    {
        let mut rows = match read_csv_rows(bytes, 2, true) {
            Ok(rows) => rows,
            Err(e) => return Err(SheetError::Csv(e)),
        };
        drop_notes(&mut rows);
        match self.parse_rows(&rows) {
            Ok(out) => Ok(out),
            Err(e) => Err(SheetError::Parse(e)),
        }
    }
}

impl CoresParser {
    /// Reads the cores sheet from the contents of its CSV export: two header
    /// rows are dropped, then the first column.
    pub fn parse_file(&self, bytes: &[u8]) -> (r: Result<Vec<CoreRecord>, SheetError>)
        ensures
            match csv_rows(csv_items(bytes@), 2, true) {
                None => r matches Err(SheetError::Csv(_)),
                Some(rows) => {
                    let st = cores_run(cores_start(), rows);
                    match r {
                        Ok(out) => st.error is None && cores_view(out@) == st.cores,
                        Err(SheetError::Parse(e)) => st.error == Some(e@),
                        Err(SheetError::Csv(_)) => false,
                    }
                },
            },
    {
        let rows = match read_csv_rows(bytes, 2, true) {
            Ok(rows) => rows,
            Err(e) => return Err(SheetError::Csv(e)),
        };
        match self.parse_rows(&rows) {
            Ok(out) => Ok(out),
            Err(e) => Err(SheetError::Parse(e)),
        }
    }
}

} // verus!
