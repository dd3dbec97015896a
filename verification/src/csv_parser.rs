use vstd::prelude::*;

use crate::row::Row;
use crate::solver::strs;

verus! {

/// The header row that the `csv` crate reads from `text` (with headers on,
/// everything else at its defaults), or the text of its error.
pub uninterp spec fn csv_header_row(text: Seq<char>) -> Result<Seq<Seq<char>>, Seq<char>>;

/// The records that the `csv` crate reads from `text` after the header row,
/// in order; `None` for a record it reports an error on.
pub uninterp spec fn csv_records(text: Seq<char>) -> Seq<Option<Seq<Seq<char>>>>;

/// The plain value of a header row as read.
pub open spec fn header_view(r: Result<Vec<String>, String>) -> Result<Seq<Seq<char>>, Seq<char>> {
    match r {
        Ok(v) => Ok(strs(v@)),
        Err(e) => Err(e@),
    }
}

/// The plain value of a record as read.
pub open spec fn record_view(r: Option<Vec<String>>) -> Option<Seq<Seq<char>>> {
    match r {
        Some(v) => Some(strs(v@)),
        None => None,
    }
}

/// Reads `text` with `csv::ReaderBuilder::new().has_headers(true)`, then
/// calls `Reader::headers` and collects `Reader::records`. Claimed: the
/// header row is `csv_header_row(text)`, with a failure as the error's
/// `to_string`, and the records are `csv_records(text)`, an erroneous record
/// as `None`. Of what the names hold only two things are claimed, both as
/// the reader's source shows them for text in memory: reading the header
/// row does not fail (no input can fail to arrive, and fields cut from
/// UTF-8 text at ASCII delimiters stay UTF-8), and, the reader not being
/// flexible, a record comes back without error only with as many fields
/// as the header row (`ReaderState::add_record`).
#[verifier::external_body]
fn read_csv(text: &str) -> (r: (Result<Vec<String>, String>, Vec<Option<Vec<String>>>))
    ensures
        header_view(r.0) == csv_header_row(text@),
        r.1@.map_values(|x: Option<Vec<String>>| record_view(x)) == csv_records(text@),
        r.0 is Ok,
        forall|k: int| 0 <= k < r.1@.len() && (#[trigger] r.1@[k]) is Some ==> r.1@[k]->Some_0@.len() == r.0->Ok_0@.len(),
{
    let mut reader = csv::ReaderBuilder::new().has_headers(true).from_reader(text.as_bytes());
    let headers = reader.headers().map(|h| h.iter().map(|f| f.to_string()).collect()).map_err(
        |e| e.to_string(),
    );
    let records = reader.records().map(|rec| rec.ok().map(|r| r.iter().map(|f| f.to_string()).collect())).collect();
    (headers, records)
}

/// The map that a record forms under the header row `headers`: each header
/// to the field in its place, a later repeat of a header replacing an
/// earlier one.
pub open spec fn record_row(headers: Seq<Seq<char>>, fields: Seq<Seq<char>>) -> Map<Seq<char>, Seq<char>>
    decreases headers.len(),
{
    if headers.len() == 0 {
        Map::empty()
    } else {
        record_row(headers.drop_last(), fields).insert(headers.last(), fields[headers.len() - 1])
    }
}

/// The rows that the records form: a record that was read without error and
/// has a field for every header gives a row; the others are left out.
pub open spec fn rows_of_records(headers: Seq<Seq<char>>, records: Seq<Option<Seq<Seq<char>>>>) -> Seq<
    Map<Seq<char>, Seq<char>>,
>
    decreases records.len(),
{
    if records.len() == 0 {
        Seq::empty()
    } else {
        let prev = rows_of_records(headers, records.drop_last());
        match records.last() {
            Some(fields) => if fields.len() >= headers.len() {
                prev.push(record_row(headers, fields))
            } else {
                prev
            },
            None => prev,
        }
    }
}

/// The rows that `records` form under `headers` (see `rows_of_records`).
pub fn rows_from_records(headers: &Vec<String>, records: &Vec<Option<Vec<String>>>) -> (r: Vec<Row>)
    ensures
        r@.map_values(|x: Row| x@) == rows_of_records(
            strs(headers@),
            records@.map_values(|x: Option<Vec<String>>| record_view(x)),
        ),
{
    let ghost hv = strs(headers@);
    let ghost rv = records@.map_values(|x: Option<Vec<String>>| record_view(x));
    let mut rows: Vec<Row> = Vec::new();
    let mut i: usize = 0;
    while i < records.len()
        invariant
            i <= records@.len(),
            hv == strs(headers@),
            rv == records@.map_values(|x: Option<Vec<String>>| record_view(x)),
            rows@.map_values(|x: Row| x@) == rows_of_records(hv, rv.take(i as int)),
        decreases records@.len() - i,
    {
        proof {
            assert(rv.take(i + 1).drop_last() =~= rv.take(i as int));
            assert(rv.take(i + 1).last() == record_view(records@[i as int]));
        }
        match &records[i] {
            Some(fields) => {
                if fields.len() >= headers.len() {
                    let mut row = Row::new();
                    let mut j: usize = 0;
                    while j < headers.len()
                        invariant
                            j <= headers@.len(),
                            headers@.len() <= fields@.len(),
                            hv == strs(headers@),
                            row@ == record_row(hv.take(j as int), strs(fields@)),
                        decreases headers@.len() - j,
                    {
                        proof {
                            assert(hv.take(j + 1).drop_last() =~= hv.take(j as int));
                        }
                        row.insert(headers[j].clone(), fields[j].clone());
                        j = j + 1;
                    }
                    proof {
                        assert(hv.take(headers@.len() as int) =~= hv);
                    }
                    let ghost prev = rows@;
                    rows.push(row);
                    proof {
                        let g = |x: Row| x@;
                        let want = rows_of_records(hv, rv.take(i as int)).push(record_row(hv, strs(fields@)));
                        assert(prev.map_values(g).len() == rows_of_records(hv, rv.take(i as int)).len());
                        assert forall|m: int| 0 <= m < prev.len() implies rows@.map_values(g)[m] == want[m] by {
                            assert(rows@[m] == prev[m]);
                            assert(prev.map_values(g)[m] == rows_of_records(hv, rv.take(i as int))[m]);
                        }
                        assert(rows@.map_values(g) =~= want);
                    }
                } else {
                    proof {
                        assert(rows@.map_values(|x: Row| x@) =~= rows_of_records(hv, rv.take(i + 1)));
                    }
                }
            },
            None => {
                proof {
                    assert(rows@.map_values(|x: Row| x@) =~= rows_of_records(hv, rv.take(i + 1)));
                }
            },
        }
        i = i + 1;
    }
    proof {
        assert(rv.take(records@.len() as int) =~= rv);
    }
    rows
}

/// Reads a table from CSV text whose first row names the columns. The
/// answer is the column names and the rows (see `rows_from_records`): one
/// row for each record read without error, in order, each of which has
/// exactly one field per column. It is never an error.
pub fn parse_csv(text: &str) -> (r: Result<(Vec<String>, Vec<Row>), String>)
    ensures
        csv_header_row(text@) is Ok,
        forall|k: int| 0 <= k < csv_records(text@).len() && (#[trigger] csv_records(text@)[k]) is Some
            ==> csv_records(text@)[k]->Some_0.len() == csv_header_row(text@)->Ok_0.len(),
        r matches Ok(v) && strs(v.0@) == csv_header_row(text@)->Ok_0 && v.1@.map_values(|x: Row| x@)
            == rows_of_records(csv_header_row(text@)->Ok_0, csv_records(text@)),
{
    let (headers, records) = read_csv(text);
    proof {
        let rv = records@.map_values(|x: Option<Vec<String>>| record_view(x));
        assert forall|k: int| 0 <= k < rv.len() && (#[trigger] rv[k]) is Some implies rv[k]->Some_0.len()
            == csv_header_row(text@)->Ok_0.len() by {
            assert(records@[k] is Some);
        }
    }
    match headers {
        Ok(h) => {
            let rows = rows_from_records(&h, &records);
            Ok((h, rows))
        },
        Err(e) => Err(e),
    }
}

} // verus!
