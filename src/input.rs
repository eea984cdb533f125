use vstd::prelude::*;
use crate::aggregate::{all_parse, reports_first_failure, sales_of, SalesTotals};
use crate::error::{SalesError, SchemaError};
use crate::pipeline::process_sales_data;
use crate::record::{fields, ColumnIndices};
use crate::schema::{columns_match, header_texts, is_schema_error_for, schema_accepts};

verus! {

/// The records, each a sequence of field texts, that CSV text holds, when it
/// is well formed.
pub uninterp spec fn csv_records_of(data: Seq<u8>) -> Option<Seq<Seq<Seq<char>>>>;

/// Relies on `csv::ReaderBuilder` and `csv::Reader::records`: the records of
/// comma-separated text, the first one included and of any length; the
/// outcome depends on the bytes alone, and the error side carries the
/// reader's description.
#[verifier::external_body]
fn read_records(data: &[u8]) -> (r: Result<Vec<Vec<String>>, String>)
    ensures
        r is Ok <==> csv_records_of(data@) is Some,
        r is Ok ==> r->Ok_0@.map_values(|row: Vec<String>| fields(row)) == csv_records_of(data@)->0,
{
    let mut reader = csv::ReaderBuilder::new().has_headers(false).flexible(true).from_reader(data);
    reader
        .records()
        .map(|rec| rec.map(|r| r.iter().map(|f| f.to_string()).collect::<Vec<String>>()))
        .collect::<Result<Vec<Vec<String>>, csv::Error>>()
        .map_err(|e| e.to_string())
}

/// Splits CSV text into its first record, the header, and the records after
/// it, the data rows. Text with no record at all has a header of no columns
/// and no rows.
pub fn split_csv(data: &[u8]) -> (r: Result<(Vec<String>, Vec<Vec<String>>), SalesError>)
    ensures
        csv_records_of(data@) is None <==> r is Err,
        r is Err ==> r->Err_0 is Csv,
        csv_records_of(data@) is Some && csv_records_of(data@)->0.len() == 0 ==> r is Ok
            && r->Ok_0.0@.len() == 0 && r->Ok_0.1@.len() == 0,
        csv_records_of(data@) is Some && csv_records_of(data@)->0.len() > 0 ==> r is Ok
            && fields(r->Ok_0.0) == csv_records_of(data@)->0[0]
            && r->Ok_0.1@.map_values(|row: Vec<String>| fields(row)) == csv_records_of(data@)->0.skip(1),
{
    let mut records = match read_records(data) {
        Ok(recs) => recs,
        Err(e) => {
            return Err(SalesError::Csv(e));
        },
    };
    let ghost all = records@;
    if records.len() == 0 {
        return Ok((Vec::new(), records));
    }
    let headers = records.remove(0);
    proof {
        assert(headers == all[0]);
        assert(records@ == all.skip(1));
        assert(all.map_values(|row: Vec<String>| fields(row))[0] == fields(all[0]));
        assert(records@.map_values(|row: Vec<String>| fields(row)) == all.map_values(
            |row: Vec<String>| fields(row),
        ).skip(1));
    }
    Ok((headers, records))
}

/// Reads CSV text whose first record is the header and aggregates the rest
/// as `process_sales_data` does, in `parts` runs. Text with no record at all
/// has a header of no columns.
pub fn process_sales_csv(data: &[u8], parts: usize) -> (r: Result<SalesTotals, SalesError>)
    ensures
        csv_records_of(data@) is None <==> r is Err && r->Err_0 is Csv,
        csv_records_of(data@) is Some && csv_records_of(data@)->0.len() == 0 ==> r
            == Err::<SalesTotals, SalesError>(
            SalesError::Schema(SchemaError::ColumnCount { found: 0 }),
        ),
        csv_records_of(data@) is Some && csv_records_of(data@)->0.len() > 0 ==> {
            let recs = csv_records_of(data@)->0;
            let h = recs[0];
            let body = recs.skip(1);
            &&& !schema_accepts(h) ==> r is Err && r->Err_0 is Schema && is_schema_error_for(
                h,
                r->Err_0->Schema_0,
            )
            &&& schema_accepts(h) ==> exists|rows: Seq<Vec<String>>, c: ColumnIndices|
                {
                    &&& rows.map_values(|row: Vec<String>| fields(row)) == body
                    &&& c.wf()
                    &&& columns_match(h, c)
                    &&& (r is Ok <==> all_parse(rows, c))
                    &&& (r is Ok ==> r->Ok_0.describes(sales_of(rows, c)))
                    &&& (r is Err ==> r->Err_0 is Row && reports_first_failure(
                        rows,
                        c,
                        0,
                        r->Err_0->Row_0,
                    ))
                }
        },
{
    match split_csv(data) {
        Err(e) => Err(e),
        Ok((headers, rows)) => {
            assert(header_texts(headers) == fields(headers));
            process_sales_data(&headers, &rows, parts)
        },
    }
}

} // verus!
