use vstd::prelude::*;
use crate::aggregate::{
    aggregate_partitioned, all_parse, amount_total, reports_first_failure, sales_of,
    SalesTotals,
};
use crate::error::SalesError;
use crate::plot::{month_view, prepared_from, product_view, PlotData};
use crate::record::{ColumnIndices, Sale};
use crate::schema::{
    columns_match, header_texts, is_schema_error_for, schema_accepts, validate_csv_structure,
};
use crate::tally::{has_key, tally_of};

verus! {

/// Validates the header, then aggregates the data rows in `parts` runs
/// (see `aggregate_partitioned`); the first bad row fails the whole run.
pub fn process_sales_data(headers: &Vec<String>, rows: &Vec<Vec<String>>, parts: usize) -> (r: Result<
    SalesTotals,
    SalesError,
>)
    ensures
        !schema_accepts(header_texts(*headers)) ==> r is Err && r->Err_0 is Schema
            && is_schema_error_for(header_texts(*headers), r->Err_0->Schema_0),
        schema_accepts(header_texts(*headers)) ==> exists|c: ColumnIndices|
            {
                &&& c.wf()
                &&& columns_match(header_texts(*headers), c)
                &&& (r is Ok <==> all_parse(rows@, c))
                &&& (r is Ok ==> r->Ok_0.describes(sales_of(rows@, c)))
                &&& (r is Err ==> r->Err_0 is Row && reports_first_failure(rows@, c, 0, r->Err_0->Row_0))
            },
{
    let cols = match validate_csv_structure(headers) {
        Ok(c) => c,
        Err(e) => {
            return Err(SalesError::Schema(e));
        },
    };
    match aggregate_partitioned(rows, &cols, parts) {
        Ok(t) => Ok(t),
        Err(e) => Err(SalesError::Row(e)),
    }
}

/// Conservation of the total: the month series and the product series of
/// the chart data each sum to the total of all row amounts.
pub proof fn lemma_total_conserved(s: Seq<Sale>, t: SalesTotals, d: PlotData)
    requires
        t.describes(s),
        prepared_from(d, t),
    ensures
        crate::tally::total(month_view(d.monthly@)) == amount_total(s),
        crate::tally::total(product_view(d.products@)) == amount_total(s),
{
}

/// The aggregates are fixed by the rows: two results that describe the same
/// rows (such as those of two different partition counts) hold the same
/// (key, total) entries.
pub proof fn lemma_partition_invariant(s: Seq<Sale>, t1: SalesTotals, t2: SalesTotals)
    requires
        t1.describes(s),
        t2.describes(s),
    ensures
        forall|e: (int, int)| t1.by_month@.contains(e) <==> t2.by_month@.contains(e),
        forall|e: (Seq<char>, int)| t1.by_product@.contains(e) <==> t2.by_product@.contains(e),
{
    lemma_tallies_agree(t1.by_month@, t2.by_month@, crate::aggregate::month_sales(s));
    lemma_tallies_agree(t2.by_month@, t1.by_month@, crate::aggregate::month_sales(s));
    lemma_tallies_agree(t1.by_product@, t2.by_product@, crate::aggregate::product_sales(s));
    lemma_tallies_agree(t2.by_product@, t1.by_product@, crate::aggregate::product_sales(s));
}

proof fn lemma_tallies_agree<K>(a: Seq<(K, int)>, b: Seq<(K, int)>, s: Seq<(K, int)>)
    requires
        tally_of(a, s),
        tally_of(b, s),
    ensures
        forall|e: (K, int)| a.contains(e) ==> b.contains(e),
{
    assert forall|e: (K, int)| a.contains(e) implies b.contains(e) by {
        let i = choose|i: int| 0 <= i < a.len() && a[i] == e;
        assert(has_key(a, a[i].0));
        assert(has_key(b, e.0));
        let j = choose|j: int| 0 <= j < b.len() && #[trigger] b[j].0 == e.0;
        assert(b[j] == e);
    }
}

} // verus!
