use vstd::prelude::*;
use crate::error::SchemaError;
use crate::record::ColumnIndices;

verus! {

/// The lower-case form of a text.
pub uninterp spec fn lowercase_of(s: Seq<char>) -> Seq<char>;

/// Relies on `str::to_lowercase`: the lower-case form depends on the text alone.
#[verifier::external_body]
fn to_lowercase(s: &str) -> (r: String)
    ensures
        r@ == lowercase_of(s@),
{
    s.to_lowercase()
}

/// Some column of the header is named `name` once lower-cased.
pub open spec fn names_column(h: Seq<Seq<char>>, name: Seq<char>) -> bool {
    exists|i: int| 0 <= i < h.len() && lowercase_of(#[trigger] h[i]) == name
}

/// `i` is the first column of the header named `name` once lower-cased.
pub open spec fn is_first_column(h: Seq<Seq<char>>, name: Seq<char>, i: int) -> bool {
    &&& 0 <= i < h.len()
    &&& lowercase_of(h[i]) == name
    &&& forall|j: int| 0 <= j < i ==> lowercase_of(#[trigger] h[j]) != name
}

/// The texts of a header row.
pub open spec fn header_texts(h: Vec<String>) -> Seq<Seq<char>> {
    h@.map_values(|f: String| f@)
}

/// The header has three columns that name, in any order and letter case,
/// the month, the product and the sales amount.
pub open spec fn schema_accepts(h: Seq<Seq<char>>) -> bool {
    &&& h.len() == 3
    &&& names_column(h, "month"@)
    &&& names_column(h, "product"@)
    &&& names_column(h, "sales_amount"@)
}

/// `e` is the error for a header that `schema_accepts` refuses: the column
/// count, else the first missing name in the order month, product, sales_amount.
pub open spec fn is_schema_error_for(h: Seq<Seq<char>>, e: SchemaError) -> bool {
    if h.len() != 3 {
        e == (SchemaError::ColumnCount { found: h.len() as usize })
    } else if !names_column(h, "month"@) {
        e is MissingColumn && e->MissingColumn_name@ == "month"@
    } else if !names_column(h, "product"@) {
        e is MissingColumn && e->MissingColumn_name@ == "product"@
    } else {
        e is MissingColumn && e->MissingColumn_name@ == "sales_amount"@
    }
}

/// The positions that an accepted header gives the three columns.
pub open spec fn columns_match(h: Seq<Seq<char>>, c: ColumnIndices) -> bool {
    &&& is_first_column(h, "month"@, c.month as int)
    &&& is_first_column(h, "product"@, c.product as int)
    &&& is_first_column(h, "sales_amount"@, c.amount as int)
}

/// The first column whose lower-cased name is `name`.
fn find_column(headers: &Vec<String>, name: &String) -> (r: Option<usize>)
    ensures
        r is None <==> !names_column(header_texts(*headers), name@),
        r is Some ==> is_first_column(header_texts(*headers), name@, r->0 as int),
{
    let ghost h = header_texts(*headers);
    let mut i: usize = 0;
    while i < headers.len()
        invariant
            h == header_texts(*headers),
            0 <= i <= headers@.len(),
            forall|j: int| 0 <= j < i ==> lowercase_of(#[trigger] h[j]) != name@,
        decreases headers@.len() - i,
    {
        let lower = to_lowercase(headers[i].as_str());
        if lower == *name {
            assert(h[i as int] == headers@[i as int]@);
            assert(lowercase_of(h[i as int]) == name@);
            return Some(i);
        }
        assert(h[i as int] == headers@[i as int]@);
        i = i + 1;
    }
    proof {
        assert forall|j: int| 0 <= j < h.len() implies lowercase_of(#[trigger] h[j]) != name@ by {}
    }
    None
}

/// Checks that a header has exactly three columns named month, product and
/// sales_amount in any order and letter case, and finds where each one is.
pub fn validate_csv_structure(headers: &Vec<String>) -> (r: Result<ColumnIndices, SchemaError>)
    ensures
        r is Ok <==> schema_accepts(header_texts(*headers)),
        r is Ok ==> r->Ok_0.wf() && columns_match(header_texts(*headers), r->Ok_0),
        r is Err ==> is_schema_error_for(header_texts(*headers), r->Err_0),
{
    if headers.len() != 3 {
        return Err(SchemaError::ColumnCount { found: headers.len() });
    }
    let month_name = String::from_str("month");
    let product_name = String::from_str("product");
    let amount_name = String::from_str("sales_amount");
    let month = match find_column(headers, &month_name) {
        Some(i) => i,
        None => {
            return Err(SchemaError::MissingColumn { name: month_name });
        },
    };
    let product = match find_column(headers, &product_name) {
        Some(i) => i,
        None => {
            return Err(SchemaError::MissingColumn { name: product_name });
        },
    };
    let amount = match find_column(headers, &amount_name) {
        Some(i) => i,
        None => {
            return Err(SchemaError::MissingColumn { name: amount_name });
        },
    };
    Ok(ColumnIndices { month, product, amount })
}

/// Acceptance does not depend on the order of the columns: two headers with
/// the same names, each as often, are both accepted or both refused.
pub proof fn lemma_schema_order_free(h1: Seq<Seq<char>>, h2: Seq<Seq<char>>)
    requires
        h1.to_multiset() == h2.to_multiset(),
    ensures
        schema_accepts(h1) == schema_accepts(h2),
{
    vstd::seq_lib::to_multiset_len(h1);
    vstd::seq_lib::to_multiset_len(h2);
    assert forall|name: Seq<char>| names_column(h1, name) ==> names_column(h2, name) by {
        if names_column(h1, name) {
            let i = choose|i: int| 0 <= i < h1.len() && lowercase_of(#[trigger] h1[i]) == name;
            assert(h1.contains(h1[i]));
            vstd::seq_lib::to_multiset_contains(h1, h1[i]);
            vstd::seq_lib::to_multiset_contains(h2, h1[i]);
            assert(h2.contains(h1[i]));
            let j = choose|j: int| 0 <= j < h2.len() && h2[j] == h1[i];
            assert(lowercase_of(h2[j]) == name);
        }
    }
    assert forall|name: Seq<char>| names_column(h2, name) ==> names_column(h1, name) by {
        if names_column(h2, name) {
            let i = choose|i: int| 0 <= i < h2.len() && lowercase_of(#[trigger] h2[i]) == name;
            assert(h2.contains(h2[i]));
            vstd::seq_lib::to_multiset_contains(h2, h2[i]);
            vstd::seq_lib::to_multiset_contains(h1, h2[i]);
            assert(h1.contains(h2[i]));
            let j = choose|j: int| 0 <= j < h1.len() && h1[j] == h2[i];
            assert(lowercase_of(h1[j]) == name);
        }
    }
}

} // verus!
