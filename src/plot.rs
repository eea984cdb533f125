use vstd::prelude::*;
use crate::aggregate::SalesTotals;
use crate::error::SalesError;
use crate::tally::{total, lemma_total_concat};

verus! {

broadcast use vstd::seq_lib::group_to_multiset_ensures;

/// The two series that the charts are drawn from.
#[derive(Debug, Clone, PartialEq, Eq)]
pub struct PlotData {
    /// (month key, total), oldest month first.
    pub monthly: Vec<(i32, i128)>,
    /// (product, total), largest total first; equal totals keep the order
    /// they have in the aggregate.
    pub products: Vec<(String, i128)>,
}

pub open spec fn month_view(s: Seq<(i32, i128)>) -> Seq<(int, int)> {
    s.map_values(|e: (i32, i128)| (e.0 as int, e.1 as int))
}

pub open spec fn product_view(s: Seq<(String, i128)>) -> Seq<(Seq<char>, int)> {
    s.map_values(|e: (String, i128)| (e.0@, e.1 as int))
}

/// Month keys strictly ascend.
pub open spec fn chronological(s: Seq<(i32, i128)>) -> bool {
    forall|i: int, j: int| 0 <= i < j < s.len() ==> s[i].0 < s[j].0
}

/// Totals never increase.
pub open spec fn descending_by_total(s: Seq<(String, i128)>) -> bool {
    forall|i: int, j: int| 0 <= i < j < s.len() ==> s[i].1 >= s[j].1
}

/// Removing one entry takes its value off the total.
proof fn lemma_total_remove<K>(s: Seq<(K, int)>, j: int)
    requires
        0 <= j < s.len(),
    ensures
        total(s.remove(j)) == total(s) - s[j].1,
{
    assert(s.remove(j) == s.take(j) + s.skip(j + 1));
    assert(s == s.take(j + 1) + s.skip(j + 1));
    lemma_total_concat(s.take(j), s.skip(j + 1));
    lemma_total_concat(s.take(j + 1), s.skip(j + 1));
    assert(s.take(j + 1).drop_last() == s.take(j));
}

/// Reordering entries keeps their total.
proof fn lemma_permutation_total<T, K>(a: Seq<T>, b: Seq<T>, f: spec_fn(T) -> (K, int))
    requires
        a.to_multiset() == b.to_multiset(),
    ensures
        total(a.map_values(f)) == total(b.map_values(f)),
    decreases a.len(),
{
    broadcast use vstd::multiset::group_multiset_axioms;

    a.to_multiset_ensures();
    b.to_multiset_ensures();
    if a.len() == 0 {
        assert(b.len() == 0);
        assert(a.map_values(f) == Seq::<(K, int)>::empty());
        assert(b.map_values(f) == Seq::<(K, int)>::empty());
    } else {
        let x = a.last();
        let a2 = a.drop_last();
        assert(a2.push(x) == a);
        a2.to_multiset_ensures();
        assert(a.contains(x)) by {
            assert(a[a.len() - 1] == x);
        }
        assert(b.to_multiset().count(x) > 0);
        let j = choose|j: int| 0 <= j < b.len() && b[j] == x;
        let b2 = b.remove(j);
        assert(b2.to_multiset() == b.to_multiset().remove(x));
        assert(a2.to_multiset() =~= a.to_multiset().remove(x));
        lemma_permutation_total(a2, b2, f);
        assert(a.map_values(f).drop_last() == a2.map_values(f));
        assert(b2.map_values(f) == b.map_values(f).remove(j));
        lemma_total_remove(b.map_values(f), j);
    }
}

/// Relies on rayon's `ParallelSliceMut::par_sort_unstable`: the same pairs,
/// in ascending order of pairs (by the first item, then by the second).
#[verifier::external_body]
fn par_sort_pairs(v: &mut Vec<(i32, i128)>)
    ensures
        final(v)@.to_multiset() == old(v)@.to_multiset(),
        forall|i: int, j: int|
            0 <= i < j < final(v)@.len() ==> final(v)@[i].0 < final(v)@[j].0 || (final(v)@[i].0
                == final(v)@[j].0 && final(v)@[i].1 <= final(v)@[j].1),
{
    rayon::slice::ParallelSliceMut::par_sort_unstable(v.as_mut_slice());
}

/// Relies on rayon's `ParallelSliceMut::par_sort_by_key`, keyed on the
/// total in reverse: the same entries, largest total first. The sort is
/// stable, so entries with equal totals keep their order.
#[verifier::external_body]
fn par_sort_by_total_descending(v: &mut Vec<(String, i128)>)
    ensures
        final(v)@.to_multiset() == old(v)@.to_multiset(),
        forall|i: int, j: int| 0 <= i < j < final(v)@.len() ==> final(v)@[i].1 >= final(v)@[j].1,
{
    rayon::slice::ParallelSliceMut::par_sort_by_key(v.as_mut_slice(), |e| std::cmp::Reverse(e.1));
}

/// The month totals, ordered by month.
fn sort_months(v: Vec<(i32, i128)>) -> (r: Vec<(i32, i128)>)
    requires
        forall|i: int, j: int| 0 <= i < j < v@.len() ==> v@[i].0 != v@[j].0,
    ensures
        chronological(r@),
        r@.to_multiset() == v@.to_multiset(),
        total(month_view(r@)) == total(month_view(v@)),
{
    let ghost before = v@;
    let mut r = v;
    par_sort_pairs(&mut r);
    proof {
        let f = |e: (i32, i128)| (e.0 as int, e.1 as int);
        lemma_permutation_total(r@, before, f);
        assert(month_view(r@) == r@.map_values(f));
        assert(month_view(before) == before.map_values(f));
        before.to_multiset_ensures();
        r@.to_multiset_ensures();
        assert forall|i: int, j: int| 0 <= i < j < r@.len() implies r@[i].0 < r@[j].0 by {
            if r@[i].0 == r@[j].0 {
                assert(r@[i] == r@[i as int] && r@.contains(r@[i]));
                assert(r@.contains(r@[j]));
                assert(r@.to_multiset().count(r@[i]) > 0);
                assert(r@.to_multiset().count(r@[j]) > 0);
                assert(before.to_multiset().count(r@[i]) > 0);
                assert(before.to_multiset().count(r@[j]) > 0);
                assert(before.contains(r@[i]) && before.contains(r@[j]));
                let a = choose|a: int| 0 <= a < before.len() && before[a] == r@[i];
                let b = choose|b: int| 0 <= b < before.len() && before[b] == r@[j];
                if a == b {
                    assert(r@[i] == r@[j]);
                    assert(r@.to_multiset().count(r@[i]) >= 2) by {
                        lemma_count_two(r@, i, j);
                    }
                    lemma_count_one(before, a);
                }
            }
        }
    }
    r
}

/// An element at two positions is counted at least twice.
proof fn lemma_count_two<T>(s: Seq<T>, i: int, j: int)
    requires
        0 <= i < j < s.len(),
        s[i] == s[j],
    ensures
        s.to_multiset().count(s[i]) >= 2,
    decreases s.len(),
{
    broadcast use vstd::multiset::group_multiset_axioms;

    let d = s.drop_last();
    assert(d.push(s.last()) == s);
    d.to_multiset_ensures();
    if j == s.len() - 1 {
        assert(d[i] == s[i]);
        assert(d.contains(s[i]));
    } else {
        assert(d[i] == s[i] && d[j] == s[j]);
        lemma_count_two(d, i, j);
    }
}

/// With keys unique, an element is counted once.
proof fn lemma_count_one<A>(s: Seq<(i32, A)>, a: int)
    requires
        0 <= a < s.len(),
        forall|i: int, j: int| 0 <= i < j < s.len() ==> s[i].0 != s[j].0,
    ensures
        s.to_multiset().count(s[a]) == 1,
    decreases s.len(),
{
    broadcast use vstd::multiset::group_multiset_axioms;

    let d = s.drop_last();
    assert(d.push(s.last()) == s);
    d.to_multiset_ensures();
    if a == s.len() - 1 {
        assert(!d.contains(s[a])) by {
            if d.contains(s[a]) {
                let k = choose|k: int| 0 <= k < d.len() && d[k] == s[a];
                assert(s[k] == d[k]);
            }
        }
    } else {
        assert(d[a] == s[a]);
        lemma_count_one(d, a);
        assert(s.last() != s[a]) by {
            assert(s[s.len() - 1].0 != s[a].0);
        }
    }
}

/// The product totals, largest first; equal totals keep their order.
fn sort_products(v: Vec<(String, i128)>) -> (r: Vec<(String, i128)>)
    ensures
        descending_by_total(r@),
        r@.to_multiset() == v@.to_multiset(),
        total(product_view(r@)) == total(product_view(v@)),
{
    let ghost before = v@;
    let mut r = v;
    par_sort_by_total_descending(&mut r);
    proof {
        let f = |e: (String, i128)| (e.0@, e.1 as int);
        lemma_permutation_total(r@, before, f);
        assert(product_view(r@) == r@.map_values(f));
        assert(product_view(before) == before.map_values(f));
    }
    r
}

/// `d` holds the entries of `t`, each series in its chart order.
pub open spec fn prepared_from(d: PlotData, t: SalesTotals) -> bool {
    &&& chronological(d.monthly@)
    &&& descending_by_total(d.products@)
    &&& d.monthly@.to_multiset() == t.by_month.entries@.to_multiset()
    &&& d.products@.to_multiset() == t.by_product.entries@.to_multiset()
    &&& total(month_view(d.monthly@)) == total(t.by_month@)
    &&& total(product_view(d.products@)) == total(t.by_product@)
}

/// Orders the aggregates for charting: months oldest first, products by
/// total, largest first. Refuses aggregates with no month or no product.
pub fn prepare_data_for_plotting(totals: SalesTotals) -> (r: Result<PlotData, SalesError>)
    requires
        totals.wf(),
    ensures
        r is Err <==> totals.by_month@.len() == 0 || totals.by_product@.len() == 0,
        r is Err ==> r->Err_0 == SalesError::EmptyAggregate,
        r is Ok ==> prepared_from(r->Ok_0, totals),
{
    if totals.by_month.entries.len() == 0 || totals.by_product.entries.len() == 0 {
        return Err(SalesError::EmptyAggregate);
    }
    proof {
        assert forall|i: int, j: int| 0 <= i < j < totals.by_month.entries@.len() implies
            totals.by_month.entries@[i].0 != totals.by_month.entries@[j].0 by {
            assert(totals.by_month@[i].0 != totals.by_month@[j].0);
        }
    }
    let SalesTotals { by_month, by_product, .. } = totals;
    let monthly = sort_months(by_month.entries);
    let products = sort_products(by_product.entries);
    Ok(PlotData { monthly, products })
}

} // verus!
