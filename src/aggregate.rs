use vstd::prelude::*;
use crate::record::{
    parse_record, fields, sale_of, is_error_for, ColumnIndices, RowError, Sale,
    AMOUNT_LIMIT,
};
use crate::tally::{
    tally_of, total, has_key, unique_keys, sum_for, lemma_tally_push, lemma_total_update,
    lemma_total_concat, lemma_tally_transfer, lemma_sum_concat, lemma_sum_absent,
    lemma_sum_unique,
};

verus! {

/// Sum of amounts per month key.
#[derive(Debug, Clone, PartialEq, Eq)]
pub struct MonthTotals {
    pub entries: Vec<(i32, i128)>,
}

/// Sum of amounts per product name.
#[derive(Debug, Clone, PartialEq, Eq)]
pub struct ProductTotals {
    pub entries: Vec<(String, i128)>,
}

impl View for MonthTotals {
    type V = Seq<(int, int)>;

    open spec fn view(&self) -> Seq<(int, int)> {
        self.entries@.map_values(|e: (i32, i128)| (e.0 as int, e.1 as int))
    }
}

impl View for ProductTotals {
    type V = Seq<(Seq<char>, int)>;

    open spec fn view(&self) -> Seq<(Seq<char>, int)> {
        self.entries@.map_values(|e: (String, i128)| (e.0@, e.1 as int))
    }
}

/// The (month, amount) pairs of a sequence of sales.
pub open spec fn month_sales(s: Seq<Sale>) -> Seq<(int, int)> {
    s.map_values(|x: Sale| (x.0, x.2))
}

/// The (product, amount) pairs of a sequence of sales.
pub open spec fn product_sales(s: Seq<Sale>) -> Seq<(Seq<char>, int)> {
    s.map_values(|x: Sale| (x.1, x.2))
}

/// Sum of the amounts of a sequence of sales.
pub open spec fn amount_total(s: Seq<Sale>) -> int {
    total(month_sales(s))
}

/// The two aggregates over some number of rows.
#[derive(Debug, Clone, PartialEq, Eq)]
pub struct SalesTotals {
    pub by_month: MonthTotals,
    pub by_product: ProductTotals,
    /// How many rows were folded in.
    pub row_count: usize,
}

pub open spec fn within(v: int, rows: int) -> bool {
    -rows * AMOUNT_LIMIT <= v <= rows * AMOUNT_LIMIT
}

impl SalesTotals {
    /// Keys are unique and no sum exceeds what `row_count` amounts can add up to.
    pub open spec fn wf(&self) -> bool {
        &&& unique_keys(self.by_month@)
        &&& unique_keys(self.by_product@)
        &&& forall|i: int|
            0 <= i < self.by_month@.len() ==> within(
                #[trigger] self.by_month@[i].1,
                self.row_count as int,
            )
        &&& forall|i: int|
            0 <= i < self.by_product@.len() ==> within(
                #[trigger] self.by_product@[i].1,
                self.row_count as int,
            )
        &&& total(self.by_month@) == total(self.by_product@)
    }

    /// These are the aggregates of the sales `s`.
    pub open spec fn describes(&self, s: Seq<Sale>) -> bool {
        &&& self.wf()
        &&& self.row_count == s.len()
        &&& tally_of(self.by_month@, month_sales(s))
        &&& tally_of(self.by_product@, product_sales(s))
        &&& total(self.by_month@) == amount_total(s)
        &&& total(self.by_product@) == amount_total(s)
    }

    /// Aggregates of no rows.
    pub fn new() -> (r: SalesTotals)
        ensures
            r.describes(Seq::empty()),
    {
        let r = SalesTotals {
            by_month: MonthTotals { entries: Vec::new() },
            by_product: ProductTotals { entries: Vec::new() },
            row_count: 0,
        };
        assert(month_sales(Seq::<Sale>::empty()) == Seq::<(int, int)>::empty());
        assert(product_sales(Seq::<Sale>::empty()) == Seq::<(Seq<char>, int)>::empty());
        assert(r.by_month@ == Seq::<(int, int)>::empty());
        assert(r.by_product@ == Seq::<(Seq<char>, int)>::empty());
        r
    }
}

/// How an entry for key `k` with value `v` enters the tally `t`: added to
/// the entry of `k`, or appended when `k` has none.
pub open spec fn recorded<K>(t: Seq<(K, int)>, k: K, v: int, t2: Seq<(K, int)>) -> bool {
    (exists|i: int| 0 <= i < t.len() && t[i].0 == k && t2 == t.update(i, (k, t[i].1 + v)))
        || (!has_key(t, k) && t2 == t.push((k, v)))
}

pub open spec fn fits_i128(v: int) -> bool {
    -0x7fff_ffff_ffff_ffff_ffff_ffff_ffff_ffff <= v <= 0x7fff_ffff_ffff_ffff_ffff_ffff_ffff_ffff
}

/// Adds `v` to the sum of month `k`, creating the entry when absent.
fn add_month(t: &mut MonthTotals, k: i32, v: i128)
    requires
        forall|i: int| #![trigger old(t)@[i]] 0 <= i < old(t)@.len() && old(t)@[i].0 == k ==> fits_i128(old(t)@[i].1 + v as int),
    ensures
        recorded(old(t)@, k as int, v as int, final(t)@),
{
    let ghost t0 = t@;
    let mut i: usize = 0;
    while i < t.entries.len()
        invariant
            t@ == t0,
            t0 == old(t)@,
            forall|i: int| #![trigger t0[i]] 0 <= i < t0.len() && t0[i].0 == k ==> fits_i128(t0[i].1 + v as int),
            0 <= i <= t@.len(),
            forall|j: int| 0 <= j < i ==> t@[j].0 != k,
        decreases t@.len() - i,
    {
        if t.entries[i].0 == k {
            let cur = t.entries[i].1;
            assert(old(t)@[i as int].0 == k);
            assert(fits_i128(t0[i as int].1 + v as int));
            assert(cur == t0[i as int].1);
            t.entries.set(i, (k, cur + v));
            assert(t@ == t0.update(i as int, (k as int, t0[i as int].1 + v)));
            return;
        }
        i = i + 1;
    }
    t.entries.push((k, v));
    assert(t@ == t0.push((k as int, v as int)));
    assert(!has_key(t0, k as int));
}

/// Adds `v` to the sum of product `k`, creating the entry when absent.
fn add_product(t: &mut ProductTotals, k: &String, v: i128)
    requires
        forall|i: int| #![trigger old(t)@[i]] 0 <= i < old(t)@.len() && old(t)@[i].0 == k@ ==> fits_i128(old(t)@[i].1 + v as int),
    ensures
        recorded(old(t)@, k@, v as int, final(t)@),
{
    let ghost t0 = t@;
    let mut i: usize = 0;
    while i < t.entries.len()
        invariant
            t@ == t0,
            t0 == old(t)@,
            forall|i: int| #![trigger t0[i]] 0 <= i < t0.len() && t0[i].0 == k@ ==> fits_i128(t0[i].1 + v as int),
            0 <= i <= t@.len(),
            forall|j: int| 0 <= j < i ==> t@[j].0 != k@,
        decreases t@.len() - i,
    {
        if t.entries[i].0 == *k {
            let cur = t.entries[i].1;
            assert(old(t)@[i as int].0 == k@);
            assert(fits_i128(t0[i as int].1 + v as int));
            assert(cur == t0[i as int].1);
            t.entries.set(i, (k.clone(), cur + v));
            assert(t@ == t0.update(i as int, (k@, t0[i as int].1 + v)));
            return;
        }
        i = i + 1;
    }
    t.entries.push((k.clone(), v));
    assert(t@ == t0.push((k@, v as int)));
    assert(!has_key(t0, k@));
}

proof fn lemma_within_fits(x: int, v: int, n: int)
    requires
        within(x, n),
        within(v, 1),
        0 <= n,
        n + 1 <= 0x1_0000_0000_0000_0000,
    ensures
        within(x + v, n + 1),
        fits_i128(x + v),
{
    assert((n + 1) * AMOUNT_LIMIT <= 0x1_0000_0000_0000_0000 * AMOUNT_LIMIT) by (nonlinear_arith)
        requires n + 1 <= 0x1_0000_0000_0000_0000;
}

/// One recorded value keeps the tally, adds to the total and widens the bound by one row.
proof fn lemma_record_step<K>(t: Seq<(K, int)>, s: Seq<(K, int)>, k: K, v: int, t2: Seq<(K, int)>, n: int)
    requires
        tally_of(t, s),
        recorded(t, k, v, t2),
        forall|i: int| 0 <= i < t.len() ==> within(#[trigger] t[i].1, n),
        within(v, 1),
        0 <= n,
        n + 1 <= 0x1_0000_0000_0000_0000,
    ensures
        tally_of(t2, s.push((k, v))),
        total(t2) == total(t) + v,
        forall|i: int| 0 <= i < t2.len() ==> within(#[trigger] t2[i].1, n + 1),
{
    lemma_tally_push(t, s, k, v, t2);
    if exists|i: int| 0 <= i < t.len() && t[i].0 == k && t2 == t.update(i, (k, t[i].1 + v)) {
        let i = choose|i: int| 0 <= i < t.len() && t[i].0 == k && t2 == t.update(i, (k, t[i].1 + v));
        lemma_total_update(t, i, (k, t[i].1 + v));
        lemma_within_fits(t[i].1, v, n);
        assert forall|j: int| 0 <= j < t2.len() implies within(#[trigger] t2[j].1, n + 1) by {
            if j != i {
                assert(within(t[j].1, n));
                assert(n * AMOUNT_LIMIT <= (n + 1) * AMOUNT_LIMIT) by (nonlinear_arith)
                    requires n >= 0;
            }
        }
    } else {
        assert(t2.drop_last() == t);
        assert forall|j: int| 0 <= j < t2.len() implies within(#[trigger] t2[j].1, n + 1) by {
            if j < t.len() {
                assert(t2[j] == t[j]);
                assert(within(t[j].1, n));
            }
            assert(n * AMOUNT_LIMIT <= (n + 1) * AMOUNT_LIMIT) by (nonlinear_arith)
                requires n >= 0;
            assert(1 * AMOUNT_LIMIT <= (n + 1) * AMOUNT_LIMIT) by (nonlinear_arith)
                requires n >= 0;
        }
    }
}

/// Every row parses.
pub open spec fn all_parse(rows: Seq<Vec<String>>, cols: ColumnIndices) -> bool {
    forall|i: int| 0 <= i < rows.len() ==> (#[trigger] sale_of(fields(rows[i]), cols)) is Some
}

/// The sales that rows denote, when they all parse.
pub open spec fn sales_of(rows: Seq<Vec<String>>, cols: ColumnIndices) -> Seq<Sale> {
    rows.map_values(|r: Vec<String>| sale_of(fields(r), cols)->0)
}

/// `e` reports the first row of `rows` that does not parse, with rows
/// numbered from `first_row`.
pub open spec fn reports_first_failure(
    rows: Seq<Vec<String>>,
    cols: ColumnIndices,
    first_row: int,
    e: RowError,
) -> bool {
    let i = e.row_spec() - first_row;
    &&& 0 <= i < rows.len()
    &&& all_parse(rows.take(i), cols)
    &&& sale_of(fields(rows[i]), cols) is None
    &&& is_error_for(e, fields(rows[i]), cols, e.row_spec())
}

/// Folds rows, numbered from `first_row`, into their two aggregates; stops
/// at the first row that does not parse.
pub fn aggregate_rows(rows: &[Vec<String>], cols: &ColumnIndices, first_row: usize) -> (r: Result<
    SalesTotals,
    RowError,
>)
    requires
        cols.wf(),
        first_row + rows@.len() <= usize::MAX,
    ensures
        r is Ok <==> all_parse(rows@, *cols),
        r is Ok ==> r->Ok_0.describes(sales_of(rows@, *cols)),
        r is Err ==> reports_first_failure(rows@, *cols, first_row as int, r->Err_0),
{
    let mut acc = SalesTotals::new();
    let mut i: usize = 0;
    while i < rows.len()
        invariant
            cols.wf(),
            first_row + rows@.len() <= usize::MAX,
            0 <= i <= rows@.len(),
            all_parse(rows@.take(i as int), *cols),
            acc.describes(sales_of(rows@.take(i as int), *cols)),
        decreases rows@.len() - i,
    {
        let ghost before = sales_of(rows@.take(i as int), *cols);
        let parsed = parse_record(&rows[i], cols, first_row + i);
        match parsed {
            Err(e) => {
                return Err(e);
            },
            Ok(p) => {
                let ghost t_month = acc.by_month@;
                let ghost t_product = acc.by_product@;
                let ghost n = acc.row_count as int;
                let ghost x = p.sale();
                proof {
                    assert forall|j: int| #![trigger t_month[j]] 0 <= j < t_month.len() && t_month[j].0 == p.month
                        implies fits_i128(t_month[j].1 + p.amount as int) by {
                        lemma_within_fits(t_month[j].1, p.amount as int, n);
                    }
                    assert forall|j: int| #![trigger t_product[j]] 0 <= j < t_product.len() && t_product[j].0 == p.product@
                        implies fits_i128(t_product[j].1 + p.amount as int) by {
                        lemma_within_fits(t_product[j].1, p.amount as int, n);
                    }
                }
                add_month(&mut acc.by_month, p.month, p.amount as i128);
                add_product(&mut acc.by_product, &p.product, p.amount as i128);
                acc.row_count = acc.row_count + 1;
                proof {
                    let after = sales_of(rows@.take(i + 1), *cols);
                    assert(rows@.take(i + 1) == rows@.take(i as int).push(rows@[i as int]));
                    assert(after == before.push(x));
                    assert(month_sales(after) == month_sales(before).push((x.0, x.2)));
                    assert(product_sales(after) == product_sales(before).push((x.1, x.2)));
                    assert(month_sales(after).drop_last() == month_sales(before));
                    lemma_record_step(t_month, month_sales(before), p.month as int, p.amount as int, acc.by_month@, n);
                    lemma_record_step(t_product, product_sales(before), p.product@, p.amount as int, acc.by_product@, n);
                    assert(all_parse(rows@.take(i + 1), *cols)) by {
                        assert forall|j: int| 0 <= j < i + 1 implies (#[trigger] sale_of(fields(rows@.take(i + 1)[j]), *cols)) is Some by {
                            if j < i {
                                assert(rows@.take(i + 1)[j] == rows@.take(i as int)[j]);
                            }
                        }
                    }
                }
            },
        }
        i = i + 1;
    }
    assert(rows@.take(rows@.len() as int) == rows@);
    Ok(acc)
}

/// Before one entry of a second tally is folded into the merge: the
/// current sum under its key comes from the first tally alone.
proof fn lemma_merge_fits<K>(
    t: Seq<(K, int)>,
    a: Seq<(K, int)>,
    b: Seq<(K, int)>,
    j: int,
    na: int,
    nb: int,
)
    requires
        tally_of(t, a + b.take(j)),
        unique_keys(a),
        unique_keys(b),
        0 <= j < b.len(),
        forall|i: int| 0 <= i < a.len() ==> within(#[trigger] a[i].1, na),
        forall|i: int| 0 <= i < b.len() ==> within(#[trigger] b[i].1, nb),
        0 <= na,
        0 <= nb,
        na + nb <= 0x1_0000_0000_0000_0000,
    ensures
        forall|i: int|
            #![trigger t[i]]
            0 <= i < t.len() && t[i].0 == b[j].0 ==> fits_i128(t[i].1 + b[j].1) && within(
                t[i].1 + b[j].1,
                na + nb,
            ),
        within(b[j].1, na + nb),
{
    let k = b[j].0;
    assert(na * AMOUNT_LIMIT >= 0 && nb * AMOUNT_LIMIT >= 0) by (nonlinear_arith)
        requires na >= 0, nb >= 0;
    assert((na + nb) * AMOUNT_LIMIT <= 0x1_0000_0000_0000_0000 * AMOUNT_LIMIT) by (nonlinear_arith)
        requires na + nb <= 0x1_0000_0000_0000_0000;
    assert((na + nb) * AMOUNT_LIMIT == na * AMOUNT_LIMIT + nb * AMOUNT_LIMIT) by (nonlinear_arith);
    assert(within(b[j].1, nb));
    assert forall|i: int| #![trigger t[i]] 0 <= i < t.len() && t[i].0 == k implies fits_i128(t[i].1 + b[j].1) && within(
        t[i].1 + b[j].1,
        na + nb,
    ) by {
        lemma_sum_concat(a, b.take(j), k);
        assert forall|x: int| 0 <= x < b.take(j).len() implies #[trigger] b.take(j)[x].0 != k by {
            assert(b.take(j)[x] == b[x]);
        }
        lemma_sum_absent(b.take(j), k);
        if has_key(a, k) {
            let y = choose|y: int| 0 <= y < a.len() && #[trigger] a[y].0 == k;
            lemma_sum_unique(a, y);
            assert(within(a[y].1, na));
        } else {
            lemma_sum_absent(a, k);
        }
    }
}

/// After one entry of a second tally is folded into the merge.
proof fn lemma_merge_step<K>(
    t: Seq<(K, int)>,
    a: Seq<(K, int)>,
    b: Seq<(K, int)>,
    j: int,
    t2: Seq<(K, int)>,
    n: int,
)
    requires
        tally_of(t, a + b.take(j)),
        0 <= j < b.len(),
        recorded(t, b[j].0, b[j].1, t2),
        forall|i: int| 0 <= i < t.len() ==> within(#[trigger] t[i].1, n),
        forall|i: int|
            #![trigger t[i]]
            0 <= i < t.len() && t[i].0 == b[j].0 ==> within(t[i].1 + b[j].1, n),
        within(b[j].1, n),
    ensures
        tally_of(t2, a + b.take(j + 1)),
        total(t2) == total(t) + b[j].1,
        forall|i: int| 0 <= i < t2.len() ==> within(#[trigger] t2[i].1, n),
{
    assert(a + b.take(j + 1) == (a + b.take(j)).push(b[j]));
    lemma_tally_push(t, a + b.take(j), b[j].0, b[j].1, t2);
    if exists|i: int| 0 <= i < t.len() && t[i].0 == b[j].0 && t2 == t.update(i, (b[j].0, t[i].1 + b[j].1)) {
        let i = choose|i: int| 0 <= i < t.len() && t[i].0 == b[j].0 && t2 == t.update(i, (b[j].0, t[i].1 + b[j].1));
        lemma_total_update(t, i, (b[j].0, t[i].1 + b[j].1));
        assert forall|x: int| 0 <= x < t2.len() implies within(#[trigger] t2[x].1, n) by {
            if x != i {
                assert(within(t[x].1, n));
            }
        }
    } else {
        assert(t2.drop_last() == t);
        assert forall|x: int| 0 <= x < t2.len() implies within(#[trigger] t2[x].1, n) by {
            if x < t.len() {
                assert(t2[x] == t[x]);
                assert(within(t[x].1, n));
            }
        }
    }
}

/// Merges two aggregates: per key, the sums of both; a key of only one
/// contributes its own sum.
pub fn merge_totals(a: SalesTotals, b: &SalesTotals) -> (r: SalesTotals)
    requires
        a.wf(),
        b.wf(),
        a.row_count + b.row_count <= usize::MAX,
    ensures
        r.wf(),
        r.row_count == a.row_count + b.row_count,
        tally_of(r.by_month@, a.by_month@ + b.by_month@),
        tally_of(r.by_product@, a.by_product@ + b.by_product@),
        total(r.by_month@) == total(a.by_month@) + total(b.by_month@),
        total(r.by_product@) == total(a.by_product@) + total(b.by_product@),
{
    let ghost na = a.row_count as int;
    let ghost nb = b.row_count as int;
    let ghost am = a.by_month@;
    let ghost ap = a.by_product@;
    let ghost bm = b.by_month@;
    let ghost bp = b.by_product@;
    let ghost ga = a;
    let count = a.row_count + b.row_count;
    let mut r = a;
    proof {
        assert(am + bm.take(0) == am);
        assert(ap + bp.take(0) == ap);
        lemma_self_tally(am);
        lemma_self_tally(ap);
        assert forall|i: int| 0 <= i < am.len() implies within(#[trigger] am[i].1, na + nb) by {
            assert(na * AMOUNT_LIMIT <= (na + nb) * AMOUNT_LIMIT) by (nonlinear_arith)
                requires nb >= 0;
        }
        assert forall|i: int| 0 <= i < ap.len() implies within(#[trigger] ap[i].1, na + nb) by {
            assert(na * AMOUNT_LIMIT <= (na + nb) * AMOUNT_LIMIT) by (nonlinear_arith)
                requires nb >= 0;
        }
    }
    let mut j: usize = 0;
    while j < b.by_month.entries.len()
        invariant
            ga.wf(), b.wf(), na + nb <= usize::MAX,
            am == ga.by_month@, bm == b.by_month@, na == ga.row_count, nb == b.row_count,
            0 <= j <= bm.len(),
            tally_of(r.by_month@, am + bm.take(j as int)),
            total(r.by_month@) == total(am) + total(bm.take(j as int)),
            forall|i: int| 0 <= i < r.by_month@.len() ==> within(#[trigger] r.by_month@[i].1, na + nb),
            r.by_product@ == ap, ap == ga.by_product@, bp == b.by_product@,
        decreases bm.len() - j,
    {
        let e = b.by_month.entries[j];
        let ghost t = r.by_month@;
        proof {
            lemma_merge_fits(t, am, bm, j as int, na, nb);
            assert(e.0 as int == bm[j as int].0 && e.1 as int == bm[j as int].1);
        }
        add_month(&mut r.by_month, e.0, e.1);
        proof {
            lemma_merge_step(t, am, bm, j as int, r.by_month@, na + nb);
            assert(bm.take(j + 1) == bm.take(j as int).push(bm[j as int]));
            assert(bm.take(j + 1).drop_last() == bm.take(j as int));
        }
        j = j + 1;
    }
    proof {
        assert(bm.take(bm.len() as int) == bm);
        assert(ap + bp.take(0) == ap);
        lemma_self_tally(ap);
        assert(total(bp.take(0)) == 0);
        assert forall|i: int| 0 <= i < ap.len() implies within(#[trigger] ap[i].1, na + nb) by {
            assert(na * AMOUNT_LIMIT <= (na + nb) * AMOUNT_LIMIT) by (nonlinear_arith)
                requires nb >= 0;
        }
    }
    let mut j: usize = 0;
    while j < b.by_product.entries.len()
        invariant
            ga.wf(), b.wf(), na + nb <= usize::MAX,
            ap == ga.by_product@, bp == b.by_product@, na == ga.row_count, nb == b.row_count,
            0 <= j <= bp.len(),
            tally_of(r.by_month@, am + bm),
            total(r.by_month@) == total(am) + total(bm),
            forall|i: int| 0 <= i < r.by_month@.len() ==> within(#[trigger] r.by_month@[i].1, na + nb),
            tally_of(r.by_product@, ap + bp.take(j as int)),
            total(r.by_product@) == total(ap) + total(bp.take(j as int)),
            forall|i: int| 0 <= i < r.by_product@.len() ==> within(#[trigger] r.by_product@[i].1, na + nb),
        decreases bp.len() - j,
    {
        let e = &b.by_product.entries[j];
        let ghost t = r.by_product@;
        proof {
            lemma_merge_fits(t, ap, bp, j as int, na, nb);
            assert(e.0@ == bp[j as int].0 && e.1 as int == bp[j as int].1);
        }
        add_product(&mut r.by_product, &e.0, e.1);
        proof {
            lemma_merge_step(t, ap, bp, j as int, r.by_product@, na + nb);
            assert(bp.take(j + 1) == bp.take(j as int).push(bp[j as int]));
            assert(bp.take(j + 1).drop_last() == bp.take(j as int));
        }
        j = j + 1;
    }
    r.row_count = count;
    assert(bm.take(bm.len() as int) == bm);
    assert(bp.take(bp.len() as int) == bp);
    r
}

/// A tally with unique keys tallies itself.
pub proof fn lemma_self_tally<K>(t: Seq<(K, int)>)
    requires
        unique_keys(t),
    ensures
        tally_of(t, t),
{
    assert forall|i: int| 0 <= i < t.len() implies t[i].1 == sum_for(t, #[trigger] t[i].0) by {
        lemma_sum_unique(t, i);
    }
}

/// Merging the aggregates of two runs of rows gives the aggregates of the
/// rows of both, one run after the other.
pub proof fn lemma_merge_describes(a: SalesTotals, b: SalesTotals, r: SalesTotals, sa: Seq<Sale>, sb: Seq<Sale>)
    requires
        a.describes(sa),
        b.describes(sb),
        r.wf(),
        r.row_count == a.row_count + b.row_count,
        tally_of(r.by_month@, a.by_month@ + b.by_month@),
        tally_of(r.by_product@, a.by_product@ + b.by_product@),
        total(r.by_month@) == total(a.by_month@) + total(b.by_month@),
        total(r.by_product@) == total(a.by_product@) + total(b.by_product@),
    ensures
        r.describes(sa + sb),
{
    assert(month_sales(sa + sb) == month_sales(sa) + month_sales(sb));
    assert(product_sales(sa + sb) == product_sales(sa) + product_sales(sb));
    lemma_tally_transfer(r.by_month@, a.by_month@, b.by_month@, month_sales(sa), month_sales(sb));
    lemma_tally_transfer(r.by_product@, a.by_product@, b.by_product@, product_sales(sa), product_sales(sb));
    lemma_total_concat(month_sales(sa), month_sales(sb));
}

/// Aggregates the rows in `parts` runs of consecutive rows (one run when
/// `parts` is zero), folding each run on its own and merging the results in
/// order. The outcome is the same for every `parts`: that of folding all rows
/// at once.
pub fn aggregate_partitioned(rows: &Vec<Vec<String>>, cols: &ColumnIndices, parts: usize) -> (r: Result<
    SalesTotals,
    RowError,
>)
    requires
        cols.wf(),
    ensures
        r is Ok <==> all_parse(rows@, *cols),
        r is Ok ==> r->Ok_0.describes(sales_of(rows@, *cols)),
        r is Err ==> reports_first_failure(rows@, *cols, 0, r->Err_0),
{
    let n = rows.len();
    let parts = if parts == 0 { 1 } else { parts };
    if n > 0 {
        assert((n - 1) as int / parts as int <= n - 1) by (nonlinear_arith)
            requires parts >= 1, n >= 1;
    }
    let size: usize = if n == 0 { 1 } else { (n - 1) / parts + 1 };
    let mut acc = SalesTotals::new();
    let mut start: usize = 0;
    assert(rows@.take(0) == Seq::<Vec<String>>::empty());
    assert(sales_of(rows@.take(0), *cols) == Seq::<Sale>::empty());
    while start < n
        invariant
            cols.wf(),
            n == rows@.len(),
            size >= 1,
            0 <= start <= n,
            all_parse(rows@.take(start as int), *cols),
            acc.describes(sales_of(rows@.take(start as int), *cols)),
        decreases n - start,
    {
        let end = if n - start < size { n } else { start + size };
        let chunk = vstd::slice::slice_subrange(rows.as_slice(), start, end);
        let ghost sub = rows@.subrange(start as int, end as int);
        match aggregate_rows(chunk, cols, start) {
            Err(e) => {
                proof {
                    let i = e.row_spec() - start;
                    assert(sub[i] == rows@[start + i]);
                    let k = e.row_spec() as int;
                    assert forall|j: int| 0 <= j < k implies (#[trigger] sale_of(fields(rows@.take(k)[j]), *cols)) is Some by {
                        if j < start {
                            assert(rows@.take(k)[j] == rows@.take(start as int)[j]);
                        } else {
                            assert(rows@.take(k)[j] == sub.take(i)[j - start]);
                        }
                    }
                }
                return Err(e);
            },
            Ok(part) => {
                proof {
                    assert(rows@.take(end as int) == rows@.take(start as int) + sub);
                    assert(sales_of(rows@.take(end as int), *cols) == sales_of(rows@.take(start as int), *cols) + sales_of(sub, *cols));
                    assert forall|j: int| 0 <= j < end implies (#[trigger] sale_of(fields(rows@.take(end as int)[j]), *cols)) is Some by {
                        if j < start {
                            assert(rows@.take(end as int)[j] == rows@.take(start as int)[j]);
                        } else {
                            assert(rows@.take(end as int)[j] == sub[j - start]);
                        }
                    }
                }
                let ghost prev = acc;
                acc = merge_totals(acc, &part);
                proof {
                    lemma_merge_describes(prev, part, acc, sales_of(rows@.take(start as int), *cols), sales_of(sub, *cols));
                }
            },
        }
        start = end;
    }
    assert(rows@.take(n as int) == rows@);
    Ok(acc)
}

pub open spec fn all_ok(parts: Seq<Result<SalesTotals, RowError>>) -> bool {
    forall|i: int| 0 <= i < parts.len() ==> (#[trigger] parts[i]) is Ok
}

/// Rows folded into the parts that succeeded.
pub open spec fn rows_in(parts: Seq<Result<SalesTotals, RowError>>) -> int
    decreases parts.len(),
{
    if parts.len() == 0 {
        0
    } else {
        rows_in(parts.drop_last()) + match parts.last() {
            Ok(t) => t.row_count as int,
            Err(_) => 0,
        }
    }
}

/// The month entries of all parts, one part after the other.
pub open spec fn month_entries(parts: Seq<Result<SalesTotals, RowError>>) -> Seq<(int, int)>
    decreases parts.len(),
{
    if parts.len() == 0 {
        Seq::empty()
    } else {
        month_entries(parts.drop_last()) + parts.last()->Ok_0.by_month@
    }
}

/// The product entries of all parts, one part after the other.
pub open spec fn product_entries(parts: Seq<Result<SalesTotals, RowError>>) -> Seq<(Seq<char>, int)>
    decreases parts.len(),
{
    if parts.len() == 0 {
        Seq::empty()
    } else {
        product_entries(parts.drop_last()) + parts.last()->Ok_0.by_product@
    }
}

/// Reduces the outcomes of folding consecutive runs of rows, given in row
/// order: the first error if there is one, else the merge of all parts.
pub fn combine_partials(parts: Vec<Result<SalesTotals, RowError>>) -> (r: Result<SalesTotals, RowError>)
    requires
        forall|i: int| 0 <= i < parts@.len() && (#[trigger] parts@[i]) is Ok ==> parts@[i]->Ok_0.wf(),
        rows_in(parts@) <= usize::MAX,
    ensures
        r is Ok <==> all_ok(parts@),
        r is Err ==> exists|i: int| 0 <= i < parts@.len() && #[trigger] parts@[i] == r && all_ok(parts@.take(i)),
        r is Ok ==> r->Ok_0.wf() && r->Ok_0.row_count == rows_in(parts@),
        r is Ok ==> tally_of(r->Ok_0.by_month@, month_entries(parts@)),
        r is Ok ==> tally_of(r->Ok_0.by_product@, product_entries(parts@)),
        r is Ok ==> total(r->Ok_0.by_month@) == total(month_entries(parts@)),
        r is Ok ==> total(r->Ok_0.by_product@) == total(product_entries(parts@)),
{
    let mut acc = SalesTotals::new();
    let ghost ps = parts@;
    let mut owned = parts;
    let mut i: usize = 0;
    proof {
        assert(ps.take(0) == Seq::<Result<SalesTotals, RowError>>::empty());
        lemma_self_tally(acc.by_month@);
        lemma_self_tally(acc.by_product@);
    }
    while i < owned.len()
        invariant
            ps == owned@,
            ps == parts@,
            0 <= i <= ps.len(),
            forall|j: int| 0 <= j < ps.len() && (#[trigger] ps[j]) is Ok ==> ps[j]->Ok_0.wf(),
            rows_in(ps) <= usize::MAX,
            all_ok(ps.take(i as int)),
            acc.wf(),
            acc.row_count == rows_in(ps.take(i as int)),
            tally_of(acc.by_month@, month_entries(ps.take(i as int))),
            tally_of(acc.by_product@, product_entries(ps.take(i as int))),
            total(acc.by_month@) == total(month_entries(ps.take(i as int))),
            total(acc.by_product@) == total(product_entries(ps.take(i as int))),
        decreases ps.len() - i,
    {
        let ghost pre = ps.take(i as int);
        let ghost next = ps.take(i + 1);
        assert(next.drop_last() == pre);
        assert(next.last() == ps[i as int]);
        proof {
            lemma_rows_in_prefix(ps, i + 1);
        }
        if owned[i].is_err() {
            let removed = owned.remove(i);
            assert(removed == ps[i as int]);
            assert(removed is Err);
            assert(!all_ok(ps));
            assert(0 <= i < ps.len() && ps[i as int] == removed && all_ok(ps.take(i as int)));
            return removed;
        }
        match &owned[i] {
            Err(_) => {
                assert(false);
            },
            Ok(part) => {
                let ghost prev = acc;
                acc = merge_totals(acc, part);
                proof {
                    lemma_self_tally(part.by_month@);
                    lemma_self_tally(part.by_product@);
                    lemma_tally_transfer(acc.by_month@, prev.by_month@, part.by_month@, month_entries(pre), part.by_month@);
                    lemma_tally_transfer(acc.by_product@, prev.by_product@, part.by_product@, product_entries(pre), part.by_product@);
                    lemma_total_concat(month_entries(pre), part.by_month@);
                    lemma_total_concat(product_entries(pre), part.by_product@);
                    assert forall|j: int| 0 <= j < i + 1 implies (#[trigger] next[j]) is Ok by {
                        if j < i {
                            assert(next[j] == pre[j]);
                        }
                    }
                }
            },
        }
        i = i + 1;
    }
    assert(ps.take(ps.len() as int) == ps);
    Ok(acc)
}

proof fn lemma_rows_in_prefix(ps: Seq<Result<SalesTotals, RowError>>, i: int)
    requires
        0 <= i <= ps.len(),
    ensures
        0 <= rows_in(ps.take(i)) <= rows_in(ps),
    decreases ps.len(),
{
    if ps.len() > 0 {
        if i == ps.len() {
            assert(ps.take(i) == ps);
            lemma_rows_in_prefix(ps.drop_last(), i - 1);
            assert(ps.drop_last().take(i - 1) == ps.drop_last());
        } else {
            assert(ps.take(i) == ps.drop_last().take(i));
            lemma_rows_in_prefix(ps.drop_last(), i);
        }
    }
}

} // verus!
