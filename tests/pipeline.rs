use chrono::{Datelike, NaiveDate};
use sales_aggregate::aggregate::{
    aggregate_partitioned, aggregate_rows, combine_partials, merge_totals, MonthTotals,
    ProductTotals, SalesTotals,
};
use sales_aggregate::error::{SalesError, SchemaError};
use sales_aggregate::input::process_sales_csv;
use sales_aggregate::pipeline::process_sales_data;
use sales_aggregate::plot::prepare_data_for_plotting;
use sales_aggregate::record::{ColumnIndices, RowError};
use sales_aggregate::schema::validate_csv_structure;

const UNIT: i128 = 1_000_000;

fn key(y: i32, m: u32) -> i32 {
    NaiveDate::from_ymd_opt(y, m, 1).unwrap().num_days_from_ce()
}

fn month_total(t: &SalesTotals, k: i32) -> Option<i128> {
    t.by_month.entries.iter().find(|e| e.0 == k).map(|e| e.1)
}

fn product_total(t: &SalesTotals, p: &str) -> Option<i128> {
    t.by_product.entries.iter().find(|e| e.0 == p).map(|e| e.1)
}

fn row(a: &str, b: &str, c: &str) -> Vec<String> {
    vec![a.to_string(), b.to_string(), c.to_string()]
}

fn example_rows() -> Vec<Vec<String>> {
    vec![
        row("2023-01", "Product A", "100.50"),
        row("2023-01", "Product B", "200.75"),
        row("2023-02", "Product A", "150.25"),
        row("2023-02", "Product B", "180.00"),
    ]
}

const EXAMPLE_CSV: &str = "month,product,sales_amount\n2023-01,Product A,100.50\n2023-01,Product B,200.75\n2023-02,Product A,150.25\n2023-02,Product B,180.00\n";

#[test]
fn test_process_sales_data() {
    let totals = process_sales_csv(EXAMPLE_CSV.as_bytes(), 4).unwrap();

    assert_eq!(totals.by_month.entries.len(), 2);
    assert_eq!(totals.by_product.entries.len(), 2);

    let jan_2023 = key(2023, 1);
    let feb_2023 = key(2023, 2);

    assert_eq!(month_total(&totals, jan_2023), Some(30_125 * UNIT / 100));
    assert_eq!(month_total(&totals, feb_2023), Some(33_025 * UNIT / 100));

    assert_eq!(product_total(&totals, "Product A"), Some(25_075 * UNIT / 100));
    assert_eq!(product_total(&totals, "Product B"), Some(38_075 * UNIT / 100));
}

#[test]
fn test_prepare_data_for_plotting() {
    let totals = SalesTotals {
        by_month: MonthTotals { entries: vec![(key(2023, 1), 100 * UNIT), (key(2023, 2), 200 * UNIT)] },
        by_product: ProductTotals {
            entries: vec![("Product A".to_string(), 150 * UNIT), ("Product B".to_string(), 150 * UNIT)],
        },
        row_count: 2,
    };

    let data = prepare_data_for_plotting(totals).unwrap();

    assert_eq!(data.monthly.len(), 2);
    assert_eq!(data.products.len(), 2);

    assert_eq!(data.monthly[0].0, key(2023, 1));
    assert_eq!(data.monthly[1].0, key(2023, 2));

    assert_eq!(data.monthly[0].1, 100 * UNIT);
    assert_eq!(data.monthly[1].1, 200 * UNIT);

    assert_eq!(data.products[0].1, 150 * UNIT);
    assert_eq!(data.products[1].1, 150 * UNIT);
    assert_eq!(data.products[0].0, "Product A");
}

#[test]
fn end_to_end_example_series() {
    let totals = process_sales_csv(EXAMPLE_CSV.as_bytes(), 2).unwrap();
    let data = prepare_data_for_plotting(totals).unwrap();
    assert_eq!(data.monthly, vec![(key(2023, 1), 30_125 * UNIT / 100), (key(2023, 2), 33_025 * UNIT / 100)]);
    assert_eq!(
        data.products,
        vec![("Product B".to_string(), 38_075 * UNIT / 100), ("Product A".to_string(), 25_075 * UNIT / 100)]
    );
}

#[test]
fn totals_are_conserved() {
    let totals = process_sales_csv(EXAMPLE_CSV.as_bytes(), 3).unwrap();
    let data = prepare_data_for_plotting(totals).unwrap();
    let rows_sum: i128 = (10_050 + 20_075 + 15_025 + 18_000) * UNIT / 100;
    let months: i128 = data.monthly.iter().map(|e| e.1).sum();
    let products: i128 = data.products.iter().map(|e| e.1).sum();
    assert_eq!(months, rows_sum);
    assert_eq!(products, rows_sum);
}

#[test]
fn monthly_series_ascends_products_descend() {
    let csv = "Product,MONTH,sales_amount\nZ,2024-03,5\nY,2023-11,7.5\nX,2024-01,1\nZ,2023-11,0.25\nW,2022-06,3\n";
    let totals = process_sales_csv(csv.as_bytes(), 2).unwrap();
    let data = prepare_data_for_plotting(totals).unwrap();
    let keys: Vec<i32> = data.monthly.iter().map(|e| e.0).collect();
    assert_eq!(keys, vec![key(2022, 6), key(2023, 11), key(2024, 1), key(2024, 3)]);
    let values: Vec<i128> = data.products.iter().map(|e| e.1).collect();
    assert_eq!(values, vec![75 * UNIT / 10, 525 * UNIT / 100, 3 * UNIT, UNIT]);
}

#[test]
fn partition_count_does_not_change_result() {
    let mut rows = Vec::new();
    for i in 0..37u32 {
        let month = format!("202{}-{:02}", i % 3, i % 12 + 1);
        let product = format!("P{}", i % 5);
        let amount = format!("{}.{:02}", i * 7, i % 100);
        rows.push(row(&month, &product, &amount));
    }
    let cols = ColumnIndices { month: 0, product: 1, amount: 2 };
    let one = prepare_data_for_plotting(aggregate_partitioned(&rows, &cols, 1).unwrap()).unwrap();
    for parts in [0usize, 2, 3, 7, 37, 100] {
        let other = prepare_data_for_plotting(aggregate_partitioned(&rows, &cols, parts).unwrap()).unwrap();
        assert_eq!(one, other);
    }
}

#[test]
fn schema_accepts_any_order_and_case() {
    let header = vec!["Sales_Amount".to_string(), "Month".to_string(), "Product".to_string()];
    let cols = validate_csv_structure(&header).unwrap();
    assert_eq!(cols, ColumnIndices { month: 1, product: 2, amount: 0 });
}

#[test]
fn schema_reports_missing_column() {
    let header = vec!["date".to_string(), "product".to_string(), "sales".to_string()];
    assert_eq!(
        validate_csv_structure(&header),
        Err(SchemaError::MissingColumn { name: "month".to_string() })
    );
    let header = vec!["month".to_string(), "product".to_string(), "sales".to_string()];
    assert_eq!(
        validate_csv_structure(&header),
        Err(SchemaError::MissingColumn { name: "sales_amount".to_string() })
    );
}

#[test]
fn schema_reports_column_count() {
    let header = vec!["month".to_string(), "product".to_string()];
    assert_eq!(validate_csv_structure(&header), Err(SchemaError::ColumnCount { found: 2 }));
    let r = process_sales_csv(b"", 1);
    assert_eq!(r, Err(SalesError::Schema(SchemaError::ColumnCount { found: 0 })));
}

#[test]
fn invalid_month_fails_the_run() {
    let csv = "month,product,sales_amount\n2023-01,ProductA,5\n2023-13,ProductA,100\n";
    match process_sales_csv(csv.as_bytes(), 1) {
        Err(SalesError::Row(RowError::Month { row, text, cause })) => {
            assert_eq!(row, 1);
            assert_eq!(text, "2023-13");
            assert!(!cause.is_empty());
        }
        other => panic!("unexpected outcome {:?}", other),
    }
}

#[test]
fn first_bad_row_is_reported_for_every_partition_count() {
    let mut rows = example_rows();
    rows.push(row("2023-03", "Product C", "12x"));
    rows.push(row("2023-13", "Product C", "1"));
    let cols = ColumnIndices { month: 0, product: 1, amount: 2 };
    for parts in [1usize, 2, 3, 6] {
        match aggregate_partitioned(&rows, &cols, parts) {
            Err(RowError::Amount { row, text, .. }) => {
                assert_eq!(row, 4);
                assert_eq!(text, "12x");
            }
            other => panic!("unexpected outcome {:?}", other),
        }
    }
}

#[test]
fn wrong_field_count_is_a_row_error() {
    let headers = row("month", "product", "sales_amount");
    let rows = vec![row("2023-01", "A", "1"), vec!["2023-01".to_string(), "A".to_string()]];
    assert_eq!(
        process_sales_data(&headers, &rows, 1),
        Err(SalesError::Row(RowError::FieldCount { row: 1, found: 2 }))
    );
}

#[test]
fn header_only_input_is_empty_aggregate() {
    let totals = process_sales_csv(b"month,product,sales_amount\n", 4).unwrap();
    assert_eq!(totals.row_count, 0);
    assert_eq!(prepare_data_for_plotting(totals), Err(SalesError::EmptyAggregate));
}

#[test]
fn malformed_csv_is_reported() {
    let data: &[u8] = b"month,product,sales_amount\n2023-01,\xff\xfe,1\n";
    assert!(matches!(process_sales_csv(data, 1), Err(SalesError::Csv(_))));
}

#[test]
fn merge_adds_per_key() {
    let cols = ColumnIndices { month: 0, product: 1, amount: 2 };
    let rows = example_rows();
    let a = aggregate_rows(&rows[..1], &cols, 0).unwrap();
    let b = aggregate_rows(&rows[1..], &cols, 1).unwrap();
    let m = merge_totals(a, &b);
    assert_eq!(m.row_count, 4);
    assert_eq!(month_total(&m, key(2023, 1)), Some(30_125 * UNIT / 100));
    assert_eq!(product_total(&m, "Product A"), Some(25_075 * UNIT / 100));
}

#[test]
fn combine_takes_first_error_in_order() {
    let cols = ColumnIndices { month: 0, product: 1, amount: 2 };
    let good = aggregate_rows(&example_rows(), &cols, 0);
    let bad1 = aggregate_rows(&[row("x", "A", "1")], &cols, 4);
    let bad2 = aggregate_rows(&[row("2023-01", "A", "y")], &cols, 5);
    let r = combine_partials(vec![good.clone(), bad1.clone(), bad2]);
    assert_eq!(r, bad1);
    let all = combine_partials(vec![good.clone(), good]);
    let all = all.unwrap();
    assert_eq!(all.row_count, 8);
    assert_eq!(month_total(&all, key(2023, 2)), Some(2 * 33_025 * UNIT / 100));
}
