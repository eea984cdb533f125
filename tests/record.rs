use chrono::{Datelike, NaiveDate};
use sales_aggregate::record::{parse_amount, parse_month, parse_record, AmountError, ColumnIndices, RowError};

#[test]
fn month_key_is_first_day_number() {
    let jan = NaiveDate::from_ymd_opt(2023, 1, 1).unwrap().num_days_from_ce();
    assert_eq!(parse_month("2023-01"), Ok(jan));
    assert_eq!(parse_month("2023-02"), Ok(jan + 31));
    assert!(parse_month("2023-13").is_err());
    assert!(parse_month("2023-01-15").is_err());
    assert!(parse_month("January").is_err());
}

#[test]
fn amounts_parse_to_millionths() {
    assert_eq!(parse_amount("100.50"), Ok(100_500_000));
    assert_eq!(parse_amount("180"), Ok(180_000_000));
    assert_eq!(parse_amount("-1.5"), Ok(-1_500_000));
    assert_eq!(parse_amount("+.25"), Ok(250_000));
    assert_eq!(parse_amount("7."), Ok(7_000_000));
    assert_eq!(parse_amount("0.000001"), Ok(1));
    assert_eq!(parse_amount("9223372036854.775807"), Ok(i64::MAX));
}

#[test]
fn amounts_refused() {
    assert_eq!(parse_amount(""), Err(AmountError::Malformed));
    assert_eq!(parse_amount("."), Err(AmountError::Malformed));
    assert_eq!(parse_amount("12a"), Err(AmountError::Malformed));
    assert_eq!(parse_amount("1.2.3"), Err(AmountError::Malformed));
    assert_eq!(parse_amount("$5"), Err(AmountError::Malformed));
    assert_eq!(parse_amount("1.0000001"), Err(AmountError::TooPrecise));
    assert_eq!(parse_amount("9223372036854.775808"), Err(AmountError::OutOfRange));
    assert_eq!(parse_amount("99999999999999999999999999"), Err(AmountError::OutOfRange));
}

#[test]
fn record_reads_columns_by_position() {
    let cols = ColumnIndices { month: 2, product: 0, amount: 1 };
    let row = vec!["Widget".to_string(), "3.5".to_string(), "2024-05".to_string()];
    let p = parse_record(&row, &cols, 9).unwrap();
    assert_eq!(p.product, "Widget");
    assert_eq!(p.amount, 3_500_000);
    assert_eq!(p.month, NaiveDate::from_ymd_opt(2024, 5, 1).unwrap().num_days_from_ce());
    let bad = vec!["Widget".to_string(), "3,5".to_string(), "2024-05".to_string()];
    assert_eq!(
        parse_record(&bad, &cols, 9),
        Err(RowError::Amount { row: 9, text: "3,5".to_string(), cause: AmountError::Malformed })
    );
}
