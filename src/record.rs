use vstd::prelude::*;

verus! {

/// Amounts are held in millionths of a currency unit.
pub const AMOUNT_SCALE: u64 = 1_000_000;

/// Largest number of fraction digits an amount may carry.
pub const MAX_FRACTION_DIGITS: usize = 6;

/// Largest magnitude of an amount, in millionths.
pub const AMOUNT_LIMIT: u64 = 0x7fff_ffff_ffff_ffff;

/// The day number that a date text denotes in a format, when the text is a
/// valid date in that format.
pub uninterp spec fn day_number_of(text: Seq<char>, format: Seq<char>) -> Option<int>;

/// Relies on `chrono::NaiveDate::parse_from_str`, read back through
/// `chrono::Datelike::num_days_from_ce`: the outcome depends on the text and
/// the format alone; the error side carries chrono's description of the cause.
#[verifier::external_body]
fn parse_day_number(text: &str, format: &str) -> (r: Result<i32, String>)
    ensures
        r is Ok <==> day_number_of(text@, format@) is Some,
        r is Ok ==> r->Ok_0 as int == day_number_of(text@, format@)->0,
{
    match chrono::NaiveDate::parse_from_str(text, format) {
        Ok(d) => Ok(chrono::Datelike::num_days_from_ce(&d)),
        Err(e) => Err(e.to_string()),
    }
}

/// The key of a month written `YYYY-MM`: the day number of its first day.
pub open spec fn month_key_of(text: Seq<char>) -> Option<int> {
    day_number_of(text + "-01"@, "%Y-%m-%d"@)
}

/// Parses a month written `YYYY-MM` into the day number of its first day;
/// the error is the cause reported by the date parser.
pub fn parse_month(text: &str) -> (r: Result<i32, String>)
    ensures
        r is Ok <==> month_key_of(text@) is Some,
        r is Ok ==> r->Ok_0 as int == month_key_of(text@)->0,
{
    let mut full = String::from_str(text);
    full.append("-01");
    parse_day_number(full.as_str(), "%Y-%m-%d")
}

pub open spec fn is_digit(c: char) -> bool {
    '0' <= c <= '9'
}

pub open spec fn all_digits(s: Seq<char>) -> bool {
    forall|i: int| 0 <= i < s.len() ==> is_digit(#[trigger] s[i])
}

/// The number that a run of decimal digits denotes.
pub open spec fn digits_value(s: Seq<char>) -> int
    decreases s.len(),
{
    if s.len() == 0 {
        0
    } else {
        10 * digits_value(s.drop_last()) + (s.last() as int - '0' as int)
    }
}

pub open spec fn pow10(n: nat) -> int
    decreases n,
{
    if n == 0 {
        1
    } else {
        10 * pow10((n - 1) as nat)
    }
}

/// `d` is the position of the first `.` in `s`, or its length when there is none.
pub open spec fn is_first_dot(s: Seq<char>, d: int) -> bool {
    &&& 0 <= d <= s.len()
    &&& forall|j: int| 0 <= j < d ==> #[trigger] s[j] != '.'
    &&& d == s.len() || s[d] == '.'
}

pub open spec fn first_dot(s: Seq<char>) -> int {
    choose|d: int| is_first_dot(s, d)
}

/// The digits before the decimal point.
pub open spec fn whole_part(s: Seq<char>) -> Seq<char> {
    s.take(first_dot(s))
}

/// The digits after the decimal point (empty when there is no point).
pub open spec fn fraction_part(s: Seq<char>) -> Seq<char> {
    if first_dot(s) < s.len() {
        s.skip(first_dot(s) + 1)
    } else {
        Seq::empty()
    }
}

/// The magnitude, in millionths, of an unsigned decimal numeral
/// `digits [. digits]`, with at least one digit and at most six after the point.
pub open spec fn magnitude_of(s: Seq<char>) -> Option<int> {
    let w = whole_part(s);
    let f = fraction_part(s);
    if all_digits(w) && all_digits(f) && w.len() + f.len() > 0 && f.len()
        <= MAX_FRACTION_DIGITS {
        Some(digits_value(w) * AMOUNT_SCALE + digits_value(f) * pow10(
            (MAX_FRACTION_DIGITS - f.len()) as nat,
        ))
    } else {
        None
    }
}

pub open spec fn has_sign(s: Seq<char>) -> bool {
    s.len() > 0 && (s[0] == '-' || s[0] == '+')
}

pub open spec fn unsigned_text(s: Seq<char>) -> Seq<char> {
    if has_sign(s) {
        s.skip(1)
    } else {
        s
    }
}

/// The amount, in millionths, that a decimal numeral denotes: an optional
/// sign, then `magnitude_of`'s form, with a magnitude of at most `AMOUNT_LIMIT`.
pub open spec fn amount_of(s: Seq<char>) -> Option<int> {
    match magnitude_of(unsigned_text(s)) {
        Some(m) => if m <= AMOUNT_LIMIT {
            if s.len() > 0 && s[0] == '-' {
                Some(-m)
            } else {
                Some(m)
            }
        } else {
            None
        },
        None => None,
    }
}

proof fn lemma_first_dot_unique(s: Seq<char>, d: int)
    requires
        is_first_dot(s, d),
    ensures
        first_dot(s) == d,
{
    let e = first_dot(s);
    assert(is_first_dot(s, e));
    if e < d {
        assert(s[e] != '.');
    } else if d < e {
        assert(s[d] != '.');
    }
}

proof fn lemma_digits_value_nonneg(s: Seq<char>)
    requires
        all_digits(s),
    ensures
        digits_value(s) >= 0,
    decreases s.len(),
{
    if s.len() > 0 {
        assert(all_digits(s.drop_last()));
        lemma_digits_value_nonneg(s.drop_last());
        assert(is_digit(s[s.len() - 1]));
    }
}

proof fn lemma_pow10_pos(n: nat)
    ensures
        pow10(n) >= 1,
    decreases n,
{
    if n > 0 {
        lemma_pow10_pos((n - 1) as nat);
    }
}

/// Why an amount text was refused.
#[derive(Debug, Clone, Copy, PartialEq, Eq, Structural)]
pub enum AmountError {
    /// A character other than a digit, one point and a leading sign.
    Malformed,
    /// More than six digits after the point.
    TooPrecise,
    /// A magnitude over `AMOUNT_LIMIT` millionths.
    OutOfRange,
}

/// Reads the digits `s[from..to]` as a number, or `None` when one of them is
/// not a digit. A value that grows past `AMOUNT_LIMIT` is reported as `Some`
/// of a number above it.
fn read_digits(s: &str, from: usize, to: usize) -> (r: Option<u128>)
    requires
        from <= to <= s@.len(),
    ensures
        r is None <==> !all_digits(s@.subrange(from as int, to as int)),
        r is Some ==> (r->0 <= AMOUNT_LIMIT <==> digits_value(
            s@.subrange(from as int, to as int),
        ) <= AMOUNT_LIMIT),
        r is Some && r->0 <= AMOUNT_LIMIT ==> r->0 == digits_value(
            s@.subrange(from as int, to as int),
        ),
{
    let ghost full = s@.subrange(from as int, to as int);
    let mut acc: u128 = 0;
    let mut big = false;
    let mut i = from;
    while i < to
        invariant
            from <= i <= to <= s@.len(),
            full == s@.subrange(from as int, to as int),
            all_digits(s@.subrange(from as int, i as int)),
            !big ==> acc == digits_value(s@.subrange(from as int, i as int)) && acc
                <= AMOUNT_LIMIT,
            big ==> digits_value(s@.subrange(from as int, i as int)) > AMOUNT_LIMIT,
            big ==> acc == AMOUNT_LIMIT + 1,
        decreases to - i,
    {
        let c = s.get_char(i);
        let ghost pre = s@.subrange(from as int, i as int);
        let ghost next = s@.subrange(from as int, i + 1);
        assert(next.drop_last() == pre);
        if !('0' <= c && c <= '9') {
            assert(!is_digit(full[i - from]));
            return None;
        }
        proof {
            lemma_digits_value_nonneg(pre);
        }
        if !big {
            acc = acc * 10 + (c as u32 - '0' as u32) as u128;
            if acc > AMOUNT_LIMIT as u128 {
                big = true;
                acc = AMOUNT_LIMIT as u128 + 1;
            }
        }
        i = i + 1;
        assert(all_digits(s@.subrange(from as int, i as int)));
    }
    assert(full == s@.subrange(from as int, i as int));
    Some(acc)
}

/// Parses a decimal amount into millionths of a unit.
pub fn parse_amount(s: &str) -> (r: Result<i64, AmountError>)
    ensures
        r is Ok <==> amount_of(s@) is Some,
        r is Ok ==> r->Ok_0 as int == amount_of(s@)->0,
        r is Err ==> Some(r->Err_0) == amount_error_of(s@),
        r is Ok ==> -AMOUNT_LIMIT <= r->Ok_0 <= AMOUNT_LIMIT,
{
    let n = s.unicode_len();
    let start: usize = if n > 0 && (s.get_char(0) == '-' || s.get_char(0) == '+') {
        1
    } else {
        0
    };
    let negative = n > 0 && s.get_char(0) == '-';
    let ghost u = unsigned_text(s@);
    assert(u == s@.subrange(start as int, n as int));
    let mut d = start;
    while d < n && s.get_char(d) != '.'
        invariant
            start <= d <= n,
            n == s@.len(),
            forall|j: int| start <= j < d ==> s@[j] != '.',
        decreases n - d,
    {
        d = d + 1;
    }
    proof {
        assert(is_first_dot(u, d - start));
        lemma_first_dot_unique(u, d - start);
        assert(whole_part(u) == s@.subrange(start as int, d as int));
    }
    let frac_from: usize = if d < n { d + 1 } else { n };
    assert(fraction_part(u) == s@.subrange(frac_from as int, n as int));
    let whole = read_digits(s, start, d);
    let frac = read_digits(s, frac_from, n);
    if whole.is_none() || frac.is_none() || (d - start) + (n - frac_from) == 0 {
        return Err(AmountError::Malformed);
    }
    if n - frac_from > MAX_FRACTION_DIGITS {
        return Err(AmountError::TooPrecise);
    }
    let w = whole.unwrap();
    let f = frac.unwrap();
    proof {
        lemma_digits_value_nonneg(whole_part(u));
        lemma_digits_value_nonneg(fraction_part(u));
        lemma_pow10_pos((MAX_FRACTION_DIGITS - fraction_part(u).len()) as nat);
    }
    if w > AMOUNT_LIMIT as u128 {
        assert(digits_value(whole_part(u)) * AMOUNT_SCALE >= digits_value(whole_part(u)))
            by (nonlinear_arith)
            requires digits_value(whole_part(u)) >= 0;
        assert(digits_value(fraction_part(u)) * pow10(
            (MAX_FRACTION_DIGITS - fraction_part(u).len()) as nat) >= 0)
            by (nonlinear_arith)
            requires digits_value(fraction_part(u)) >= 0, pow10(
            (MAX_FRACTION_DIGITS - fraction_part(u).len()) as nat) >= 1;
        return Err(AmountError::OutOfRange);
    }
    let mut scale: u128 = 1;
    let mut k: usize = n - frac_from;
    while k < MAX_FRACTION_DIGITS
        invariant
            frac_from <= n,
            n - frac_from <= k <= MAX_FRACTION_DIGITS,
            scale == pow10((k - (n - frac_from)) as nat),
            scale <= 1_000_000,
        decreases MAX_FRACTION_DIGITS - k,
    {
        assert(pow10((k + 1 - (n - frac_from)) as nat) == 10 * pow10(
            (k - (n - frac_from)) as nat,
        ));
        assert(scale * 10 <= 1_000_000) by {
            assert(k - (n - frac_from) < 6);
            lemma_pow10_small((k - (n - frac_from)) as nat);
        }
        scale = scale * 10;
        k = k + 1;
    }
    assert(f < 1_000_000) by {
        assert(digits_value(fraction_part(u)) < pow10(fraction_part(u).len())) by {
            lemma_digits_below_pow10(fraction_part(u));
        }
        lemma_pow10_small(fraction_part(u).len());
    }
    assert(w * 1_000_000 <= 0x7fff_ffff_ffff_ffff * 1_000_000) by (nonlinear_arith)
        requires w <= 0x7fff_ffff_ffff_ffff;
    assert(f * scale <= 1_000_000 * 1_000_000) by (nonlinear_arith)
        requires f < 1_000_000, scale <= 1_000_000;
    let magnitude: u128 = w * (AMOUNT_SCALE as u128) + f * scale;
    if magnitude > AMOUNT_LIMIT as u128 {
        return Err(AmountError::OutOfRange);
    }
    let m = magnitude as i64;
    if negative {
        Ok(-m)
    } else {
        Ok(m)
    }
}

proof fn lemma_pow10_small(n: nat)
    requires
        n <= 6,
    ensures
        n < 6 ==> 10 * pow10(n) <= 1_000_000,
        pow10(n) <= 1_000_000,
{
    reveal_with_fuel(pow10, 7);
}

proof fn lemma_digits_below_pow10(s: Seq<char>)
    requires
        all_digits(s),
    ensures
        digits_value(s) < pow10(s.len()),
    decreases s.len(),
{
    if s.len() > 0 {
        assert(all_digits(s.drop_last()));
        lemma_digits_below_pow10(s.drop_last());
        assert(is_digit(s[s.len() - 1]));
    }
}

} // verus!

verus! {

/// Positions of the three columns within a row.
#[derive(Debug, Clone, Copy, PartialEq, Eq, Structural)]
pub struct ColumnIndices {
    pub month: usize,
    pub product: usize,
    pub amount: usize,
}

impl ColumnIndices {
    pub open spec fn wf(&self) -> bool {
        self.month < 3 && self.product < 3 && self.amount < 3
    }
}

/// One data row, typed: month key, product name and amount in millionths.
#[derive(Debug, Clone, PartialEq, Eq)]
pub struct ParsedRow {
    pub month: i32,
    pub product: String,
    pub amount: i64,
}

/// The mathematical content of a parsed row: month key, product name, amount.
pub type Sale = (int, Seq<char>, int);

impl ParsedRow {
    pub open spec fn sale(&self) -> Sale {
        (self.month as int, self.product@, self.amount as int)
    }
}

/// A data row that could not be turned into a `ParsedRow`; `row` counts
/// data rows from zero.
#[derive(Debug, Clone, PartialEq, Eq)]
pub enum RowError {
    FieldCount { row: usize, found: usize },
    Month { row: usize, text: String, cause: String },
    Amount { row: usize, text: String, cause: AmountError },
}

impl RowError {
    pub open spec fn row_spec(&self) -> usize {
        match self {
            RowError::FieldCount { row, .. } => *row,
            RowError::Month { row, .. } => *row,
            RowError::Amount { row, .. } => *row,
        }
    }

    /// Position of the offending row among the data rows.
    pub fn row(&self) -> (r: usize)
        ensures
            r == self.row_spec(),
    {
        match self {
            RowError::FieldCount { row, .. } => *row,
            RowError::Month { row, .. } => *row,
            RowError::Amount { row, .. } => *row,
        }
    }
}

/// The text of each field of a row.
pub open spec fn fields(row: Vec<String>) -> Seq<Seq<char>> {
    row@.map_values(|f: String| f@)
}

/// The sale that a row of field texts denotes, if it is well formed.
pub open spec fn sale_of(row: Seq<Seq<char>>, cols: ColumnIndices) -> Option<Sale> {
    if row.len() == 3 && month_key_of(row[cols.month as int]) is Some && amount_of(
        row[cols.amount as int],
    ) is Some {
        Some(
            (
                month_key_of(row[cols.month as int])->0,
                row[cols.product as int],
                amount_of(row[cols.amount as int])->0,
            ),
        )
    } else {
        None
    }
}

/// The error that a malformed row at position `ordinal` is reported with.
pub open spec fn is_error_for(
    e: RowError,
    row: Seq<Seq<char>>,
    cols: ColumnIndices,
    ordinal: usize,
) -> bool {
    &&& e.row_spec() == ordinal
    &&& if row.len() != 3 {
        e == (RowError::FieldCount { row: ordinal, found: row.len() as usize })
    } else if month_key_of(row[cols.month as int]) is None {
        e is Month && e->Month_text@ == row[cols.month as int]
    } else {
        e is Amount && e->Amount_text@ == row[cols.amount as int] && Some(e->Amount_cause)
            == amount_error_of(row[cols.amount as int])
    }
}

/// The reason an amount text is refused, if it is.
pub open spec fn amount_error_of(s: Seq<char>) -> Option<AmountError> {
    let u = unsigned_text(s);
    let w = whole_part(u);
    let f = fraction_part(u);
    if !(all_digits(w) && all_digits(f) && w.len() + f.len() > 0) {
        Some(AmountError::Malformed)
    } else if f.len() > MAX_FRACTION_DIGITS {
        Some(AmountError::TooPrecise)
    } else if amount_of(s) is None {
        Some(AmountError::OutOfRange)
    } else {
        None
    }
}

/// Turns one row of field texts into a `ParsedRow`, or the error for its
/// first bad field; `ordinal` is the row's position among the data rows.
pub fn parse_record(row: &Vec<String>, cols: &ColumnIndices, ordinal: usize) -> (r: Result<
    ParsedRow,
    RowError,
>)
    requires
        cols.wf(),
    ensures
        r is Ok <==> sale_of(fields(*row), *cols) is Some,
        r is Ok ==> r->Ok_0.sale() == sale_of(fields(*row), *cols)->0,
        r is Err ==> is_error_for(r->Err_0, fields(*row), *cols, ordinal),
        r is Ok ==> -AMOUNT_LIMIT <= r->Ok_0.amount <= AMOUNT_LIMIT,
{
    if row.len() != 3 {
        return Err(RowError::FieldCount { row: ordinal, found: row.len() });
    }
    let month_text = &row[cols.month];
    let month = match parse_month(month_text.as_str()) {
        Ok(m) => m,
        Err(cause) => {
            return Err(RowError::Month { row: ordinal, text: month_text.clone(), cause });
        },
    };
    let amount_text = &row[cols.amount];
    let amount = match parse_amount(amount_text.as_str()) {
        Ok(a) => a,
        Err(cause) => {
            return Err(RowError::Amount { row: ordinal, text: amount_text.clone(), cause });
        },
    };
    Ok(ParsedRow { month, product: row[cols.product].clone(), amount })
}

} // verus!
