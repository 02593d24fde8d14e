//! Turning a count of seconds since the Unix epoch into a UTC date and time
//! of day, and printing it as `YYYY-MM-DD hh:mm`.

use vstd::prelude::*;
use crate::text::push_char;

verus! {

/// Gregorian leap years: divisible by 4, except centuries not divisible by 400.
pub open spec fn is_leap_year(year: int) -> bool {
    year % 4 == 0 && (year % 100 != 0 || year % 400 == 0)
}

pub open spec fn days_in_year(year: int) -> int {
    if is_leap_year(year) {
        366
    } else {
        365
    }
}

/// Length of month `month` (1 to 12); February has 29 days in a leap year.
pub open spec fn days_in_month(leap: bool, month: int) -> int {
    if month == 2 {
        if leap {
            29
        } else {
            28
        }
    } else if month == 4 || month == 6 || month == 9 || month == 11 {
        30
    } else {
        31
    }
}

/// A day count read as a 32-bit signed integer: the count modulo 2^32, taken
/// as negative from 2^31 on.
pub open spec fn wrap_i32(x: int) -> int {
    let m = x % 0x1_0000_0000;
    if m < 0x8000_0000 {
        m
    } else {
        m - 0x1_0000_0000
    }
}

/// Starting in `year` with `days` days to place, skips whole years while the
/// current year fits; gives the year reached and the days left into it.
pub open spec fn year_and_rest(year: int, days: int) -> (int, int)
    decreases days,
{
    if days < days_in_year(year) {
        (year, days)
    } else {
        year_and_rest(year + 1, days - days_in_year(year))
    }
}

/// Starting at month `month` with `days` days into the year, skips whole
/// months while the current month fits (stopping after December); gives the
/// month reached and the days left into it.
pub open spec fn month_and_rest(leap: bool, month: int, days: int) -> (int, int)
    decreases 13 - month,
{
    if month > 12 || days < days_in_month(leap, month) {
        (month, days)
    } else {
        month_and_rest(leap, month + 1, days - days_in_month(leap, month))
    }
}

/// The fields `(year, month, day, hour, minute)` that a timestamp is printed
/// with. The day count since the epoch is taken as a 32-bit signed value.
pub open spec fn timestamp_fields(secs: int) -> (int, int, int, int, int) {
    let days = secs / 86400;
    let time_of_day = secs % 86400;
    let (year, rest) = year_and_rest(1970, wrap_i32(days));
    let (month, rest2) = month_and_rest(is_leap_year(year), 1, rest);
    (year, month, rest2 + 1, time_of_day / 3600, (time_of_day % 3600) / 60)
}

pub open spec fn digit_char(d: int) -> char {
    (48 + d) as char
}

/// Decimal digits of a natural number, most significant first, without
/// leading zeros.
pub open spec fn decimal(n: nat) -> Seq<char>
    decreases n,
{
    if n < 10 {
        seq![digit_char(n as int)]
    } else {
        decimal(n / 10).push(digit_char((n % 10) as int))
    }
}

/// `n` in decimal, left-padded with zeros to at least `width` characters.
pub open spec fn zero_padded(n: nat, width: nat) -> Seq<char> {
    let ds = decimal(n);
    if ds.len() < width {
        Seq::new((width - ds.len()) as nat, |i: int| '0') + ds
    } else {
        ds
    }
}

/// An integer printed with sign-aware zero padding to `width` characters: a
/// minus sign first for negatives, zeros between it and the digits.
pub open spec fn signed_padded(x: int, width: nat) -> Seq<char> {
    if x < 0 {
        seq!['-'] + zero_padded((-x) as nat, if width > 0 { (width - 1) as nat } else { 0 })
    } else {
        zero_padded(x as nat, width)
    }
}

/// The text `format_time` gives for a timestamp.
pub open spec fn formatted_time(secs: int) -> Seq<char> {
    let (year, month, day, hour, minute) = timestamp_fields(secs);
    signed_padded(year, 4) + seq!['-'] + signed_padded(month, 2) + seq!['-'] + signed_padded(
        day,
        2,
    ) + seq![' '] + signed_padded(hour, 2) + seq![':'] + signed_padded(minute, 2)
}

fn year_length(year: i64) -> (n: i64)
    ensures
        n == days_in_year(year as int),
{
    if year % 4 == 0 && (year % 100 != 0 || year % 400 == 0) {
        366
    } else {
        365
    }
}

fn month_length(leap: bool, month: i64) -> (n: i64)
    ensures
        n == days_in_month(leap, month as int),
{
    if month == 2 {
        if leap {
            29
        } else {
            28
        }
    } else if month == 4 || month == 6 || month == 9 || month == 11 {
        30
    } else {
        31
    }
}

/// Appends the decimal digits of `n`.
fn push_decimal(out: &mut String, n: u64)
    ensures
        final(out)@ == old(out)@ + decimal(n as nat),
    decreases n,
{
    if n >= 10 {
        push_decimal(out, n / 10);
        push_char(out, (48u8 + (n % 10) as u8) as char);
        assert(final(out)@ =~= old(out)@ + decimal(n as nat));
    } else {
        push_char(out, (48u8 + n as u8) as char);
        assert(final(out)@ =~= old(out)@ + decimal(n as nat));
    }
}

/// Number of decimal digits of `n`.
fn decimal_len(n: u64) -> (len: usize)
    ensures
        len == decimal(n as nat).len(),
        len <= 20,
    decreases n,
{
    proof {
        reveal_with_fuel(pow10, 21);
        assert(pow10(20) == 100000000000000000000);
        lemma_decimal_len_pow10(n as nat, 20);
    }
    if n >= 10 {
        1 + decimal_len(n / 10)
    } else {
        1
    }
}

pub open spec fn pow10(k: nat) -> nat
    decreases k,
{
    if k == 0 {
        1
    } else {
        10 * pow10((k - 1) as nat)
    }
}

/// A number below `10^k` has at most `k` digits.
proof fn lemma_decimal_len_pow10(n: nat, k: nat)
    requires
        n < pow10(k),
        k >= 1,
    ensures
        decimal(n).len() <= k,
    decreases n,
{
    if n >= 10 {
        assert(k >= 2) by {
            if k == 1 {
                assert(pow10(1) == 10 * pow10(0));
            }
        }
        assert(pow10(k) == 10 * pow10((k - 1) as nat));
        assert(n / 10 < pow10((k - 1) as nat));
        lemma_decimal_len_pow10(n / 10, (k - 1) as nat);
    }
}

/// Appends `n` left-padded with zeros to `width` characters.
fn push_zero_padded(out: &mut String, n: u64, width: usize)
    ensures
        final(out)@ == old(out)@ + zero_padded(n as nat, width as nat),
{
    let len = decimal_len(n);
    let ghost start = out@;
    let mut k: usize = len;
    while k < width
        invariant
            len <= k <= width || (width < len && k == len),
            out@ == start + Seq::new((k - len) as nat, |i: int| '0'),
        decreases width - k,
    {
        push_char(out, '0');
        assert(out@ =~= start + Seq::new((k + 1 - len) as nat, |i: int| '0'));
        k += 1;
    }
    push_decimal(out, n);
    proof {
        if len < width {
            assert(k == width);
        } else {
            assert(Seq::new((k - len) as nat, |i: int| '0') =~= Seq::<char>::empty());
        }
        assert(out@ =~= start + zero_padded(n as nat, width as nat));
    }
}

/// Appends `x` with sign-aware zero padding to `width` characters.
fn push_signed_padded(out: &mut String, x: i64, width: usize)
    requires
        x > i64::MIN,
        width > 0,
    ensures
        final(out)@ == old(out)@ + signed_padded(x as int, width as nat),
{
    if x < 0 {
        let ghost start = out@;
        push_char(out, '-');
        push_zero_padded(out, (-x) as u64, width - 1);
        assert(out@ =~= start + signed_padded(x as int, width as nat));
    } else {
        push_zero_padded(out, x as u64, width);
    }
}

/// Formats a timestamp, in seconds since the Unix epoch, as the UTC date and
/// time `YYYY-MM-DD hh:mm` (each field zero-padded to its width; a year past
/// 9999 takes more digits).
///
/// The day count is carried in 32 bits, so from 2^31 days past the epoch on
/// it wraps around; a day count that wraps to a negative value leaves the
/// year at 1970 and the month at 1, and the day is printed as that negative
/// count plus one.
pub fn format_time(secs: u64) -> (r: String)
    ensures
        r@ == formatted_time(secs as int),
{
    let days: u64 = secs / 86400;
    let time_of_day: u64 = secs % 86400;
    let hours: u64 = time_of_day / 3600;
    let minutes: u64 = (time_of_day % 3600) / 60;

    let low: u64 = days % 0x1_0000_0000;
    let start: i64 = if low < 0x8000_0000 {
        low as i64
    } else {
        low as i64 - 0x1_0000_0000
    };
    assert(start == wrap_i32(days as int));

    let mut year: i64 = 1970;
    let mut remaining: i64 = start;
    while remaining >= year_length(year)
        invariant
            year_and_rest(year as int, remaining as int) == year_and_rest(1970, start as int),
            1970 <= year,
            (year - 1970) * 365 <= start - remaining,
            -0x8000_0000 <= start < 0x8000_0000,
            -0x8000_0000 <= remaining <= start,
        decreases remaining,
    {
        remaining = remaining - year_length(year);
        year = year + 1;
    }
    let leap = year % 4 == 0 && (year % 100 != 0 || year % 400 == 0);
    let ghost year_rest = remaining;
    let mut month: i64 = 1;
    while month <= 12 && remaining >= month_length(leap, month)
        invariant
            1 <= month <= 13,
            month_and_rest(leap, month as int, remaining as int) == month_and_rest(
                leap,
                1,
                year_rest as int,
            ),
            i64::MIN / 2 < remaining <= year_rest,
            year_rest < 0x8000_0000,
        decreases 13 - month,
    {
        remaining = remaining - month_length(leap, month);
        month = month + 1;
    }
    let day: i64 = remaining + 1;

    let mut out = String::new();
    push_signed_padded(&mut out, year, 4);
    push_char(&mut out, '-');
    push_signed_padded(&mut out, month, 2);
    push_char(&mut out, '-');
    push_signed_padded(&mut out, day, 2);
    push_char(&mut out, ' ');
    push_signed_padded(&mut out, hours as i64, 2);
    push_char(&mut out, ':');
    push_signed_padded(&mut out, minutes as i64, 2);
    out
}


/// Days from 1 January 1970 to 1 January of `year`.
pub open spec fn days_before_year(year: int) -> int
    decreases year - 1970,
{
    if year <= 1970 {
        0
    } else {
        days_before_year(year - 1) + days_in_year(year - 1)
    }
}

/// Days from 1 January to the first day of `month`.
pub open spec fn days_before_month(leap: bool, month: int) -> int
    decreases month,
{
    if month <= 1 {
        0
    } else {
        days_before_month(leap, month - 1) + days_in_month(leap, month - 1)
    }
}

proof fn lemma_year_and_rest(year: int, days: int)
    requires
        year >= 1970,
        days >= 0,
    ensures
        ({
            let (y, r) = year_and_rest(year, days);
            &&& y >= year
            &&& 0 <= r < days_in_year(y)
            &&& days_before_year(y) - days_before_year(year) + r == days
        }),
    decreases days,
{
    if days >= days_in_year(year) {
        lemma_year_and_rest(year + 1, days - days_in_year(year));
    }
}

proof fn lemma_months_fill_year(leap: bool)
    ensures
        days_before_month(leap, 13) == if leap { 366int } else { 365int },
{
    reveal_with_fuel(days_before_month, 13);
}

proof fn lemma_days_before_month_mono(leap: bool, a: int, b: int)
    requires
        1 <= a <= b,
    ensures
        days_before_month(leap, a) <= days_before_month(leap, b),
    decreases b - a,
{
    if a < b {
        lemma_days_before_month_mono(leap, a, b - 1);
    }
}

proof fn lemma_month_and_rest(leap: bool, month: int, days: int)
    requires
        1 <= month <= 12,
        0 <= days,
        days_before_month(leap, month) + days < days_before_month(leap, 13),
    ensures
        ({
            let (m, r) = month_and_rest(leap, month, days);
            &&& month <= m <= 12
            &&& 0 <= r < days_in_month(leap, m)
            &&& days_before_month(leap, m) - days_before_month(leap, month) + r == days
        }),
    decreases 13 - month,
{
    if days >= days_in_month(leap, month) {
        if month == 12 {
            assert(days_before_month(leap, 13) == days_before_month(leap, 12) + days_in_month(
                leap,
                12,
            ));
        }
        lemma_month_and_rest(leap, month + 1, days - days_in_month(leap, month));
    }
}

/// The printed fields are a valid calendar date and time of day, and they
/// name the timestamp back down to the minute: the date is the day
/// `secs / 86400` counted from 1970-01-01, and the time of day adds up to
/// `secs` less its odd seconds. This holds while the day count fits in 31
/// bits (until the year 5881580).
pub proof fn lemma_timestamp_fields_calendar(secs: nat)
    requires
        secs / 86400 < 0x8000_0000,
    ensures
        ({
            let (year, month, day, hour, minute) = timestamp_fields(secs as int);
            &&& year >= 1970
            &&& 1 <= month <= 12
            &&& 1 <= day <= days_in_month(is_leap_year(year), month)
            &&& 0 <= hour < 24
            &&& 0 <= minute < 60
            &&& days_before_year(year) + days_before_month(is_leap_year(year), month) + day - 1
                == secs / 86400
            &&& (secs / 86400) * 86400 + hour * 3600 + minute * 60 == secs - secs % 60
        }),
{
    let days = secs / 86400;
    assert(wrap_i32(days as int) == days);
    lemma_year_and_rest(1970, days as int);
    let (year, rest) = year_and_rest(1970, days as int);
    let leap = is_leap_year(year);
    lemma_months_fill_year(leap);
    assert(days_before_month(leap, 1) == 0);
    lemma_month_and_rest(leap, 1, rest);
    let tod = secs % 86400;
    assert(secs == days * 86400 + tod);
    assert(tod == (tod / 3600) * 3600 + tod % 3600);
    assert(tod % 3600 == ((tod % 3600) / 60) * 60 + (tod % 3600) % 60);
    assert(secs % 60 == (tod % 3600) % 60) by (nonlinear_arith)
        requires
            secs == days * 86400 + tod,
            tod == (tod / 3600) * 3600 + tod % 3600,
            tod % 3600 == ((tod % 3600) / 60) * 60 + (tod % 3600) % 60,
            0 <= (tod % 3600) % 60 < 60,
    ;
}

proof fn lemma_decimal_digits(n: nat)
    ensures
        forall|i: int|
            0 <= i < decimal(n).len() ==> '0' <= #[trigger] decimal(n)[i] <= '9',
    decreases n,
{
    if n >= 10 {
        lemma_decimal_digits(n / 10);
        lemma_digit_char((n % 10) as int);
        let p = decimal(n / 10);
        assert forall|i: int| 0 <= i < decimal(n).len() implies '0' <= #[trigger] decimal(n)[i]
            <= '9' by {
            if i < p.len() {
                assert(decimal(n)[i] == p[i]);
            }
        }
    } else {
        lemma_digit_char(n as int);
    }
}

proof fn lemma_digit_char(d: int)
    requires
        0 <= d < 10,
    ensures
        '0' <= digit_char(d) <= '9',
{
    assert((48 + d) as char as int == 48 + d);
}

/// A number below `10^width` pads to exactly `width` digits.
proof fn lemma_zero_padded_shape(n: nat, width: nat)
    requires
        1 <= width,
        n < pow10(width),
    ensures
        zero_padded(n, width).len() == width,
        forall|i: int|
            0 <= i < width ==> '0' <= #[trigger] zero_padded(n, width)[i] <= '9',
{
    lemma_decimal_len_pow10(n, width);
    lemma_decimal_digits(n);
    let ds = decimal(n);
    let z = zero_padded(n, width);
    assert forall|i: int| 0 <= i < width implies '0' <= #[trigger] z[i] <= '9' by {
        if ds.len() < width {
            if i >= width - ds.len() {
                assert(z[i] == ds[i - (width - ds.len())]);
            }
        }
    }
}

/// For years up to 9999 the text has the fixed shape `YYYY-MM-DD hh:mm`:
/// sixteen characters, digits everywhere but the separators.
pub proof fn lemma_formatted_time_shape(secs: nat)
    requires
        secs / 86400 < 0x8000_0000,
        timestamp_fields(secs as int).0 <= 9999,
    ensures
        formatted_time(secs as int).len() == 16,
        formatted_time(secs as int)[4] == '-',
        formatted_time(secs as int)[7] == '-',
        formatted_time(secs as int)[10] == ' ',
        formatted_time(secs as int)[13] == ':',
        forall|i: int|
            0 <= i < 16 && i != 4 && i != 7 && i != 10 && i != 13 ==> '0' <= #[trigger] formatted_time(
                secs as int,
            )[i] <= '9',
{
    lemma_timestamp_fields_calendar(secs);
    let (year, month, day, hour, minute) = timestamp_fields(secs as int);
    reveal_with_fuel(pow10, 5);
    lemma_zero_padded_shape(year as nat, 4);
    lemma_zero_padded_shape(month as nat, 2);
    lemma_zero_padded_shape(day as nat, 2);
    lemma_zero_padded_shape(hour as nat, 2);
    lemma_zero_padded_shape(minute as nat, 2);
    let t = formatted_time(secs as int);
    let y = zero_padded(year as nat, 4);
    let mo = zero_padded(month as nat, 2);
    let d = zero_padded(day as nat, 2);
    let h = zero_padded(hour as nat, 2);
    let mi = zero_padded(minute as nat, 2);
    assert(t =~= y + seq!['-'] + mo + seq!['-'] + d + seq![' '] + h + seq![':'] + mi);
    assert forall|i: int|
        0 <= i < 16 && i != 4 && i != 7 && i != 10 && i != 13 implies '0' <= #[trigger] t[i]
        <= '9' by {
        if i < 4 {
            assert(t[i] == y[i]);
        } else if i < 7 {
            assert(t[i] == mo[i - 5]);
        } else if i < 10 {
            assert(t[i] == d[i - 8]);
        } else if i < 13 {
            assert(t[i] == h[i - 11]);
        } else {
            assert(t[i] == mi[i - 14]);
        }
    }
}


/// The number a string of decimal digits spells, most significant first.
pub open spec fn decimal_value(ds: Seq<char>) -> int
    decreases ds.len(),
{
    if ds.len() == 0 {
        0
    } else {
        decimal_value(ds.drop_last()) * 10 + (ds.last() as int - 48)
    }
}

/// The printed digits of a number spell that number, are all decimal
/// digits, and start with a nonzero digit unless the number is 0.
pub proof fn lemma_decimal_spells_value(n: nat)
    ensures
        decimal_value(decimal(n)) == n,
        forall|i: int| 0 <= i < decimal(n).len() ==> '0' <= #[trigger] decimal(n)[i] <= '9',
        n > 0 ==> decimal(n)[0] != '0',
    decreases n,
{
    lemma_decimal_digits(n);
    if n >= 10 {
        lemma_decimal_spells_value(n / 10);
        let d = (n % 10) as int;
        assert((48 + d) as char as int == 48 + d);
        assert(decimal(n).drop_last() =~= decimal(n / 10));
        assert(decimal(n)[0] == decimal(n / 10)[0]);
        assert(decimal(n).last() == digit_char(d));
        assert(decimal_value(decimal(n)) == decimal_value(decimal(n / 10)) * 10 + d);
        assert(n == (n / 10) * 10 + n % 10);
    } else {
        assert((48 + n) as char as int == 48 + n);
        assert(decimal(n).drop_last() =~= Seq::<char>::empty());
        assert(decimal(n).last() == digit_char(n as int));
        assert(decimal_value(Seq::<char>::empty()) == 0);
        assert(decimal_value(decimal(n)) == decimal_value(Seq::<char>::empty()) * 10 + n);
    }
}

/// Leap years from year 1 up to, not including, `year`: one every four
/// years, less the centuries, plus every fourth century.
pub open spec fn leap_years_before(year: int) -> int {
    (year - 1) / 4 - (year - 1) / 100 + (year - 1) / 400
}

proof fn lemma_leap_count_step(year: int)
    requires
        year >= 1970,
    ensures
        leap_years_before(year + 1) - leap_years_before(year) == days_in_year(year) - 365,
{
    let y = year;
    assert(y / 4 - (y - 1) / 4 == if y % 4 == 0 { 1int } else { 0int });
    assert(y / 100 - (y - 1) / 100 == if y % 100 == 0 { 1int } else { 0int });
    assert(y / 400 - (y - 1) / 400 == if y % 400 == 0 { 1int } else { 0int });
    if y % 400 == 0 {
        assert(y % 100 == 0 && y % 4 == 0);
    }
    if y % 100 == 0 {
        assert(y % 4 == 0);
    }
}

/// The days before a year are 365 for each year since 1970 plus one for
/// each leap year among them, counted by the Gregorian rule.
pub proof fn lemma_days_before_year_closed_form(year: int)
    requires
        year >= 1970,
    ensures
        days_before_year(year) == 365 * (year - 1970) + leap_years_before(year)
            - leap_years_before(1970),
    decreases year - 1970,
{
    if year > 1970 {
        lemma_days_before_year_closed_form(year - 1);
        lemma_leap_count_step(year - 1);
    }
}

/// Month lengths of the Gregorian calendar, January first.
pub open spec fn month_length_table(leap: bool) -> Seq<int> {
    seq![31, if leap { 29 } else { 28 }, 31, 30, 31, 30, 31, 31, 30, 31, 30, 31]
}

/// Days before the first of each month, January first.
pub open spec fn month_start_table(leap: bool) -> Seq<int> {
    if leap {
        seq![0, 31, 60, 91, 121, 152, 182, 213, 244, 274, 305, 335]
    } else {
        seq![0, 31, 59, 90, 120, 151, 181, 212, 243, 273, 304, 334]
    }
}

/// The month lengths used are the Gregorian ones, and so are the days before
/// each month.
pub proof fn lemma_gregorian_months(leap: bool, month: int)
    requires
        1 <= month <= 12,
    ensures
        days_in_month(leap, month) == month_length_table(leap)[month - 1],
        days_before_month(leap, month) == month_start_table(leap)[month - 1],
{
    reveal_with_fuel(days_before_month, 13);
}

/// The printed date is the calendar date of day `secs / 86400` after
/// 1970-01-01, by the Gregorian rules written out: the year's days before it
/// are 365 a year plus one per leap year (every fourth year, less centuries,
/// plus every fourth century), the month's days before it come from the
/// month table, and the day falls within its month's length.
pub proof fn lemma_timestamp_is_calendar_date(secs: nat)
    requires
        secs / 86400 < 0x8000_0000,
    ensures
        ({
            let (year, month, day, hour, minute) = timestamp_fields(secs as int);
            let leap = leap_years_before(year + 1) - leap_years_before(year) == 1;
            &&& year >= 1970
            &&& 1 <= month <= 12
            &&& 1 <= day <= month_length_table(leap)[month - 1]
            &&& 365 * (year - 1970) + leap_years_before(year) - leap_years_before(1970)
                + month_start_table(leap)[month - 1] + day - 1 == secs / 86400
        }),
{
    lemma_timestamp_fields_calendar(secs);
    let (year, month, day, hour, minute) = timestamp_fields(secs as int);
    lemma_leap_count_step(year);
    lemma_days_before_year_closed_form(year);
    lemma_gregorian_months(is_leap_year(year), month);
}

} // verus!
