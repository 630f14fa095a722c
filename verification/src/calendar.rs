//! Proleptic Gregorian calendar dates counted from 1970-01-01, and their
//! `YYYY-MM-DD` notation.
use vstd::prelude::*;
use crate::decimal::{
    all_digits, decimal, decimal_chars, digits_value, is_digit, pad_zeros, zero_padded,
};
use crate::text::{string_of, chars_of};

verus! {

pub open spec fn is_leap_year(y: int) -> bool {
    y % 4 == 0 && (y % 100 != 0 || y % 400 == 0)
}

pub open spec fn year_length(y: int) -> nat {
    if is_leap_year(y) {
        366
    } else {
        365
    }
}

pub open spec fn month_length(y: int, m: int) -> nat {
    if m == 2 {
        if is_leap_year(y) {
            29
        } else {
            28
        }
    } else if m == 4 || m == 6 || m == 9 || m == 11 {
        30
    } else {
        31
    }
}

/// Days from 1970-01-01 to January 1st of year `y` (`y >= 1970`).
pub open spec fn days_before_year(y: int) -> nat
    decreases y - 1970,
{
    if y <= 1970 {
        0
    } else {
        days_before_year(y - 1) + year_length(y - 1)
    }
}

/// Days from January 1st to the first day of month `m` of year `y`.
pub open spec fn days_before_month(y: int, m: int) -> nat
    decreases m,
{
    if m <= 1 {
        0
    } else {
        days_before_month(y, m - 1) + month_length(y, m - 1)
    }
}

/// A calendar date on or after 1970-01-01.
pub open spec fn is_valid_date(y: int, m: int, d: int) -> bool {
    y >= 1970 && 1 <= m <= 12 && 1 <= d <= month_length(y, m)
}

/// The number of days from 1970-01-01 to the date.
pub open spec fn day_number(y: int, m: int, d: int) -> int {
    days_before_year(y) + days_before_month(y, m) + d - 1
}

/// `YYYY-MM-DD`: each field zero-padded as `{:04}-{:02}-{:02}` prints it.
pub open spec fn date_text(y: nat, m: nat, d: nat) -> Seq<char> {
    zero_padded(decimal(y), 4) + seq!['-'] + zero_padded(decimal(m), 2) + seq!['-']
        + zero_padded(decimal(d), 2)
}

/// `s` is the notation of some valid date.
pub open spec fn is_date_text(s: Seq<char>) -> bool {
    exists|y: nat, m: nat, d: nat| is_valid_date(y as int, m as int, d as int) && s == #[trigger] date_text(y, m, d)
}

/// The fields of a `YYYY-MM-DD` text, when it has that shape.
pub open spec fn date_fields(s: Seq<char>) -> Option<(nat, nat, nat)> {
    if s.len() == 10 && s[4] == '-' && s[7] == '-' && all_digits(s.take(4)) && all_digits(
        s.subrange(5, 7),
    ) && all_digits(s.skip(8)) {
        Some((digits_value(s.take(4)), digits_value(s.subrange(5, 7)), digits_value(s.skip(8))))
    } else {
        None
    }
}

/// The day number that a `YYYY-MM-DD` text denotes, if it is a valid date.
pub open spec fn day_of_text(s: Seq<char>) -> Option<nat> {
    match date_fields(s) {
        Some((y, m, d)) => if is_valid_date(y as int, m as int, d as int) {
            Some(day_number(y as int, m as int, d as int) as nat)
        } else {
            None
        },
        None => None,
    }
}

// ---------------------------------------------------------------------------
// Facts
// ---------------------------------------------------------------------------

pub proof fn lemma_year_in_months(y: int)
    ensures
        days_before_month(y, 13) == year_length(y),
{
    reveal_with_fuel(days_before_month, 13);
}

/// The days before month `m` follow the arithmetic rule of the Gregorian
/// calendar, independent of any month table: none before January, 31 before
/// February, and from March on `(153 * (m - 3) + 2) / 5 + 59`, plus one in a
/// leap year.
pub proof fn lemma_days_before_month_formula(y: int, m: int)
    requires
        1 <= m <= 12,
    ensures
        days_before_month(y, m) == if m == 1 {
            0
        } else if m == 2 {
            31
        } else {
            (153 * (m - 3) + 2) / 5 + 59 + if is_leap_year(y) {
                1int
            } else {
                0int
            }
        },
{
    assert(days_before_month(y, 1) == 0);
    assert(days_before_month(y, 2) == days_before_month(y, 1) + month_length(y, 1));
    assert(days_before_month(y, 3) == days_before_month(y, 2) + month_length(y, 2));
    assert(days_before_month(y, 4) == days_before_month(y, 3) + month_length(y, 3));
    assert(days_before_month(y, 5) == days_before_month(y, 4) + month_length(y, 4));
    assert(days_before_month(y, 6) == days_before_month(y, 5) + month_length(y, 5));
    assert(days_before_month(y, 7) == days_before_month(y, 6) + month_length(y, 6));
    assert(days_before_month(y, 8) == days_before_month(y, 7) + month_length(y, 7));
    assert(days_before_month(y, 9) == days_before_month(y, 8) + month_length(y, 8));
    assert(days_before_month(y, 10) == days_before_month(y, 9) + month_length(y, 9));
    assert(days_before_month(y, 11) == days_before_month(y, 10) + month_length(y, 10));
    assert(days_before_month(y, 12) == days_before_month(y, 11) + month_length(y, 11));
    if m >= 3 {
        assert((153 * (m - 3) + 2) / 5 + 59 == days_before_month(y, m) - (if is_leap_year(y) {
            1int
        } else {
            0int
        })) by {
            if m == 3 {} else if m == 4 {} else if m == 5 {} else if m == 6 {} else if m == 7 {
            } else if m == 8 {} else if m == 9 {} else if m == 10 {} else if m == 11 {} else {}
        }
    }
}

proof fn lemma_leap_step(n: int)
    requires
        n >= 1,
    ensures
        n / 4 - (n - 1) / 4 - (n / 100 - (n - 1) / 100) + (n / 400 - (n - 1) / 400) == if is_leap_year(
            n,
        ) {
            1int
        } else {
            0int
        },
{
    assert(n / 4 - (n - 1) / 4 == if n % 4 == 0 {
        1int
    } else {
        0int
    });
    assert(n / 100 - (n - 1) / 100 == if n % 100 == 0 {
        1int
    } else {
        0int
    });
    assert(n / 400 - (n - 1) / 400 == if n % 400 == 0 {
        1int
    } else {
        0int
    });
    if n % 400 == 0 {
        assert(n % 100 == 0);
        assert(n % 4 == 0);
    } else if n % 100 == 0 {
        assert(n % 4 == 0);
    }
}

/// The days before a year follow the arithmetic rule of the Gregorian
/// calendar, independent of how leap years are tested: 365 a year since
/// 1970, plus one for each year before `y` divisible by 4, less one for each
/// divisible by 100, plus one for each divisible by 400, counted from 1970.
pub proof fn lemma_days_before_year_formula(y: int)
    requires
        y >= 1970,
    ensures
        days_before_year(y) == 365 * (y - 1970) + (y - 1) / 4 - (y - 1) / 100 + (y - 1) / 400 - 477,
    decreases y - 1970,
{
    if y > 1970 {
        lemma_days_before_year_formula(y - 1);
        lemma_leap_step(y - 1);
    }
}

proof fn lemma_years_increase(a: int, b: int)
    requires
        1970 <= a < b,
    ensures
        days_before_year(a) + year_length(a) <= days_before_year(b),
    decreases b - a,
{
    if b > a + 1 {
        lemma_years_increase(a, b - 1);
    }
}

proof fn lemma_months_increase(y: int, a: int, b: int)
    requires
        1 <= a < b,
    ensures
        days_before_month(y, a) + month_length(y, a) <= days_before_month(y, b),
    decreases b - a,
{
    if b > a + 1 {
        lemma_months_increase(y, a, b - 1);
    }
}

proof fn lemma_day_within_year(y: int, m: int, d: int)
    requires
        is_valid_date(y, m, d),
    ensures
        days_before_month(y, m) + d - 1 < year_length(y),
{
    lemma_year_in_months(y);
    if m < 12 {
        lemma_months_increase(y, m, 13);
    }
}

/// Two valid dates with the same day number are the same date: a day number
/// names at most one date.
pub proof fn lemma_day_number_injective(y1: int, m1: int, d1: int, y2: int, m2: int, d2: int)
    requires
        is_valid_date(y1, m1, d1),
        is_valid_date(y2, m2, d2),
        day_number(y1, m1, d1) == day_number(y2, m2, d2),
    ensures
        y1 == y2 && m1 == m2 && d1 == d2,
{
    lemma_day_within_year(y1, m1, d1);
    lemma_day_within_year(y2, m2, d2);
    if y1 < y2 {
        lemma_years_increase(y1, y2);
    } else if y2 < y1 {
        lemma_years_increase(y2, y1);
    }
    assert(y1 == y2);
    if m1 < m2 {
        lemma_months_increase(y1, m1, m2);
    } else if m2 < m1 {
        lemma_months_increase(y1, m2, m1);
    }
}

// ---------------------------------------------------------------------------
// Computation
// ---------------------------------------------------------------------------

/// Whether `y` is a leap year of the Gregorian calendar.
pub fn is_leap(y: u64) -> (r: bool)
    ensures
        r == is_leap_year(y as int),
{
    y % 4 == 0 && (y % 100 != 0 || y % 400 == 0)
}

fn year_len(y: u64) -> (r: u64)
    ensures
        r == year_length(y as int),
{
    if is_leap(y) {
        366
    } else {
        365
    }
}

fn month_len(y: u64, m: u64) -> (r: u64)
    ensures
        r == month_length(y as int, m as int),
{
    if m == 2 {
        if is_leap(y) {
            29
        } else {
            28
        }
    } else if m == 4 || m == 6 || m == 9 || m == 11 {
        30
    } else {
        31
    }
}

/// The calendar date `(year, month, day)` that lies `days` days after
/// 1970-01-01.
pub fn civil_from_days(days: u64) -> (r: (u64, u64, u64))
    ensures
        is_valid_date(r.0 as int, r.1 as int, r.2 as int),
        day_number(r.0 as int, r.1 as int, r.2 as int) == days,
{
    let mut y: u64 = 1970;
    let mut rem: u64 = days;
    while rem >= year_len(y)
        invariant
            1970 <= y,
            rem <= days,
            days_before_year(y as int) + rem == days,
            (y - 1970) * 365 <= days - rem,
        decreases rem,
    {
        rem = rem - year_len(y);
        assert(days_before_year(y + 1) == days_before_year(y as int) + year_length(y as int));
        y = y + 1;
    }
    let ghost rem0 = rem;
    proof {
        lemma_year_in_months(y as int);
    }
    let mut m: u64 = 1;
    while rem >= month_len(y, m)
        invariant
            1 <= m <= 12,
            rem <= rem0,
            rem0 < year_length(y as int),
            days_before_month(y as int, 13) == year_length(y as int),
            days_before_month(y as int, m as int) + rem == rem0,
        decreases rem,
    {
        if m == 12 {
            assert(days_before_month(y as int, 13) == days_before_month(y as int, 12)
                + month_length(y as int, 12));
            assert(false);
        }
        rem = rem - month_len(y, m);
        assert(days_before_month(y as int, m + 1) == days_before_month(y as int, m as int)
            + month_length(y as int, m as int));
        m = m + 1;
    }
    (y, m, rem + 1)
}

/// The `YYYY-MM-DD` notation of a date.
pub fn format_date(y: u64, m: u64, d: u64) -> (r: String)
    ensures
        r@ == date_text(y as nat, m as nat, d as nat),
{
    let mut out = pad_zeros(decimal_chars(y), 4);
    out.push('-');
    let mc = pad_zeros(decimal_chars(m), 2);
    crate::text::extend_chars(&mut out, mc.as_slice());
    out.push('-');
    let dc = pad_zeros(decimal_chars(d), 2);
    crate::text::extend_chars(&mut out, dc.as_slice());
    let r = string_of(out.as_slice());
    assert(r@ =~= date_text(y as nat, m as nat, d as nat));
    r
}

/// The `YYYY-MM-DD` notation of the date `days` days after 1970-01-01.
pub fn date_of_day(days: u64) -> (r: String)
    ensures
        exists|y: u64, m: u64, d: u64|
            is_valid_date(y as int, m as int, d as int) && day_number(y as int, m as int, d as int)
                == days && r@ == #[trigger] date_text(y as nat, m as nat, d as nat),
{
    let (y, m, d) = civil_from_days(days);
    format_date(y, m, d)
}

/// The system clock's time, `std::time::SystemTime`.
#[verifier::external_type_specification]
#[verifier::external_body]
pub struct ExSystemTime(std::time::SystemTime);

/// Calls `SystemTime::now`: what the clock reads is not stated.
#[verifier::external_body]
fn system_now() -> std::time::SystemTime {
    std::time::SystemTime::now()
}

/// What `SystemTime::duration_since(UNIX_EPOCH)` gives for a time: the
/// duration since 1970-01-01T00:00:00Z, or `None` (its `Err`) when the time
/// is earlier.  It depends on the time alone.
pub uninterp spec fn epoch_duration(t: std::time::SystemTime) -> Option<std::time::Duration>;

/// What `Duration::as_secs` gives for a duration: its whole seconds.
pub uninterp spec fn duration_secs(d: std::time::Duration) -> u64;

/// Calls `SystemTime::duration_since(UNIX_EPOCH)`, mapping its `Err` (the
/// time is earlier than the epoch) to `None`.
#[verifier::external_body]
fn since_epoch(t: &std::time::SystemTime) -> (r: Option<std::time::Duration>)
    ensures
        r == epoch_duration(*t),
{
    match t.duration_since(std::time::UNIX_EPOCH) {
        Ok(d) => Some(d),
        Err(_) => None,
    }
}

/// Calls `Duration::as_secs`, the whole seconds of a duration.
#[verifier::external_body]
fn whole_seconds(d: &std::time::Duration) -> (r: u64)
    ensures
        r == duration_secs(*d),
{
    d.as_secs()
}

/// The whole seconds from 1970-01-01T00:00:00Z to the time `t`, 0 for a
/// time before it.
pub open spec fn clock_seconds(t: std::time::SystemTime) -> u64 {
    match epoch_duration(t) {
        Some(d) => duration_secs(d),
        None => 0,
    }
}

/// Whole seconds elapsed since 1970-01-01T00:00:00Z on the system clock, 0
/// when the clock reads earlier: the clock is read once, and the result is
/// `clock_seconds` of the time it read.
fn seconds_since_epoch() -> (r: u64)
    ensures
        exists|t: std::time::SystemTime| r == #[trigger] clock_seconds(t),
{
    let now = system_now();
    let r = match since_epoch(&now) {
        Some(d) => whole_seconds(&d),
        None => 0,
    };
    assert(r == clock_seconds(now));
    r
}

/// `s` is the `YYYY-MM-DD` notation of the date lying `days` days after
/// 1970-01-01.
pub open spec fn names_day(s: Seq<char>, days: int) -> bool {
    exists|y: nat, m: nat, d: nat|
        is_valid_date(y as int, m as int, d as int) && day_number(y as int, m as int, d as int)
            == days && s == #[trigger] date_text(y, m, d)
}

/// A day names exactly one date text: two texts that both name day `days`
/// are the same text.
pub proof fn lemma_names_day_unique(s1: Seq<char>, s2: Seq<char>, days: int)
    requires
        names_day(s1, days),
        names_day(s2, days),
    ensures
        s1 == s2,
{
    let (y1, m1, d1) = choose|y: nat, m: nat, d: nat|
        is_valid_date(y as int, m as int, d as int) && day_number(y as int, m as int, d as int)
            == days && s1 == #[trigger] date_text(y, m, d);
    let (y2, m2, d2) = choose|y: nat, m: nat, d: nat|
        is_valid_date(y as int, m as int, d as int) && day_number(y as int, m as int, d as int)
            == days && s2 == #[trigger] date_text(y, m, d);
    lemma_day_number_injective(y1 as int, m1 as int, d1 as int, y2 as int, m2 as int, d2 as int);
}

/// Today's date (UTC) as `YYYY-MM-DD`: the clock is read once, and the
/// result is the date of the day `clock_seconds / 86400` of the time it read
/// (a clock set before 1970 reads as 1970-01-01).
pub fn today() -> (r: String)
    ensures
        is_date_text(r@),
        exists|t: std::time::SystemTime| names_day(r@, #[trigger] clock_seconds(t) as int / 86400),
{
    let secs = seconds_since_epoch();
    let (y, m, d) = civil_from_days(secs / 86400);
    let r = format_date(y, m, d);
    assert(is_valid_date(y as nat as int, m as nat as int, d as nat as int));
    assert(r@ == date_text(y as nat, m as nat, d as nat));
    proof {
        let t = choose|t: std::time::SystemTime| secs == #[trigger] clock_seconds(t);
        assert(names_day(r@, clock_seconds(t) as int / 86400));
    }
    r
}

/// Today's day number (UTC) counted from 1970-01-01; a clock set before
/// 1970 reads as day 0.
pub fn today_day() -> (r: u64)
    ensures
        r <= u64::MAX / 86400,
        exists|t: std::time::SystemTime| r == #[trigger] clock_seconds(t) / 86400,
{
    let secs = seconds_since_epoch();
    proof {
        let t = choose|t: std::time::SystemTime| secs == #[trigger] clock_seconds(t);
        assert(secs / 86400 == clock_seconds(t) / 86400);
    }
    secs / 86400
}

// ---------------------------------------------------------------------------
// Reading a date back
// ---------------------------------------------------------------------------

pub open spec fn pow10(k: nat) -> nat
    decreases k,
{
    if k == 0 {
        1
    } else {
        10 * pow10((k - 1) as nat)
    }
}

proof fn lemma_digits_value_bound(s: Seq<char>)
    requires
        all_digits(s),
    ensures
        digits_value(s) < pow10(s.len()),
    decreases s.len(),
{
    if s.len() > 0 {
        assert(all_digits(s.drop_last())) by {
            assert forall|i: int| 0 <= i < s.drop_last().len() implies is_digit(
                #[trigger] s.drop_last()[i],
            ) by {
                assert(s.drop_last()[i] == s[i]);
            }
        }
        lemma_digits_value_bound(s.drop_last());
        assert(is_digit(s[s.len() - 1]));
        assert(pow10(s.len()) == 10 * pow10((s.len() - 1) as nat));
    }
}

proof fn lemma_zeros_then_digits(z: nat, s: Seq<char>)
    requires
        all_digits(s),
    ensures
        all_digits(Seq::new(z, |i: int| '0') + s),
        digits_value(Seq::new(z, |i: int| '0') + s) == digits_value(s),
    decreases s.len(),
{
    let t = Seq::new(z, |i: int| '0') + s;
    assert forall|i: int| 0 <= i < t.len() implies is_digit(#[trigger] t[i]) by {
        if i >= z {
            assert(t[i] == s[i - z]);
        }
    }
    if s.len() == 0 {
        lemma_zeros_value(z);
        assert(t =~= Seq::new(z, |i: int| '0'));
    } else {
        assert(all_digits(s.drop_last())) by {
            assert forall|i: int| 0 <= i < s.drop_last().len() implies is_digit(
                #[trigger] s.drop_last()[i],
            ) by {
                assert(s.drop_last()[i] == s[i]);
            }
        }
        lemma_zeros_then_digits(z, s.drop_last());
        assert(t.drop_last() =~= Seq::new(z, |i: int| '0') + s.drop_last());
    }
}

proof fn lemma_zeros_value(z: nat)
    ensures
        digits_value(Seq::new(z, |i: int| '0')) == 0,
    decreases z,
{
    if z > 0 {
        lemma_zeros_value((z - 1) as nat);
        assert(Seq::new(z, |i: int| '0').drop_last() =~= Seq::new((z - 1) as nat, |i: int| '0'));
    }
}

proof fn lemma_padded_field(n: nat, w: nat)
    requires
        w >= 1,
        n < pow10(w),
        w <= 4,
    ensures
        zero_padded(decimal(n), w).len() == w,
        all_digits(zero_padded(decimal(n), w)),
        digits_value(zero_padded(decimal(n), w)) == n,
{
    crate::decimal::lemma_decimal_digits(n);
    lemma_decimal_length(n, w);
    let s = decimal(n);
    if s.len() < w {
        lemma_zeros_then_digits((w - s.len()) as nat, s);
    }
}

proof fn lemma_decimal_length(n: nat, w: nat)
    requires
        w >= 1,
        n < pow10(w),
    ensures
        decimal(n).len() <= w,
    decreases w,
{
    if n >= 10 {
        assert(w >= 2) by {
            if w == 1 {
                assert(pow10(1) == 10 * pow10(0));
            }
        }
        assert(pow10(w) == 10 * pow10((w - 1) as nat));
        lemma_decimal_length(n / 10, (w - 1) as nat);
    }
}

proof fn lemma_four_digit_year(y: nat)
    requires
        1000 <= y < 10000,
    ensures
        decimal(y).len() == 4,
{
    reveal_with_fuel(decimal, 5);
    assert(decimal(y).len() == decimal(y / 10).len() + 1);
    assert(decimal(y / 10).len() == decimal(y / 100).len() + 1);
    assert(decimal(y / 100).len() == decimal(y / 1000).len() + 1);
}

/// Reading the notation of a date gives back its day number: for every
/// valid date up to year 9999, `day_of_text(date_text(..))` is its day
/// number.
pub proof fn lemma_date_text_roundtrip(y: nat, m: nat, d: nat)
    requires
        is_valid_date(y as int, m as int, d as int),
        y <= 9999,
    ensures
        day_of_text(date_text(y, m, d)) == Some(day_number(y as int, m as int, d as int) as nat),
{
    reveal_with_fuel(pow10, 5);
    lemma_four_digit_year(y);
    lemma_padded_field(y, 4);
    lemma_padded_field(m, 2);
    lemma_padded_field(d, 2);
    let a = zero_padded(decimal(y), 4);
    let b = zero_padded(decimal(m), 2);
    let c = zero_padded(decimal(d), 2);
    let t = date_text(y, m, d);
    assert(t.take(4) =~= a);
    assert(t.subrange(5, 7) =~= b);
    assert(t.skip(8) =~= c);
    assert(t[4] == '-');
    assert(t[7] == '-');
}

fn field_value(cs: &[char], from: usize, to: usize) -> (r: Option<u64>)
    requires
        from <= to <= cs@.len(),
        to - from <= 4,
    ensures
        r is Some <==> all_digits(cs@.subrange(from as int, to as int)),
        r matches Some(v) ==> v == digits_value(cs@.subrange(from as int, to as int)) && v < 10000,
{
    let ghost s = cs@.subrange(from as int, to as int);
    let mut acc: u64 = 0;
    let mut i: usize = from;
    while i < to
        invariant
            from <= i <= to <= cs@.len(),
            to - from <= 4,
            s == cs@.subrange(from as int, to as int),
            forall|k: int| 0 <= k < i - from ==> is_digit(#[trigger] s[k]),
            acc == digits_value(s.take(i - from)),
            acc < pow10((i - from) as nat),
            pow10((i - from) as nat) <= 10000,
        decreases to - i,
    {
        let c = cs[i];
        assert(s[i - from] == c);
        if !(c >= '0' && c <= '9') {
            assert(!all_digits(s));
            return None;
        }
        let dv = (c as u32 - 48) as u64;
        assert(s.take(i - from + 1).drop_last() =~= s.take(i - from));
        assert(pow10((i - from + 1) as nat) == 10 * pow10((i - from) as nat));
        assert(i - from + 1 <= 4);
        proof {
            reveal_with_fuel(pow10, 5);
        }
        assert(pow10((i - from + 1) as nat) <= 10000) by {
            reveal_with_fuel(pow10, 5);
        }
        acc = acc * 10 + dv;
        i = i + 1;
    }
    assert(s.take(to - from) =~= s);
    Some(acc)
}

fn days_before(y: u64, m: u64) -> (r: u64)
    requires
        1970 <= y <= 9999,
        1 <= m <= 12,
    ensures
        r == days_before_year(y as int) + days_before_month(y as int, m as int),
        r <= 3_000_000,
{
    let mut total: u64 = 0;
    let mut k: u64 = 1970;
    while k < y
        invariant
            1970 <= k <= y <= 9999,
            total == days_before_year(k as int),
            total <= (k - 1970) * 366,
        decreases y - k,
    {
        total = total + year_len(k);
        k = k + 1;
    }
    let mut j: u64 = 1;
    let ghost base = total;
    while j < m
        invariant
            1 <= j <= m <= 12,
            base <= 8029 * 366,
            total == base + days_before_month(y as int, j as int),
            days_before_month(y as int, j as int) <= (j - 1) * 31,
        decreases m - j,
    {
        total = total + month_len(y, j);
        j = j + 1;
    }
    total
}

/// The day number of a `YYYY-MM-DD` date, counted from 1970-01-01; `None`
/// when the text is not of that shape or names no valid date.
pub fn day_of_date(text: &str) -> (r: Option<u64>)
    ensures
        r matches Some(n) ==> day_of_text(text@) == Some(n as nat),
        r is None ==> day_of_text(text@) is None,
{
    let cs = chars_of(text);
    if cs.len() != 10 || cs[4] != '-' || cs[7] != '-' {
        return None;
    }
    let ys = field_value(cs.as_slice(), 0, 4);
    let ms = field_value(cs.as_slice(), 5, 7);
    let ds = field_value(cs.as_slice(), 8, 10);
    assert(cs@.subrange(0, 4) =~= cs@.take(4));
    assert(cs@.subrange(8, 10) =~= cs@.skip(8));
    match (ys, ms, ds) {
        (Some(y), Some(m), Some(d)) => {
            if y < 1970 || m < 1 || m > 12 || d < 1 || d > month_len(y, m) {
                return None;
            }
            let before = days_before(y, m);
            Some(before + d - 1)
        },
        _ => None,
    }
}

} // verus!
