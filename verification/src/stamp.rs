//! Numbers as text, and the UTC moment a minted file name starts with.

use vstd::prelude::*;

use crate::text::push_char;

verus! {

// ---------------------------------------------------------------------------------------------
// Digits
// ---------------------------------------------------------------------------------------------

/// The digit for `d` in bases up to sixteen, lower-case past nine (as `{:x}` writes them).
pub open spec fn digit_char(d: int) -> char {
    if d < 10 {
        (48 + d) as char
    } else {
        (87 + d) as char
    }
}

/// `n` written in `base`, most significant digit first, with no leading zeros (`0` is `"0"`).
pub open spec fn in_base(n: nat, base: nat) -> Seq<char>
    decreases n,
{
    if base < 2 || n < base {
        seq![digit_char(n as int)]
    } else {
        proof {
            assert(n / base < n) by (nonlinear_arith)
                requires
                    base >= 2,
                    n >= base,
            ;
        }
        in_base(n / base, base).push(digit_char((n % base) as int))
    }
}

/// `s` padded on the left with `'0'` to at least `width` characters, as `{:0w}` pads.
pub open spec fn zero_padded(s: Seq<char>, width: nat) -> Seq<char> {
    if s.len() < width {
        Seq::new((width - s.len()) as nat, |i: int| '0') + s
    } else {
        s
    }
}

/// `n` in decimal.
pub open spec fn decimal(n: nat) -> Seq<char> {
    in_base(n, 10)
}

/// `n` in octal, as `{:o}` writes it.
pub open spec fn octal(n: nat) -> Seq<char> {
    in_base(n, 8)
}

fn digit(d: u64) -> (c: char)
    requires
        d < 16,
    ensures
        c == digit_char(d as int),
{
    if d < 10 {
        ((48 + d) as u8) as char
    } else {
        ((87 + d) as u8) as char
    }
}

fn digits(n: u64, base: u64) -> (v: Vec<char>)
    requires
        2 <= base <= 16,
    ensures
        v@ == in_base(n as nat, base as nat),
    decreases n,
{
    if n < base {
        let mut v = Vec::new();
        v.push(digit(n));
        v
    } else {
        assert(n / base < n) by (nonlinear_arith)
            requires
                base >= 2,
                n >= base,
        ;
        let mut v = digits(n / base, base);
        v.push(digit(n % base));
        v
    }
}

/// Append `n` written in `base`, padded with `'0'` to at least `width` characters.
pub fn push_number(out: &mut String, n: u64, base: u64, width: usize)
    requires
        2 <= base <= 16,
    ensures
        final(out)@ == old(out)@ + zero_padded(in_base(n as nat, base as nat), width as nat),
{
    let v = digits(n, base);
    let ghost start = out@;
    let mut pad: usize = 0;
    let fill: usize = if v.len() < width {
        width - v.len()
    } else {
        0
    };
    while pad < fill
        invariant
            pad <= fill,
            out@ == start + Seq::new(pad as nat, |i: int| '0'),
        decreases fill - pad,
    {
        push_char(out, '0');
        pad = pad + 1;
        assert(out@ =~= start + Seq::new(pad as nat, |i: int| '0'));
    }
    let ghost padded = out@;
    let mut i: usize = 0;
    while i < v.len()
        invariant
            i <= v@.len(),
            out@ == padded + v@.subrange(0, i as int),
        decreases v@.len() - i,
    {
        push_char(out, v[i]);
        i = i + 1;
    }
    assert(v@.subrange(0, v@.len() as int) =~= v@);
    if v.len() < width {
        assert(out@ =~= start + zero_padded(v@, width as nat));
    } else {
        assert(Seq::new(0nat, |i: int| '0') =~= Seq::<char>::empty());
        assert(out@ =~= start + zero_padded(v@, width as nat));
    }
}

// ---------------------------------------------------------------------------------------------
// The UTC moment
// ---------------------------------------------------------------------------------------------

/// The year of the era (counted from 1 March) for a day of a 400-year era.
pub open spec fn year_of_era(doe: int) -> int {
    (doe - doe / 1460 + doe / 36524 - doe / 146096) / 365
}

/// The day of that year, counted from 1 March.
pub open spec fn day_of_year(doe: int) -> int {
    let yoe = year_of_era(doe);
    doe - (365 * yoe + yoe / 4 - yoe / 100)
}

proof fn lemma_day_of_year_bounds(doe: int)
    requires
        0 <= doe < 146097,
    ensures
        0 <= year_of_era(doe) <= 399,
        0 <= day_of_year(doe) <= 365,
{
    let q1 = doe / 1460;
    let q2 = doe / 36524;
    let q3 = doe / 146096;
    let n = doe - q1 + q2 - q3;
    let yoe = n / 365;
    let q5 = yoe / 4;
    let q6 = yoe / 100;
    assert(0 <= yoe <= 399) by (nonlinear_arith)
        requires
            0 <= doe < 146097,
            q1 == doe / 1460,
            q2 == doe / 36524,
            q3 == doe / 146096,
            n == doe - q1 + q2 - q3,
            yoe == n / 365,
    ;
    assert(0 <= doe - (365 * yoe + q5 - q6) <= 365) by (nonlinear_arith)
        requires
            0 <= doe < 146097,
            q1 == doe / 1460,
            q2 == doe / 36524,
            q3 == doe / 146096,
            n == doe - q1 + q2 - q3,
            yoe == n / 365,
            q5 == yoe / 4,
            q6 == yoe / 100,
    ;
}

/// The civil date (year, month, day) of the day `days` after 1970-01-01, by the standard
/// days-to-date conversion over 400-year eras counted from 1 March.
pub open spec fn civil_date(days: int) -> (int, int, int) {
    let z = days + 719468;
    let era = z / 146097;
    let doe = z % 146097;
    let yoe = year_of_era(doe);
    let doy = day_of_year(doe);
    let mp = (5 * doy + 2) / 153;
    let d = doy - (153 * mp + 2) / 5 + 1;
    let mo = if mp < 10 {
        mp + 3
    } else {
        mp - 9
    };
    let y = yoe + era * 400 + if mo <= 2 {
        1int
    } else {
        0
    };
    (y, mo, d)
}

/// `yyyymmdd-hhmmss` for the moment `secs` seconds after the epoch, in UTC.
pub open spec fn stamp_text(secs: nat) -> Seq<char> {
    let (y, mo, d) = civil_date((secs / 86400) as int);
    let rem = secs % 86400;
    zero_padded(decimal(y as nat), 4) + zero_padded(decimal(mo as nat), 2) + zero_padded(
        decimal(d as nat),
        2,
    ) + seq!['-'] + zero_padded(decimal(rem / 3600), 2) + zero_padded(decimal((rem % 3600) / 60), 2)
        + zero_padded(decimal(rem % 60), 2)
}

/// `yyyymmdd-hhmmss`, UTC, for the moment `secs` seconds after the epoch.
pub fn utc_stamp(secs: u64) -> (s: String)
    ensures
        s@ == stamp_text(secs as nat),
{
    let days = secs / 86_400;
    let rem = secs % 86_400;
    let (h, m, sec) = (rem / 3600, (rem % 3600) / 60, rem % 60);
    let z = days + 719_468;
    let era = z / 146_097;
    let doe = z % 146_097;
    proof {
        lemma_day_of_year_bounds(doe as int);
    }
    let yoe = (doe - doe / 1460 + doe / 36_524 - doe / 146_096) / 365;
    let doy = doe - (365 * yoe + yoe / 4 - yoe / 100);
    let mp = (5 * doy + 2) / 153;
    assert(mp <= 11);
    assert((153 * mp + 2) / 5 <= doy) by (nonlinear_arith)
        requires
            mp == (5 * doy + 2) / 153,
            0 <= doy <= 365,
    ;
    let d = doy - (153 * mp + 2) / 5 + 1;
    let mo = if mp < 10 {
        mp + 3
    } else {
        mp - 9
    };
    let y = yoe + era * 400 + if mo <= 2 {
        1
    } else {
        0
    };
    let mut out = String::new();
    push_number(&mut out, y, 10, 4);
    push_number(&mut out, mo, 10, 2);
    push_number(&mut out, d, 10, 2);
    push_char(&mut out, '-');
    push_number(&mut out, h, 10, 2);
    push_number(&mut out, m, 10, 2);
    push_number(&mut out, sec, 10, 2);
    proof {
        let (ys, ms, ds) = civil_date((secs / 86400) as int);
        assert(ys == y && ms == mo && ds == d);
    }
    out
}

// ---------------------------------------------------------------------------------------------
// The Gregorian calendar, counted directly
// ---------------------------------------------------------------------------------------------

/// A Gregorian leap year: divisible by four, and not by a hundred unless by four hundred.
pub open spec fn is_leap_year(y: int) -> bool {
    y % 4 == 0 && (y % 100 != 0 || y % 400 == 0)
}

/// The number of days in month `m` (1 to 12) of year `y`.
pub open spec fn month_length(y: int, m: int) -> int {
    if m == 2 {
        if is_leap_year(y) {
            29
        } else {
            28
        }
    } else if m == 4 || m == 6 || m == 9 || m == 11 {
        30
    } else {
        31
    }
}

/// The days in the months of year `y` before month `m`.
pub open spec fn days_before_month(y: int, m: int) -> int {
    let common = if m == 1 {
        0int
    } else if m == 2 {
        31
    } else if m == 3 {
        59
    } else if m == 4 {
        90
    } else if m == 5 {
        120
    } else if m == 6 {
        151
    } else if m == 7 {
        181
    } else if m == 8 {
        212
    } else if m == 9 {
        243
    } else if m == 10 {
        273
    } else if m == 11 {
        304
    } else {
        334
    };
    common + if m > 2 && is_leap_year(y) {
        1int
    } else {
        0
    }
}

/// The leap years among the years 1 to `y - 1`.
pub open spec fn leap_years_before(y: int) -> int {
    (y - 1) / 4 - (y - 1) / 100 + (y - 1) / 400
}

/// How many days 1970-01-01 is before the date `y`-`m`-`d`: the days of the whole years between,
/// of the months before `m`, and of the days before `d`.
pub open spec fn days_since_epoch(y: int, m: int, d: int) -> int {
    365 * (y - 1970) + leap_years_before(y) - leap_years_before(1970) + days_before_month(y, m) + d
        - 1
}

/// The stamp names a real date, and it is the right one: for every day on or after 1970-01-01,
/// the date the conversion gives has a month from 1 to 12 and a day within that month, and it is
/// exactly `days` days after 1970-01-01 by the Gregorian calendar.
pub proof fn law_the_date_is_the_gregorian_date(days: int)
    requires
        days >= 0,
    ensures
        ({
            let (y, m, d) = civil_date(days);
            &&& 1 <= m <= 12
            &&& 1 <= d <= month_length(y, m)
            &&& days_since_epoch(y, m, d) == days
        }),
{
    let z = days + 719468;
    let era = z / 146097;
    let doe = z % 146097;
    lemma_day_of_year_bounds(doe);
    let yoe = year_of_era(doe);
    let doy = day_of_year(doe);
    let mp = (5 * doy + 2) / 153;
    let d = doy - (153 * mp + 2) / 5 + 1;
    let (y, m, dd) = civil_date(days);
    assert(z == 146097 * era + doe) by (nonlinear_arith)
        requires
            z >= 0,
            era == z / 146097,
            doe == z % 146097,
    ;
    assert(era >= 4);
    let big_y = 400 * era + yoe;
    lemma_leaps_in_eras(era, yoe);
    lemma_month_of_day(doy);
    if mp == 11 && doy == 365 {
        lemma_last_day_is_a_leap_day(doe);
        lemma_leap_years_shift(era, yoe + 1);
    }
    if mp <= 9 {
        lemma_leaps_before_and_in(big_y);
        assert(y == big_y);
    } else {
        assert(y == big_y + 1);
    }
}

/// Where a day of a March-based year falls: its month index and the day of that month.
proof fn lemma_month_of_day(doy: int)
    requires
        0 <= doy <= 365,
    ensures
        ({
            let mp = (5 * doy + 2) / 153;
            let start = (153 * mp + 2) / 5;
            &&& 0 <= mp <= 11
            &&& start <= doy
            &&& mp == 0 ==> start == 0 && doy < 31
            &&& mp == 1 ==> start == 31 && doy < 61
            &&& mp == 2 ==> start == 61 && doy < 92
            &&& mp == 3 ==> start == 92 && doy < 122
            &&& mp == 4 ==> start == 122 && doy < 153
            &&& mp == 5 ==> start == 153 && doy < 184
            &&& mp == 6 ==> start == 184 && doy < 214
            &&& mp == 7 ==> start == 214 && doy < 245
            &&& mp == 8 ==> start == 245 && doy < 275
            &&& mp == 9 ==> start == 275 && doy < 306
            &&& mp == 10 ==> start == 306 && doy < 337
            &&& mp == 11 ==> start == 337
        }),
{
    let mp = (5 * doy + 2) / 153;
    assert(0 <= mp <= 11 && (153 * mp + 2) / 5 <= doy < (153 * (mp + 1) + 2) / 5)
        by (nonlinear_arith)
        requires
            0 <= doy <= 365,
            mp == (5 * doy + 2) / 153,
    ;
}

/// Leap years in whole eras: the years up to `400 * era + yoe` hold `97` leap years for each era
/// and those of the first `yoe` years of one more.
proof fn lemma_leaps_in_eras(era: int, yoe: int)
    requires
        era >= 0,
        0 <= yoe < 400,
    ensures
        (400 * era + yoe) / 4 - (400 * era + yoe) / 100 + (400 * era + yoe) / 400 == 97 * era + yoe
            / 4 - yoe / 100,
{
    let big_y = 400 * era + yoe;
    assert(big_y / 4 == 100 * era + yoe / 4) by (nonlinear_arith)
        requires
            big_y == 400 * era + yoe,
            0 <= yoe < 400,
            era >= 0,
    ;
    assert(big_y / 100 == 4 * era + yoe / 100) by (nonlinear_arith)
        requires
            big_y == 400 * era + yoe,
            0 <= yoe < 400,
            era >= 0,
    ;
    assert(big_y / 400 == era) by (nonlinear_arith)
        requires
            big_y == 400 * era + yoe,
            0 <= yoe < 400,
            era >= 0,
    ;
}

/// The same with one more year, so that the last year of an era is covered too.
proof fn lemma_leap_years_shift(era: int, k: int)
    requires
        era >= 0,
        0 <= k <= 400,
    ensures
        is_leap_year(400 * era + k) == is_leap_year(k),
{
    let big_y = 400 * era + k;
    assert(big_y % 4 == k % 4 && big_y % 100 == k % 100 && big_y % 400 == k % 400)
        by (nonlinear_arith)
        requires
            big_y == 400 * era + k,
            0 <= k <= 400,
            era >= 0,
    ;
}

/// The leap years before year `y`, and `y` itself when it is one, are the leap years up to `y`.
proof fn lemma_leaps_before_and_in(y: int)
    requires
        y >= 1,
    ensures
        leap_years_before(y) + (if is_leap_year(y) {
            1int
        } else {
            0
        }) == y / 4 - y / 100 + y / 400,
{
    assert(leap_years_before(y) + (if is_leap_year(y) {
        1int
    } else {
        0
    }) == y / 4 - y / 100 + y / 400) by (nonlinear_arith)
        requires
            y >= 1,
    ;
}

/// A March-based year reaches a 366th day only when the February that ends it has a 29th.
proof fn lemma_last_day_is_a_leap_day(doe: int)
    requires
        0 <= doe < 146097,
        day_of_year(doe) == 365,
    ensures
        is_leap_year(year_of_era(doe) + 1),
{
    let q1 = doe / 1460;
    let q2 = doe / 36524;
    let q3 = doe / 146096;
    let n = doe - q1 + q2 - q3;
    let yoe = n / 365;
    let q5 = yoe / 4;
    let q6 = yoe / 100;
    assert((yoe + 1) % 4 == 0 && ((yoe + 1) % 100 != 0 || (yoe + 1) % 400 == 0))
        by (nonlinear_arith)
        requires
            0 <= doe < 146097,
            q1 == doe / 1460,
            q2 == doe / 36524,
            q3 == doe / 146096,
            n == doe - q1 + q2 - q3,
            yoe == n / 365,
            q5 == yoe / 4,
            q6 == yoe / 100,
            doe - (365 * yoe + q5 - q6) == 365,
    ;
}

// ---------------------------------------------------------------------------------------------
// The shape of the text
// ---------------------------------------------------------------------------------------------

/// A character `in_base` can write: an ASCII digit or a lower-case hex letter.
pub open spec fn is_digit_char(c: char) -> bool {
    ('0' <= c && c <= '9') || ('a' <= c && c <= 'f')
}

/// Every character of a number written in a base up to sixteen is a digit of that base, and it
/// has at least one.
pub proof fn lemma_in_base_chars(n: nat, base: nat)
    requires
        2 <= base <= 16,
    ensures
        in_base(n, base).len() >= 1,
        forall|i: int| 0 <= i < in_base(n, base).len() ==> is_digit_char(#[trigger] in_base(n, base)[i]),
    decreases n,
{
    if n >= base {
        assert(n / base < n) by (nonlinear_arith)
            requires
                base >= 2,
                n >= base,
        ;
        lemma_in_base_chars(n / base, base);
    }
}

/// A number below `base` to the `k` takes at most `k` digits.
pub proof fn lemma_in_base_len(n: nat, base: nat, k: nat)
    requires
        2 <= base <= 16,
        k >= 1,
        n < vstd::arithmetic::power::pow(base as int, k),
    ensures
        in_base(n, base).len() <= k,
    decreases k,
{
    vstd::arithmetic::power::lemma_pow_positive(base as int, k);
    if n >= base {
        assert(n / base < n) by (nonlinear_arith)
            requires
                base >= 2,
                n >= base,
        ;
        if k == 1 {
            vstd::arithmetic::power::lemma_pow1(base as int);
        } else {
            let b = vstd::arithmetic::power::pow(base as int, (k - 1) as nat);
            vstd::arithmetic::power::lemma_pow_adds(base as int, 1, (k - 1) as nat);
            vstd::arithmetic::power::lemma_pow_positive(base as int, (k - 1) as nat);
            vstd::arithmetic::power::lemma_pow1(base as int);
            assert(n / base < b) by (nonlinear_arith)
                requires
                    n < base * b,
                    base >= 2,
                    b >= 1,
            ;
            lemma_in_base_len(n / base, base, (k - 1) as nat);
        }
    }
}

/// Zero-padding to `width` a number of at most `width` digits gives exactly `width` characters,
/// all of them digits.
pub proof fn lemma_padded_shape(n: nat, base: nat, width: nat)
    requires
        2 <= base <= 16,
        width >= 1,
        in_base(n, base).len() <= width,
    ensures
        zero_padded(in_base(n, base), width).len() == width,
        forall|i: int|
            0 <= i < width ==> is_digit_char(#[trigger] zero_padded(in_base(n, base), width)[i]),
{
    lemma_in_base_chars(n, base);
    let s = in_base(n, base);
    let z = zero_padded(s, width);
    assert forall|i: int| 0 <= i < width implies is_digit_char(#[trigger] z[i]) by {
        if s.len() < width && i >= width - s.len() {
            assert(z[i] == s[i - (width - s.len())]);
        }
    }
}

/// Up to year 9999 the stamp is `yyyymmdd-hhmmss`: fifteen characters, digits but for the dash.
pub proof fn law_the_stamp_is_fifteen_characters(secs: nat)
    requires
        secs < 253_402_300_800,
    ensures
        stamp_text(secs).len() == 15,
        stamp_text(secs)[8] == '-',
        forall|i: int| 0 <= i < 15 && i != 8 ==> is_digit_char(#[trigger] stamp_text(secs)[i]),
{
    let days = (secs / 86400) as int;
    law_the_date_is_the_gregorian_date(days);
    let (y, mo, d) = civil_date(days);
    lemma_year_from_days(days, y, mo, d);
    let rem = secs % 86400;
    assert(vstd::arithmetic::power::pow(10, 2) == 100 && vstd::arithmetic::power::pow(10, 4)
        == 10000) by {
        reveal_with_fuel(vstd::arithmetic::power::pow, 5);
    }
    lemma_in_base_len(y as nat, 10, 4);
    lemma_in_base_len(mo as nat, 10, 2);
    lemma_in_base_len(d as nat, 10, 2);
    lemma_in_base_len(rem / 3600, 10, 2);
    lemma_in_base_len((rem % 3600) / 60, 10, 2);
    lemma_in_base_len(rem % 60, 10, 2);
    lemma_padded_shape(y as nat, 10, 4);
    lemma_padded_shape(mo as nat, 10, 2);
    lemma_padded_shape(d as nat, 10, 2);
    lemma_padded_shape(rem / 3600, 10, 2);
    lemma_padded_shape((rem % 3600) / 60, 10, 2);
    lemma_padded_shape(rem % 60, 10, 2);
    let py = zero_padded(decimal(y as nat), 4);
    let pm = zero_padded(decimal(mo as nat), 2);
    let pd = zero_padded(decimal(d as nat), 2);
    let ph = zero_padded(decimal(rem / 3600), 2);
    let pn = zero_padded(decimal((rem % 3600) / 60), 2);
    let ps = zero_padded(decimal(rem % 60), 2);
    let st = stamp_text(secs);
    assert(st =~= py + pm + pd + seq!['-'] + ph + pn + ps);
    assert forall|i: int| 0 <= i < 15 && i != 8 implies is_digit_char(#[trigger] st[i]) by {
        if i < 4 {
            assert(st[i] == py[i]);
        } else if i < 6 {
            assert(st[i] == pm[i - 4]);
        } else if i < 8 {
            assert(st[i] == pd[i - 6]);
        } else if i < 11 {
            assert(st[i] == ph[i - 9]);
        } else if i < 13 {
            assert(st[i] == pn[i - 11]);
        } else {
            assert(st[i] == ps[i - 13]);
        }
    }
}

/// The year of a day before 10000-01-01 is between 1970 and 9999.
proof fn lemma_year_from_days(days: int, y: int, m: int, d: int)
    requires
        0 <= days < 2_932_897,
        1 <= m <= 12,
        1 <= d <= month_length(y, m),
        days_since_epoch(y, m, d) == days,
    ensures
        1970 <= y <= 9999,
{
    assert(0 <= days_before_month(y, m) <= 335);
    assert(1970 <= y <= 9999) by (nonlinear_arith)
        requires
            365 * (y - 1970) + ((y - 1) / 4 - (y - 1) / 100 + (y - 1) / 400) - 477
                + days_before_month(y, m) + d - 1 == days,
            0 <= days < 2_932_897,
            0 <= days_before_month(y, m) <= 335,
            1 <= d <= 31,
    ;
}


// ---------------------------------------------------------------------------------------------
// Stamps order as their moments
// ---------------------------------------------------------------------------------------------

/// `a` comes no later than `b` in the order `str`'s `<=` compares text by.
pub open spec fn text_le(a: Seq<char>, b: Seq<char>) -> bool
    decreases a.len(),
{
    if a.len() == 0 {
        true
    } else if b.len() == 0 {
        false
    } else if a[0] != b[0] {
        a[0] < b[0]
    } else {
        text_le(a.drop_first(), b.drop_first())
    }
}

/// The value of a run of decimal digits.
pub open spec fn decimal_value(s: Seq<char>) -> int
    decreases s.len(),
{
    if s.len() == 0 {
        0
    } else {
        decimal_value(s.drop_last()) * 10 + (s.last() as int - 48)
    }
}

/// Every character is a decimal digit.
pub open spec fn decimal_digits(s: Seq<char>) -> bool {
    forall|i: int| 0 <= i < s.len() ==> '0' <= #[trigger] s[i] && s[i] <= '9'
}

proof fn lemma_decimal_of_in_base(n: nat)
    ensures
        decimal_value(in_base(n, 10)) == n,
        decimal_digits(in_base(n, 10)),
    decreases n,
{
    let s = in_base(n, 10);
    if n < 10 {
        assert(s.drop_last() =~= Seq::<char>::empty());
        assert(decimal_value(s.drop_last()) == 0);
        assert(s.last() as int == 48 + n);
        assert(decimal_value(s) == decimal_value(s.drop_last()) * 10 + (s.last() as int - 48));
    } else {
        lemma_decimal_of_in_base(n / 10);
        assert(s.drop_last() == in_base(n / 10, 10));
        assert(s.last() as int == 48 + n % 10);
        assert(n == (n / 10) * 10 + n % 10);
        assert(decimal_value(s) == decimal_value(s.drop_last()) * 10 + (s.last() as int - 48));
        assert forall|i: int| 0 <= i < s.len() implies '0' <= #[trigger] s[i] && s[i] <= '9' by {
            if i < s.len() - 1 {
                assert(s[i] == in_base(n / 10, 10)[i]);
            }
        }
    }
}

proof fn lemma_decimal_of_padded(s: Seq<char>, width: nat)
    requires
        decimal_digits(s),
    ensures
        decimal_value(zero_padded(s, width)) == decimal_value(s),
        decimal_digits(zero_padded(s, width)),
{
    if s.len() < width {
        let z = Seq::new((width - s.len()) as nat, |i: int| '0');
        lemma_decimal_of_zeros_then(z, s);
        let p = zero_padded(s, width);
        assert forall|i: int| 0 <= i < p.len() implies '0' <= #[trigger] p[i] && p[i] <= '9' by {
            if i >= z.len() {
                assert(p[i] == s[i - z.len()]);
            }
        }
    }
}

proof fn lemma_decimal_of_zeros_then(z: Seq<char>, s: Seq<char>)
    requires
        forall|i: int| 0 <= i < z.len() ==> #[trigger] z[i] == '0',
    ensures
        decimal_value(z + s) == decimal_value(s),
    decreases z.len() + s.len(),
{
    if s.len() == 0 {
        assert(z + s =~= z);
        if z.len() > 0 {
            lemma_decimal_of_zeros_then(z.drop_last(), s);
            assert(z.drop_last() + s =~= z.drop_last());
        }
    } else {
        lemma_decimal_of_zeros_then(z, s.drop_last());
        assert((z + s).drop_last() =~= z + s.drop_last());
    }
}

proof fn lemma_decimal_front(s: Seq<char>)
    requires
        s.len() >= 1,
        decimal_digits(s),
    ensures
        decimal_value(s) == (s[0] as int - 48) * vstd::arithmetic::power::pow(10, (s.len() - 1) as nat)
            + decimal_value(s.drop_first()),
    decreases s.len(),
{
    let p = vstd::arithmetic::power::pow(10, (s.len() - 1) as nat);
    if s.len() == 1 {
        assert(s.drop_last().len() == 0);
        assert(s.drop_first().len() == 0);
        assert(p == 1) by {
            reveal(vstd::arithmetic::power::pow);
        }
        assert(s.drop_last() =~= Seq::<char>::empty());
        assert(decimal_value(s.drop_last()) == 0);
        assert(decimal_value(s.drop_first()) == 0);
        assert(s.last() == s[0]);
        assert(decimal_value(s) == decimal_value(s.drop_last()) * 10 + (s.last() as int - 48));
    } else {
        let init = s.drop_last();
        lemma_decimal_front(init);
        let q = vstd::arithmetic::power::pow(10, (init.len() - 1) as nat);
        assert(p == 10 * q) by {
            reveal(vstd::arithmetic::power::pow);
        }
        assert(init[0] == s[0]);
        assert(s.drop_first().drop_last() =~= init.drop_first());
        assert(s.drop_first().last() == s.last());
        let a = s[0] as int - 48;
        let b = decimal_value(init.drop_first());
        let l = s.last() as int - 48;
        assert(decimal_value(s) == decimal_value(init) * 10 + l);
        assert(decimal_value(s.drop_first()) == decimal_value(s.drop_first().drop_last()) * 10 + l);
        assert(decimal_value(s.drop_first()) == b * 10 + l);
        assert(decimal_value(init) == a * q + b);
        assert((a * q + b) * 10 == a * p + b * 10) by (nonlinear_arith)
            requires
                p == 10 * q,
        ;
    }
}

proof fn lemma_decimal_bound(s: Seq<char>)
    requires
        decimal_digits(s),
    ensures
        0 <= decimal_value(s) < vstd::arithmetic::power::pow(10, s.len()),
    decreases s.len(),
{
    if s.len() == 0 {
        assert(vstd::arithmetic::power::pow(10, 0) == 1) by {
            reveal(vstd::arithmetic::power::pow);
        }
    } else {
        let init = s.drop_last();
        lemma_decimal_bound(init);
        let q = vstd::arithmetic::power::pow(10, init.len());
        assert(vstd::arithmetic::power::pow(10, s.len()) == 10 * q) by {
            reveal(vstd::arithmetic::power::pow);
        }
        assert('0' <= s[s.len() - 1] <= '9');
        let v = decimal_value(init);
        assert(0 <= v * 10 + (s.last() as int - 48) < 10 * q) by (nonlinear_arith)
            requires
                0 <= v < q,
                0 <= s.last() as int - 48 <= 9,
        ;
    }
}

/// Runs of digits of one length order as text the way their values order as numbers.
proof fn lemma_digits_order(a: Seq<char>, b: Seq<char>)
    requires
        a.len() == b.len(),
        decimal_digits(a),
        decimal_digits(b),
        decimal_value(a) <= decimal_value(b),
    ensures
        text_le(a, b),
    decreases a.len(),
{
    if a.len() > 0 {
        lemma_decimal_front(a);
        lemma_decimal_front(b);
        let ra = a.drop_first();
        let rb = b.drop_first();
        assert(decimal_digits(ra)) by {
            assert forall|i: int| 0 <= i < ra.len() implies '0' <= #[trigger] ra[i] && ra[i] <= '9' by {
                assert(ra[i] == a[i + 1]);
            }
        }
        assert(decimal_digits(rb)) by {
            assert forall|i: int| 0 <= i < rb.len() implies '0' <= #[trigger] rb[i] && rb[i] <= '9' by {
                assert(rb[i] == b[i + 1]);
            }
        }
        lemma_decimal_bound(ra);
        lemma_decimal_bound(rb);
        let p = vstd::arithmetic::power::pow(10, (a.len() - 1) as nat);
        let x = a[0] as int - 48;
        let y = b[0] as int - 48;
        assert('0' <= a[0] <= '9' && '0' <= b[0] <= '9');
        if a[0] == b[0] {
            lemma_digits_order(ra, rb);
        } else {
            assert(x < y) by (nonlinear_arith)
                requires
                    x * p + decimal_value(ra) <= y * p + decimal_value(rb),
                    0 <= decimal_value(ra) < p,
                    0 <= decimal_value(rb) < p,
                    x != y,
            ;
        }
    }
}

proof fn lemma_text_le_concat(a1: Seq<char>, a2: Seq<char>, b1: Seq<char>, b2: Seq<char>)
    requires
        a1.len() == b1.len(),
        (text_le(a1, b1) && a1 != b1) || (a1 == b1 && text_le(a2, b2)),
    ensures
        text_le(a1 + a2, b1 + b2),
    decreases a1.len(),
{
    if a1.len() == 0 {
        assert(a1 =~= b1);
        assert(a1 + a2 =~= a2);
        assert(b1 + b2 =~= b2);
    } else {
        assert((a1 + a2)[0] == a1[0] && (b1 + b2)[0] == b1[0]);
        if a1[0] == b1[0] {
            assert((a1 + a2).drop_first() =~= a1.drop_first() + a2);
            assert((b1 + b2).drop_first() =~= b1.drop_first() + b2);
            if a1 != b1 {
                assert(a1.drop_first() != b1.drop_first()) by {
                    if a1.drop_first() == b1.drop_first() {
                        assert forall|i: int| 0 <= i < a1.len() implies a1[i] == b1[i] by {
                            if i > 0 {
                                assert(a1[i] == a1.drop_first()[i - 1]);
                                assert(b1[i] == b1.drop_first()[i - 1]);
                            }
                        }
                        assert(a1 =~= b1);
                    }
                }
            }
            lemma_text_le_concat(a1.drop_first(), a2, b1.drop_first(), b2);
        }
    }
}

proof fn lemma_text_le_refl(a: Seq<char>)
    ensures
        text_le(a, a),
    decreases a.len(),
{
    if a.len() > 0 {
        lemma_text_le_refl(a.drop_first());
    }
}

/// A number written in `width` digits, then what follows: it orders first by the number.
proof fn lemma_field_order(n1: nat, n2: nat, width: nat, r1: Seq<char>, r2: Seq<char>)
    requires
        width >= 1,
        n1 <= n2 < vstd::arithmetic::power::pow(10, width),
        n1 == n2 ==> text_le(r1, r2),
    ensures
        text_le(zero_padded(decimal(n1), width) + r1, zero_padded(decimal(n2), width) + r2),
{
    lemma_in_base_len(n1, 10, width);
    lemma_in_base_len(n2, 10, width);
    lemma_padded_shape(n1, 10, width);
    lemma_padded_shape(n2, 10, width);
    lemma_decimal_of_in_base(n1);
    lemma_decimal_of_in_base(n2);
    lemma_decimal_of_padded(in_base(n1, 10), width);
    lemma_decimal_of_padded(in_base(n2, 10), width);
    let p1 = zero_padded(decimal(n1), width);
    let p2 = zero_padded(decimal(n2), width);
    lemma_digits_order(p1, p2);
    if n1 != n2 {
        assert(p1 != p2);
    }
    lemma_text_le_concat(p1, r1, p2, r2);
}

proof fn lemma_year_end(y: int)
    ensures
        days_since_epoch(y + 1, 1, 1) == days_since_epoch(y, 12, 31) + 1,
{
    assert(leap_years_before(y + 1) - leap_years_before(y) == if is_leap_year(y) {
        1int
    } else {
        0
    }) by (nonlinear_arith);
}

proof fn lemma_years_in_order(y1: int, y2: int)
    requires
        y1 < y2,
    ensures
        days_since_epoch(y1, 12, 31) < days_since_epoch(y2, 1, 1),
    decreases y2 - y1,
{
    lemma_year_end(y1);
    if y1 + 1 < y2 {
        lemma_years_in_order(y1 + 1, y2);
    }
}

/// Dates order as the days since the epoch they fall on.
proof fn lemma_dates_in_order(y1: int, m1: int, d1: int, y2: int, m2: int, d2: int)
    requires
        1 <= m1 <= 12,
        1 <= d1 <= month_length(y1, m1),
        1 <= m2 <= 12,
        1 <= d2 <= month_length(y2, m2),
        y1 < y2 || (y1 == y2 && m1 < m2) || (y1 == y2 && m1 == m2 && d1 < d2),
    ensures
        days_since_epoch(y1, m1, d1) < days_since_epoch(y2, m2, d2),
{
    if y1 < y2 {
        lemma_years_in_order(y1, y2);
        assert(days_before_month(y1, m1) + month_length(y1, m1) <= days_before_month(y1, 12) + 31);
    } else if m1 < m2 {
        assert(days_before_month(y1, m1) + month_length(y1, m1) <= days_before_month(y1, m2));
    }
}

/// The time of day `r` seconds after midnight, as the stamp writes it: `hhmmss`.
pub open spec fn clock_text(r: nat) -> Seq<char> {
    zero_padded(decimal(r / 3600), 2) + zero_padded(decimal((r % 3600) / 60), 2) + zero_padded(
        decimal(r % 60),
        2,
    )
}

proof fn lemma_small_powers()
    ensures
        vstd::arithmetic::power::pow(10, 2) == 100,
        vstd::arithmetic::power::pow(10, 4) == 10000,
{
    reveal_with_fuel(vstd::arithmetic::power::pow, 5);
}

proof fn lemma_clock_fields(r1: nat, r2: nat)
    requires
        r1 <= r2 < 86400,
    ensures
        r1 / 3600 <= r2 / 3600 < 24,
        (r1 % 3600) / 60 < 60 && (r2 % 3600) / 60 < 60 && r1 % 60 < 60 && r2 % 60 < 60,
        r1 / 3600 == r2 / 3600 ==> (r1 % 3600) / 60 <= (r2 % 3600) / 60,
        r1 / 3600 == r2 / 3600 && (r1 % 3600) / 60 == (r2 % 3600) / 60 ==> r1 % 60 <= r2 % 60,
{
}

#[verifier::spinoff_prover]
proof fn lemma_clock_order(r1: nat, r2: nat)
    requires
        r1 <= r2 < 86400,
    ensures
        text_le(clock_text(r1), clock_text(r2)),
{
    lemma_small_powers();
    let h1 = r1 / 3600;
    let h2 = r2 / 3600;
    let n1 = (r1 % 3600) / 60;
    let n2 = (r2 % 3600) / 60;
    let s1 = r1 % 60;
    let s2 = r2 % 60;
    lemma_clock_fields(r1, r2);
    let e = Seq::<char>::empty();
    lemma_text_le_refl(e);
    let ps1 = zero_padded(decimal(s1), 2);
    let ps2 = zero_padded(decimal(s2), 2);
    assert(ps1 + e =~= ps1);
    assert(ps2 + e =~= ps2);
    if h1 == h2 && n1 == n2 {
        lemma_field_order(s1, s2, 2, e, e);
    }
    if h1 == h2 {
        lemma_field_order(n1, n2, 2, ps1, ps2);
    }
    let t1 = zero_padded(decimal(n1), 2) + ps1;
    let t2 = zero_padded(decimal(n2), 2) + ps2;
    lemma_field_order(h1, h2, 2, t1, t2);
    assert(clock_text(r1) =~= zero_padded(decimal(h1), 2) + t1);
    assert(clock_text(r2) =~= zero_padded(decimal(h2), 2) + t2);
}

proof fn lemma_date_order(
    y1: int,
    m1: int,
    d1: int,
    y2: int,
    m2: int,
    d2: int,
    rest1: Seq<char>,
    rest2: Seq<char>,
)
    requires
        1970 <= y1 <= 9999,
        1970 <= y2 <= 9999,
        1 <= m1 <= 12,
        1 <= m2 <= 12,
        1 <= d1 <= 31,
        1 <= d2 <= 31,
        y1 < y2 || (y1 == y2 && m1 < m2) || (y1 == y2 && m1 == m2 && d1 < d2) || (y1 == y2 && m1
            == m2 && d1 == d2 && text_le(rest1, rest2)),
    ensures
        text_le(
            zero_padded(decimal(y1 as nat), 4) + (zero_padded(decimal(m1 as nat), 2) + (
            zero_padded(decimal(d1 as nat), 2) + rest1)),
            zero_padded(decimal(y2 as nat), 4) + (zero_padded(decimal(m2 as nat), 2) + (
            zero_padded(decimal(d2 as nat), 2) + rest2)),
        ),
{
    lemma_small_powers();
    let a1 = zero_padded(decimal(d1 as nat), 2) + rest1;
    let a2 = zero_padded(decimal(d2 as nat), 2) + rest2;
    if y1 == y2 && m1 == m2 {
        lemma_field_order(d1 as nat, d2 as nat, 2, rest1, rest2);
    }
    let b1 = zero_padded(decimal(m1 as nat), 2) + a1;
    let b2 = zero_padded(decimal(m2 as nat), 2) + a2;
    if y1 == y2 {
        lemma_field_order(m1 as nat, m2 as nat, 2, a1, a2);
    }
    lemma_field_order(y1 as nat, y2 as nat, 4, b1, b2);
}

proof fn lemma_stamp_parts(t: nat)
    ensures
        ({
            let (y, m, d) = civil_date((t / 86400) as int);
            stamp_text(t) == zero_padded(decimal(y as nat), 4) + (zero_padded(decimal(m as nat), 2)
                + (zero_padded(decimal(d as nat), 2) + (seq!['-'] + clock_text(t % 86400))))
        }),
{
    let (y, m, d) = civil_date((t / 86400) as int);
    assert(stamp_text(t) =~= zero_padded(decimal(y as nat), 4) + (zero_padded(decimal(m as nat), 2)
        + (zero_padded(decimal(d as nat), 2) + (seq!['-'] + clock_text(t % 86400)))));
}

proof fn lemma_days_in_order(days1: int, days2: int)
    requires
        0 <= days1 <= days2 < 2_932_897,
    ensures
        ({
            let (y1, m1, d1) = civil_date(days1);
            let (y2, m2, d2) = civil_date(days2);
            &&& 1970 <= y1 <= 9999 && 1 <= m1 <= 12 && 1 <= d1 <= 31
            &&& 1970 <= y2 <= 9999 && 1 <= m2 <= 12 && 1 <= d2 <= 31
            &&& days1 < days2 ==> (y1 < y2 || (y1 == y2 && m1 < m2) || (y1 == y2 && m1 == m2 && d1
                < d2))
        }),
{
    law_the_date_is_the_gregorian_date(days1);
    law_the_date_is_the_gregorian_date(days2);
    let (y1, m1, d1) = civil_date(days1);
    let (y2, m2, d2) = civil_date(days2);
    lemma_year_from_days(days1, y1, m1, d1);
    lemma_year_from_days(days2, y2, m2, d2);
    if days1 < days2 {
        if !(y1 < y2 || (y1 == y2 && m1 < m2) || (y1 == y2 && m1 == m2 && d1 < d2)) {
            if !(y1 == y2 && m1 == m2 && d1 == d2) {
                lemma_dates_in_order(y2, m2, d2, y1, m1, d1);
            }
        }
    }
}

/// Stamps order as their moments: up to the year 9999, a moment no later than another has a
/// stamp that sorts no later as text, so a listing of minted names is arrival order.
pub proof fn law_stamps_order_as_their_moments(t1: nat, t2: nat)
    requires
        t1 <= t2 < 253_402_300_800,
    ensures
        text_le(stamp_text(t1), stamp_text(t2)),
{
    let days1 = (t1 / 86400) as int;
    let days2 = (t2 / 86400) as int;
    let r1 = t1 % 86400;
    let r2 = t2 % 86400;
    assert(days1 <= days2 < 2_932_897 && (days1 == days2 ==> r1 <= r2)) by (nonlinear_arith)
        requires
            t1 <= t2 < 253_402_300_800,
            days1 == t1 / 86400,
            days2 == t2 / 86400,
            r1 == t1 % 86400,
            r2 == t2 % 86400,
    ;
    lemma_days_in_order(days1, days2);
    let (y1, mo1, d1) = civil_date(days1);
    let (y2, mo2, d2) = civil_date(days2);
    let dash = seq!['-'];
    if days1 == days2 {
        lemma_clock_order(r1, r2);
        lemma_text_le_concat(dash, clock_text(r1), dash, clock_text(r2));
    }
    lemma_date_order(y1, mo1, d1, y2, mo2, d2, dash + clock_text(r1), dash + clock_text(r2));
    lemma_stamp_parts(t1);
    lemma_stamp_parts(t2);
}

} // verus!
