//! UTC calendar arithmetic: day numbers of civil dates in the proleptic
//! Gregorian calendar, and the `YYYY-MM-DD HH:MM:SS` timestamps of the build
//! report cache.
use vstd::prelude::*;
use vstd::arithmetic::div_mod::{lemma_fundamental_div_mod, lemma_fundamental_div_mod_converse, lemma_mod_bound};
use vstd::utf8::{encode_utf8, is_ascii_chars, is_ascii_chars_encode_utf8};
use crate::text::string_from_chars;
use vstd::string::StringSliceAdditionalSpecFns;

verus! {

/// Gregorian leap-year rule: divisible by 4, except centuries, except those
/// divisible by 400 (on all integers, negative years included).
pub open spec fn is_leap(y: int) -> bool {
    (y % 4 == 0 && y % 100 != 0) || y % 400 == 0
}

/// Number of days of month `m` of year `y` (0 for a month outside 1..=12).
pub open spec fn month_len(y: int, m: int) -> int {
    if m == 1 || m == 3 || m == 5 || m == 7 || m == 8 || m == 10 || m == 12 {
        31
    } else if m == 4 || m == 6 || m == 9 || m == 11 {
        30
    } else if m == 2 {
        if is_leap(y) {
            29
        } else {
            28
        }
    } else {
        0
    }
}

/// A calendar-possible date.
pub open spec fn valid_date(y: int, m: int, d: int) -> bool {
    1 <= m <= 12 && 1 <= d <= month_len(y, m)
}

/// Days from the first of March to the first of month `m` (a year counted
/// from March, so that February, with its leap day, comes last).
pub open spec fn march_offset(m: int) -> int {
    if m == 3 {
        0
    } else if m == 4 {
        31
    } else if m == 5 {
        61
    } else if m == 6 {
        92
    } else if m == 7 {
        122
    } else if m == 8 {
        153
    } else if m == 9 {
        184
    } else if m == 10 {
        214
    } else if m == 11 {
        245
    } else if m == 12 {
        275
    } else if m == 1 {
        306
    } else {
        337
    }
}

/// The day number of a civil date: days since 1970-01-01.  Years are counted
/// from March (January and February belong to the year before), so the days
/// before the year are 365 a year plus one per leap day; 719468 is the count
/// from 0000-03-01 to 1970-01-01.
pub open spec fn day_number(y: int, m: int, d: int) -> int {
    let yy = if m <= 2 { y - 1 } else { y };
    365 * yy + yy / 4 - yy / 100 + yy / 400 + march_offset(m) + d - 1 - 719468
}

pub proof fn lemma_epoch()
    ensures
        day_number(1970, 1, 1) == 0,
        valid_date(1970, 1, 1),
{
}

spec fn yoe_of(doe: int) -> int {
    (doe - doe / 1460 + doe / 36524 - doe / 146096) / 365
}

spec fn year_start(yoe: int) -> int {
    365 * yoe + yoe / 4 - yoe / 100
}

proof fn lemma_era_split(doe: u32)
    requires
        doe < 146097,
    ensures
        0 <= yoe_of(doe as int) <= 399,
        year_start(yoe_of(doe as int)) <= doe,
        doe - year_start(yoe_of(doe as int)) <= 365,
        doe - year_start(yoe_of(doe as int)) == 365 ==> (((yoe_of(doe as int) + 1) % 4 == 0
            && (yoe_of(doe as int) + 1) % 100 != 0) || yoe_of(doe as int) == 399),
{
    assert(({
        let yoe = (doe - doe / 1460 + doe / 36524 - doe / 146096) / 365;
        &&& yoe <= 399
        &&& 365 * yoe + yoe / 4 - yoe / 100 <= doe
        &&& doe - (365 * yoe + yoe / 4 - yoe / 100) <= 365
        &&& (doe - (365 * yoe + yoe / 4 - yoe / 100) == 365 ==> (((yoe + 1) % 4 == 0 && (yoe + 1)
            % 100 != 0) || yoe == 399))
    })) by (bit_vector)
        requires
            doe < 146097,
    ;
}

proof fn lemma_month_split(doy: u32)
    requires
        doy <= 365,
    ensures
        0 <= (5 * doy + 2) / 153 <= 11,
        (153 * ((5 * doy + 2) / 153) + 2) / 5 <= doy,
        (5 * doy + 2) / 153 < 11 ==> doy < (153 * ((5 * doy + 2) / 153 + 1) + 2) / 5,
{
    assert(({
        let mp = (5 * doy + 2) / 153;
        &&& mp <= 11
        &&& (153 * mp + 2) / 5 <= doy
        &&& (mp < 11 ==> doy < (153 * (mp + 1) + 2) / 5)
    })) by (bit_vector)
        requires
            doy <= 365,
    ;
}

/// Month `m` (1..=12) as a month of a year counted from March, and its offset.
proof fn lemma_march_offset(m: int)
    requires
        1 <= m <= 12,
    ensures
        ({
            let mp = if m > 2 { m - 3 } else { m + 9 };
            &&& 0 <= mp <= 11
            &&& (153 * mp + 2) / 5 == march_offset(m)
        }),
{
}

/// Lengths of the months of a year counted from March, from the offsets.
proof fn lemma_month_lengths(mp: int, y: int)
    requires
        0 <= mp < 11,
    ensures
        (153 * (mp + 1) + 2) / 5 - (153 * mp + 2) / 5 == month_len(
            y,
            if mp < 10 { mp + 3 } else { mp - 9 },
        ),
{
    if mp == 0 {
    } else if mp == 1 {
    } else if mp == 2 {
    } else if mp == 3 {
    } else if mp == 4 {
    } else if mp == 5 {
    } else if mp == 6 {
    } else if mp == 7 {
    } else if mp == 8 {
    } else if mp == 9 {
    } else {
    }
}

/// Splitting a year counted from March into 400-year eras.
proof fn lemma_year_split(yy: int, era: int, yoe: int)
    requires
        yy == era * 400 + yoe,
        0 <= yoe < 400,
    ensures
        365 * yy + yy / 4 - yy / 100 + yy / 400 == era * 146097 + 365 * yoe + yoe / 4 - yoe / 100,
{
    lemma_fundamental_div_mod_converse(yy, 4, era * 100 + yoe / 4, yoe % 4);
    lemma_fundamental_div_mod_converse(yy, 100, era * 4 + yoe / 100, yoe % 100);
    lemma_fundamental_div_mod_converse(yy, 400, era, yoe);
}

/// The leap rule of year `era * 400 + k` only depends on `k`.
proof fn lemma_leap_shift(era: int, k: int)
    requires
        1 <= k <= 400,
    ensures
        is_leap(era * 400 + k) == ((k % 4 == 0 && k % 100 != 0) || k == 400),
{
    lemma_fundamental_div_mod_converse(era * 400 + k, 4, era * 100 + k / 4, k % 4);
    lemma_fundamental_div_mod_converse(era * 400 + k, 100, era * 4 + k / 100, k % 100);
    if k == 400 {
        lemma_fundamental_div_mod_converse(era * 400 + k, 400, era + 1, 0);
    } else {
        lemma_fundamental_div_mod_converse(era * 400 + k, 400, era, k);
    }
}

/// Reject calendar-impossible dates.
pub fn is_valid_date(year: i64, month: u32, day: u32) -> (r: bool)
    ensures
        r == valid_date(year as int, month as int, day as int),
{
    if month < 1 || month > 12 || day < 1 {
        return false;
    }
    let days_in_month: u32 = if month == 1 || month == 3 || month == 5 || month == 7 || month == 8
        || month == 10 || month == 12 {
        31
    } else if month == 4 || month == 6 || month == 9 || month == 11 {
        30
    } else {
        let r400 = year.checked_rem_euclid(400);
        let r4 = year.checked_rem_euclid(4);
        let r100 = year.checked_rem_euclid(100);
        if r400 == Some(0i64) || (r4 == Some(0i64) && r100 != Some(0i64)) {
            29
        } else {
            28
        }
    };
    day <= days_in_month
}

/// Bound on the years the date arithmetic accepts, far beyond any timestamp.
pub open spec fn year_in_range(y: int) -> bool {
    -10_000_000_000_000_000 <= y <= 10_000_000_000_000_000
}

/// Days from 1970-01-01 to a civil date, or `None` when the month is outside
/// 1..=12 or the day outside 1..=31.
pub fn days_from_civil(y: i64, m: u32, d: u32) -> (r: Option<i64>)
    requires
        year_in_range(y as int),
    ensures
        r is Some <==> (1 <= m <= 12 && 1 <= d <= 31),
        r matches Some(n) ==> n == day_number(y as int, m as int, d as int),
{
    if m < 1 || m > 12 || d < 1 || d > 31 {
        return None;
    }
    let yy: i64 = if m <= 2 { y - 1 } else { y };
    let era: i64 = match yy.checked_div_euclid(400) {
        Some(e) => e,
        None => return None,
    };
    let yoe: u32 = (yy - era * 400) as u32;
    let mp: u32 = if m > 2 { m - 3 } else { m + 9 };
    let doy: u32 = (153 * mp + 2) / 5 + d - 1;
    let doe: i64 = (yoe as i64) * 365 + ((yoe / 4 - yoe / 100) as i64) + (doy as i64);
    proof {
        lemma_fundamental_div_mod_converse(yy as int, 400, era as int, yy - era * 400);
        lemma_march_offset(m as int);
        lemma_year_split(yy as int, era as int, yoe as int);
    }
    Some(era * 146_097 + doe - 719_468)
}

/// The civil date of a day number: the valid date whose day number is `z`.
pub fn civil_from_days(z: i64) -> (r: Option<(i64, u32, u32)>)
    requires
        0 <= z + 719468 <= 1_000_000_000_000_000,
    ensures
        r matches Some((y, m, d)) && valid_date(y as int, m as int, d as int) && day_number(
            y as int,
            m as int,
            d as int,
        ) == z && year_in_range(y as int),
{
    let zz: i64 = z + 719_468;
    let era: i64 = zz / 146_097;
    let doe: u32 = (zz - era * 146_097) as u32;
    proof {
        lemma_era_split(doe);
    }
    let yoe: u32 = (doe - doe / 1460 + doe / 36524 - doe / 146_096) / 365;
    let y0: i64 = (yoe as i64) + era * 400;
    let doy: u32 = doe - (365 * yoe + yoe / 4 - yoe / 100);
    proof {
        lemma_month_split(doy);
    }
    let mp: u32 = (5 * doy + 2) / 153;
    let d: u32 = doy - (153 * mp + 2) / 5 + 1;
    let m: u32 = if mp < 10 { mp + 3 } else { mp - 9 };
    let y: i64 = if m <= 2 { y0 + 1 } else { y0 };
    proof {
        assert(0 <= doe < 146097);
        lemma_march_offset(m as int);
        assert(march_offset(m as int) == (153 * mp + 2) / 5);
        lemma_year_split(y0 as int, era as int, yoe as int);
        let yy: int = if m <= 2 { y - 1 } else { y as int };
        assert(yy == y0);
        assert(day_number(y as int, m as int, d as int) == era * 146097 + doe - 719468);
        if mp < 11 {
            lemma_month_lengths(mp as int, y as int);
        } else {
            assert(m == 2);
            lemma_leap_shift(era as int, yoe + 1);
            assert(y == era * 400 + (yoe + 1));
        }
    }
    Some((y, m, d))
}

/// Decimal digits of a natural number.
pub open spec fn decimal(n: nat) -> Seq<char>
    decreases n,
{
    if n < 10 {
        seq![digit_char(n)]
    } else {
        decimal(n / 10).push(digit_char(n % 10))
    }
}

/// The decimal digit character of `n % 10`.
pub open spec fn digit_char(n: nat) -> char {
    let k = n % 10;
    if k == 0 {
        '0'
    } else if k == 1 {
        '1'
    } else if k == 2 {
        '2'
    } else if k == 3 {
        '3'
    } else if k == 4 {
        '4'
    } else if k == 5 {
        '5'
    } else if k == 6 {
        '6'
    } else if k == 7 {
        '7'
    } else if k == 8 {
        '8'
    } else {
        '9'
    }
}

proof fn lemma_digit_char(n: nat)
    ensures
        '0' <= digit_char(n) <= '9',
        digit_char(n) as u8 == (n % 10) + 48,
{
}

pub(crate) fn digit_of(k: u64) -> (c: char)
    ensures
        c == digit_char(k as nat),
{
    let r = k % 10;
    if r == 0 {
        '0'
    } else if r == 1 {
        '1'
    } else if r == 2 {
        '2'
    } else if r == 3 {
        '3'
    } else if r == 4 {
        '4'
    } else if r == 5 {
        '5'
    } else if r == 6 {
        '6'
    } else if r == 7 {
        '7'
    } else if r == 8 {
        '8'
    } else {
        '9'
    }
}

/// Decimal digits of `n`, zero-padded on the left to at least `w` characters
/// (`format!("{n:0w$}")`).
pub open spec fn padded(n: nat, w: nat) -> Seq<char> {
    let ds = decimal(n);
    if ds.len() >= w {
        ds
    } else {
        Seq::new((w - ds.len()) as nat, |i: int| '0') + ds
    }
}

/// The timestamp text of a date and time of day.
pub open spec fn utc_text(y: nat, mo: nat, d: nat, h: nat, mi: nat, s: nat) -> Seq<char> {
    padded(y, 4) + seq!['-'] + padded(mo, 2) + seq!['-'] + padded(d, 2) + seq![' '] + padded(h, 2)
        + seq![':'] + padded(mi, 2) + seq![':'] + padded(s, 2)
}

/// Digits of `n`, zero-padded to at least `w` characters.
pub fn push_padded(out: &mut Vec<char>, n: u64, w: usize)
    ensures
        final(out)@ == old(out)@ + padded(n as nat, w as nat),
{
    let mut ds: Vec<char> = Vec::new();
    let mut k: u64 = n;
    // digits are produced least significant first
    loop
        invariant_except_break
            decimal(n as nat) == decimal(k as nat) + ds@.reverse(),
        ensures
            decimal(n as nat) == ds@.reverse(),
        decreases k,
    {
        let c = digit_of(k);
        let ghost before = ds@;
        ds.push(c);
        assert(ds@.reverse() =~= seq![c] + before.reverse());
        if k < 10 {
            assert(decimal(k as nat) =~= seq![c]);
            assert(decimal(n as nat) =~= ds@.reverse());
            break ;
        }
        assert(decimal(k as nat) == decimal((k / 10) as nat).push(c));
        assert(decimal(n as nat) =~= decimal((k / 10) as nat) + ds@.reverse());
        k = k / 10;
    }
    let ghost digits = ds@.reverse();
    assert(digits == decimal(n as nat));
    let mut i = ds.len();
    while i < w
        invariant
            ds@.len() <= i,
            i <= w || i == ds@.len(),
            out@ == old(out)@ + Seq::new((i - ds@.len()) as nat, |j: int| '0'),
        decreases w - i,
    {
        out.push('0');
        i += 1;
        assert(out@ =~= old(out)@ + Seq::new((i - ds@.len()) as nat, |j: int| '0'));
    }
    let ghost zeros = out@;
    let mut j = ds.len();
    while j > 0
        invariant
            j <= ds@.len(),
            out@ == zeros + ds@.reverse().take((ds@.len() - j) as int),
        decreases j,
    {
        j -= 1;
        out.push(ds[j]);
        assert(out@ =~= zeros + ds@.reverse().take((ds@.len() - j) as int));
    }
    assert(ds@.reverse().take(ds@.len() as int) =~= digits);
    proof {
        if ds@.len() >= w {
            assert(i == ds@.len());
            assert(Seq::new((i - ds@.len()) as nat, |j: int| '0') =~= Seq::<char>::empty());
        }
        assert(out@ =~= old(out)@ + padded(n as nat, w as nat));
    }
}

/// `text` is the timestamp of second `secs` (since 1970-01-01 00:00:00 UTC):
/// the valid date whose day number is `secs / 86400`, then the time of day.
pub open spec fn is_utc_text_of(secs: int, text: Seq<char>) -> bool {
    exists|y: int, m: int, d: int|
        #![trigger day_number(y, m, d)]
        {
            &&& valid_date(y, m, d)
            &&& y >= 1970
            &&& day_number(y, m, d) == secs / 86400
            &&& text == utc_text(
                y as nat,
                m as nat,
                d as nat,
                ((secs % 86400) / 3600) as nat,
                ((secs % 3600) / 60) as nat,
                (secs % 60) as nat,
            )
        }
}

/// Format seconds since 1970-01-01 UTC as `YYYY-MM-DD HH:MM:SS`.
pub fn format_utc_time(secs: u64) -> (r: String)
    requires
        secs <= 0x7fff_ffff_ffff_ffff,
    ensures
        is_utc_text_of(secs as int, r@),
{
    let days: u64 = secs / 86_400;
    let rem: u64 = secs % 86_400;
    let (y, mo, d) = match civil_from_days(days as i64) {
        Some(t) => t,
        None => (1970, 1, 1),
    };
    proof {
        lemma_days_year_lower_bound(y as int, mo as int, d as int);
        assert((secs % 86400) % 3600 == secs % 3600) by {
            lemma_mod_mod_3600(secs as int);
        }
        assert((secs % 86400) % 60 == secs % 60) by {
            lemma_mod_mod_60(secs as int);
        }
    }
    let mut out: Vec<char> = Vec::new();
    push_padded(&mut out, y as u64, 4);
    out.push('-');
    push_padded(&mut out, mo as u64, 2);
    out.push('-');
    push_padded(&mut out, d as u64, 2);
    out.push(' ');
    push_padded(&mut out, rem / 3600, 2);
    out.push(':');
    push_padded(&mut out, (rem % 3600) / 60, 2);
    out.push(':');
    push_padded(&mut out, rem % 60, 2);
    assert(day_number(y as int, mo as int, d as int) == secs / 86400);
    assert(out@ =~= utc_text(
        y as nat,
        mo as nat,
        d as nat,
        ((secs % 86400) / 3600) as nat,
        ((secs % 3600) / 60) as nat,
        (secs % 60) as nat,
    ));
    string_from_chars(out.as_slice())
}

proof fn lemma_mod_mod_3600(x: int)
    requires
        x >= 0,
    ensures
        (x % 86400) % 3600 == x % 3600,
{
    lemma_fundamental_div_mod_converse(x, 3600, (x / 86400) * 24 + (x % 86400) / 3600, (x % 86400)
        % 3600);
}

proof fn lemma_mod_mod_60(x: int)
    requires
        x >= 0,
    ensures
        (x % 86400) % 60 == x % 60,
{
    lemma_fundamental_div_mod_converse(x, 60, (x / 86400) * 1440 + (x % 86400) / 60, (x % 86400)
        % 60);
}

/// Dates with a non-negative day number lie in 1970 or later.
proof fn lemma_days_year_lower_bound(y: int, m: int, d: int)
    requires
        valid_date(y, m, d),
        day_number(y, m, d) >= 0,
    ensures
        y >= 1970,
{
    if y < 1970 {
        let yy = if m <= 2 { y - 1 } else { y };
        assert(yy <= 1969);
        assert(365 * yy + yy / 4 - yy / 100 + yy / 400 <= 365 * 1969int + 1969int / 4 - 1969int / 100
            + 1969int / 400) by {
            lemma_year_count_monotone(yy, 1969);
        }
    }
}

proof fn lemma_year_count_monotone(a: int, b: int)
    requires
        a <= b,
    ensures
        365 * a + a / 4 - a / 100 + a / 400 <= 365 * b + b / 4 - b / 100 + b / 400,
    decreases b - a,
{
    if a < b {
        lemma_year_count_monotone(a + 1, b);
        assert((a + 1) / 4 >= a / 4);
        assert((a + 1) / 400 >= a / 400);
        assert((a + 1) / 100 <= a / 100 + 1);
    }
}


pub open spec fn is_digit_byte(b: u8) -> bool {
    48 <= b <= 57
}

/// Value of a run of decimal digit bytes.
pub open spec fn digits_value(b: Seq<u8>) -> int
    decreases b.len(),
{
    if b.len() == 0 {
        0
    } else {
        digits_value(b.drop_last()) * 10 + (b.last() - 48)
    }
}

pub open spec fn all_digit_bytes(b: Seq<u8>) -> bool {
    forall|i: int| 0 <= i < b.len() ==> is_digit_byte(#[trigger] b[i])
}

/// A field of ASCII digits: at least one digit and nothing else.
pub open spec fn parse_digits(b: Seq<u8>) -> Option<int> {
    if b.len() > 0 && all_digit_bytes(b) {
        Some(digits_value(b))
    } else {
        None
    }
}

pub open spec fn pow10(n: nat) -> int
    decreases n,
{
    if n == 0 {
        1
    } else {
        10 * pow10((n - 1) as nat)
    }
}

proof fn lemma_digits_value_bound(b: Seq<u8>)
    requires
        all_digit_bytes(b),
    ensures
        0 <= digits_value(b) < pow10(b.len()),
    decreases b.len(),
{
    if b.len() > 0 {
        assert(all_digit_bytes(b.drop_last())) by {
            assert forall|i: int| 0 <= i < b.drop_last().len() implies is_digit_byte(
                #[trigger] b.drop_last()[i],
            ) by {
                assert(b.drop_last()[i] == b[i]);
            }
        }
        lemma_digits_value_bound(b.drop_last());
        assert(is_digit_byte(b[b.len() - 1]));
    }
}

/// The timestamp read back: `None` unless `b` is exactly
/// `YYYY-MM-DD HH:MM:SS` with fields of ASCII digits only, an hour up to 23, minute and second up to 59, a possible
/// calendar date and a time not before 1970-01-01 00:00:00.
pub open spec fn parse_utc_spec(b: Seq<u8>) -> Option<int> {
    if b.len() != 19 || b[4] != 45 || b[7] != 45 || b[10] != 32 || b[13] != 58 || b[16] != 58 {
        None
    } else {
        match (
            parse_digits(b.subrange(0, 4)),
            parse_digits(b.subrange(5, 7)),
            parse_digits(b.subrange(8, 10)),
            parse_digits(b.subrange(11, 13)),
            parse_digits(b.subrange(14, 16)),
            parse_digits(b.subrange(17, 19)),
        ) {
            (Some(y), Some(mo), Some(d), Some(h), Some(mi), Some(s)) => {
                if h > 23 || mi > 59 || s > 59 {
                    None
                } else if !valid_date(y, mo, d) {
                    None
                } else {
                    let t = day_number(y, mo, d) * 86400 + h * 3600 + mi * 60 + s;
                    if t < 0 {
                        None
                    } else {
                        Some(t)
                    }
                }
            },
            _ => None,
        }
    }
}

/// Reads `b[from..to]` (at most four bytes) as a field of ASCII digits.
fn parse_field(b: &[u8], from: usize, to: usize) -> (r: Option<i64>)
    requires
        from <= to <= b@.len(),
        to - from <= 4,
    ensures
        match parse_digits(b@.subrange(from as int, to as int)) {
            Some(v) => r == Some(v as i64) && 0 <= v <= 9999,
            None => r is None,
        },
{
    let ghost f = b@.subrange(from as int, to as int);
    let mut i = from;
    if i == to {
        return None;
    }
    let mut v: i64 = 0;
    while i < to
        invariant
            from <= i <= to <= b@.len(),
            to - from <= 4,
            from < to,
            f == b@.subrange(from as int, to as int),
            all_digit_bytes(b@.subrange(from as int, i as int)),
            v as int == digits_value(b@.subrange(from as int, i as int)),
            0 <= v < pow10((i - from) as nat),
        decreases to - i,
    {
        if b[i] < 48u8 || b[i] > 57u8 {
            assert(!all_digit_bytes(f)) by {
                assert(f[i - from] == b@[i as int]);
            }
            return None;
        }
        proof {
            assert(pow10((i - from) as nat) <= 1000) by {
                reveal_with_fuel(pow10, 4);
            }
            let sub = b@.subrange(from as int, i + 1);
            assert(sub.drop_last() =~= b@.subrange(from as int, i as int));
            assert(sub.last() == b@[i as int]);
            assert(all_digit_bytes(sub)) by {
                assert forall|k: int| 0 <= k < sub.len() implies is_digit_byte(#[trigger] sub[k]) by {
                    if k < sub.len() - 1 {
                        assert(sub[k] == b@.subrange(from as int, i as int)[k]);
                    }
                }
            }
        }
        v = v * 10 + ((b[i] - 48u8) as i64);
        i += 1;
    }
    proof {
        lemma_digits_value_bound(f);
        assert(pow10((to - from) as nat) <= 10000) by {
            reveal_with_fuel(pow10, 5);
        }
    }
    Some(v)
}

/// Parse `YYYY-MM-DD HH:MM:SS` (UTC) into seconds since 1970-01-01.
///
/// Rejects any separator not in the exact `-`, `-`, ` `, `:`, `:` positions,
/// an hour above 23, a minute or second above 59, an impossible calendar date
/// (leap-year aware, e.g. 2100-02-29) and a time before 1970.
pub fn parse_utc_time(s: &str) -> (r: Option<u64>)
    ensures
        match parse_utc_spec(s.spec_bytes()) {
            Some(t) => r == Some(t as u64),
            None => r is None,
        },
        r matches Some(t) ==> t <= 0x7fff_ffff_ffff_ffff,
{
    let bytes = s.as_bytes();
    if bytes.len() != 19 || bytes[4] != 45u8 || bytes[7] != 45u8 || bytes[10] != 32u8 || bytes[13]
        != 58u8 || bytes[16] != 58u8 {
        return None;
    }
    let year = match parse_field(bytes, 0, 4) {
        Some(v) => v,
        None => return None,
    };
    let month = match parse_field(bytes, 5, 7) {
        Some(v) => v,
        None => return None,
    };
    let day = match parse_field(bytes, 8, 10) {
        Some(v) => v,
        None => return None,
    };
    let hour = match parse_field(bytes, 11, 13) {
        Some(v) => v,
        None => return None,
    };
    let minute = match parse_field(bytes, 14, 16) {
        Some(v) => v,
        None => return None,
    };
    let second = match parse_field(bytes, 17, 19) {
        Some(v) => v,
        None => return None,
    };
    if hour > 23 || minute > 59 || second > 59 {
        return None;
    }
    let month = month as u32;
    let day = day as u32;
    if !is_valid_date(year, month, day) {
        return None;
    }
    let days = match days_from_civil(year, month, day) {
        Some(n) => n,
        None => return None,
    };
    let secs: i64 = days * 86_400 + hour * 3600 + minute * 60 + second;
    if secs < 0 {
        return None;
    }
    Some(secs as u64)
}


/// The bytes of an ASCII text.
pub open spec fn ascii_bytes(s: Seq<char>) -> Seq<u8> {
    s.map_values(|c: char| c as u8)
}

/// Every character of `s` is an ASCII digit.
pub open spec fn all_digit_chars(s: Seq<char>) -> bool {
    forall|i: int| 0 <= i < s.len() ==> '0' <= #[trigger] s[i] <= '9'
}

pub(crate) proof fn lemma_decimal(n: nat)
    ensures
        decimal(n).len() >= 1,
        all_digit_chars(decimal(n)),
        digits_value(ascii_bytes(decimal(n))) == n,
        forall|k: nat| k >= 1 && n < pow10(k) ==> decimal(n).len() <= k,
        n >= 1000 ==> decimal(n).len() >= 4,
    decreases n,
{
    let ds = decimal(n);
    lemma_digit_char(n);
    if n < 10 {
        assert(ascii_bytes(ds).drop_last() =~= Seq::<u8>::empty());
        assert(digits_value(Seq::<u8>::empty()) == 0);
        assert(ascii_bytes(ds).last() == digit_char(n) as u8);
        assert forall|k: nat| k >= 1 && n < pow10(k) implies ds.len() <= k by {}
    } else {
        lemma_decimal(n / 10);
        let c = digit_char(n % 10);
        assert(ds == decimal(n / 10).push(c));
        assert(ascii_bytes(ds).drop_last() =~= ascii_bytes(decimal(n / 10)));
        assert(ascii_bytes(ds).last() == c as u8);
        assert(all_digit_chars(ds)) by {
            assert forall|i: int| 0 <= i < ds.len() implies '0' <= #[trigger] ds[i] <= '9' by {
                if i < ds.len() - 1 {
                    assert(ds[i] == decimal(n / 10)[i]);
                }
            }
        }
        assert forall|k: nat| k >= 1 && n < pow10(k) implies ds.len() <= k by {
            assert(pow10(k) == 10 * pow10((k - 1) as nat));
            if k == 1 {
                assert(pow10(0) == 1);
            } else {
                assert(n / 10 < pow10((k - 1) as nat));
            }
        }
        if n >= 1000 {
            assert(n / 10 >= 100);
            if n / 10 < 1000 {
                lemma_decimal_three(n / 10);
            }
        }
    }
}

proof fn lemma_decimal_three(n: nat)
    requires
        100 <= n,
    ensures
        decimal(n).len() >= 3,
{
    assert(decimal(n) == decimal(n / 10).push(digit_char(n % 10)));
    assert(decimal(n / 10) == decimal(n / 100).push(digit_char((n / 10) % 10)));
}

proof fn lemma_leading_zeros(z: nat, ds: Seq<char>)
    ensures
        digits_value(ascii_bytes(Seq::new(z, |i: int| '0') + ds)) == digits_value(ascii_bytes(ds)),
    decreases ds.len(),
{
    let zs = Seq::new(z, |i: int| '0');
    if ds.len() == 0 {
        assert(zs + ds =~= zs);
        lemma_zeros_value(z);
    } else {
        lemma_leading_zeros(z, ds.drop_last());
        assert(ascii_bytes(zs + ds).drop_last() =~= ascii_bytes(zs + ds.drop_last()));
        assert(ascii_bytes(ds).drop_last() =~= ascii_bytes(ds.drop_last()));
    }
}

proof fn lemma_zeros_value(z: nat)
    ensures
        digits_value(ascii_bytes(Seq::new(z, |i: int| '0'))) == 0,
    decreases z,
{
    if z > 0 {
        lemma_zeros_value((z - 1) as nat);
        assert(ascii_bytes(Seq::new(z, |i: int| '0')).drop_last() =~= ascii_bytes(
            Seq::new((z - 1) as nat, |i: int| '0'),
        ));
    }
}

proof fn lemma_padded(n: nat, w: nat)
    requires
        w >= 1,
        n < pow10(w),
    ensures
        padded(n, w).len() == w,
        all_digit_chars(padded(n, w)),
        digits_value(ascii_bytes(padded(n, w))) == n,
{
    lemma_decimal(n);
    let ds = decimal(n);
    if ds.len() < w {
        let zs = Seq::new((w - ds.len()) as nat, |i: int| '0');
        lemma_leading_zeros((w - ds.len()) as nat, ds);
        assert(all_digit_chars(zs + ds)) by {
            assert forall|i: int| 0 <= i < (zs + ds).len() implies '0' <= #[trigger] (zs + ds)[i]
                <= '9' by {
                if i >= zs.len() {
                    assert((zs + ds)[i] == ds[i - zs.len()]);
                }
            }
        }
    }
}

/// A zero-padded field holds digits only.
proof fn lemma_padded_digits(n: nat, w: nat)
    ensures
        all_digit_chars(padded(n, w)),
{
    lemma_decimal(n);
    let ds = decimal(n);
    if ds.len() < w {
        let zs = Seq::new((w - ds.len()) as nat, |i: int| '0');
        assert forall|i: int| 0 <= i < (zs + ds).len() implies '0' <= #[trigger] (zs + ds)[i]
            <= '9' by {
            if i >= zs.len() {
                assert((zs + ds)[i] == ds[i - zs.len()]);
            }
        }
    }
}

/// A timestamp text holds digits and the separators `-`, ` ` and `:` only, so
/// never a comma.
pub proof fn lemma_utc_text_no_comma(secs: int, text: Seq<char>)
    requires
        is_utc_text_of(secs, text),
    ensures
        forall|i: int| 0 <= i < text.len() ==> #[trigger] text[i] != ',',
{
    let (y, m, d) = choose|y: int, m: int, d: int|
        #![trigger day_number(y, m, d)]
        {
            &&& valid_date(y, m, d)
            &&& y >= 1970
            &&& day_number(y, m, d) == secs / 86400
            &&& text == utc_text(
                y as nat,
                m as nat,
                d as nat,
                ((secs % 86400) / 3600) as nat,
                ((secs % 3600) / 60) as nat,
                (secs % 60) as nat,
            )
        };
    let py = padded(y as nat, 4);
    let pm = padded(m as nat, 2);
    let pd = padded(d as nat, 2);
    let ph = padded(((secs % 86400) / 3600) as nat, 2);
    let pi = padded(((secs % 3600) / 60) as nat, 2);
    let ps = padded((secs % 60) as nat, 2);
    lemma_padded_digits(y as nat, 4);
    lemma_padded_digits(m as nat, 2);
    lemma_padded_digits(d as nat, 2);
    lemma_padded_digits(((secs % 86400) / 3600) as nat, 2);
    lemma_padded_digits(((secs % 3600) / 60) as nat, 2);
    lemma_padded_digits((secs % 60) as nat, 2);
    assert forall|i: int| 0 <= i < text.len() implies #[trigger] text[i] != ',' by {
        let a0 = py.len() as int;
        let a1 = a0 + 1;
        let a2 = a1 + pm.len();
        let a3 = a2 + 1;
        let a4 = a3 + pd.len();
        let a5 = a4 + 1;
        let a6 = a5 + ph.len();
        let a7 = a6 + 1;
        let a8 = a7 + pi.len();
        let a9 = a8 + 1;
        if i < a0 {
            assert(text[i] == py[i]);
        } else if i < a1 {
            assert(text[i] == '-');
        } else if i < a2 {
            assert(text[i] == pm[i - a1]);
        } else if i < a3 {
            assert(text[i] == '-');
        } else if i < a4 {
            assert(text[i] == pd[i - a3]);
        } else if i < a5 {
            assert(text[i] == ' ');
        } else if i < a6 {
            assert(text[i] == ph[i - a5]);
        } else if i < a7 {
            assert(text[i] == ':');
        } else if i < a8 {
            assert(text[i] == pi[i - a7]);
        } else if i < a9 {
            assert(text[i] == ':');
        } else {
            assert(text[i] == ps[i - a9]);
        }
    }
}

/// A field written by `format_utc_time` reads back as its value.
proof fn lemma_field_roundtrip(p: Seq<char>, n: nat, w: nat)
    requires
        w >= 1,
        n < pow10(w),
        p == padded(n, w),
    ensures
        p.len() == w,
        all_digit_chars(p),
        parse_digits(ascii_bytes(p)) == Some(n as int),
{
    lemma_padded(n, w);
    let b = ascii_bytes(p);
    assert(all_digit_bytes(b)) by {
        assert forall|i: int| 0 <= i < b.len() implies is_digit_byte(#[trigger] b[i]) by {
            assert('0' <= p[i] <= '9');
        }
    }
}

/// Dates of the year 10000 or later have day numbers from 2932897 on.
proof fn lemma_year_upper_bound(y: int, m: int, d: int)
    requires
        valid_date(y, m, d),
        day_number(y, m, d) < 2932897,
    ensures
        y <= 9999,
{
    if y > 9999 {
        let yy = if m <= 2 { y - 1 } else { y };
        lemma_year_count_monotone(9999, yy);
        assert(365 * 9999int + 9999int / 4 - 9999int / 100 + 9999int / 400 == 3652424);
    }
}

/// Reading back the text that `format_utc_time` writes for a second gives that
/// second again, for every second before the year 10000 (whose year still
/// fits the four-digit field).
pub proof fn law_utc_roundtrip(t: int, text: Seq<char>)
    requires
        0 <= t < 253402300800,
        is_utc_text_of(t, text),
    ensures
        parse_utc_spec(encode_utf8(text)) == Some(t),
{
    let (y, m, d) = choose|y: int, m: int, d: int|
        #![trigger day_number(y, m, d)]
        {
            &&& valid_date(y, m, d)
            &&& y >= 1970
            &&& day_number(y, m, d) == t / 86400
            &&& text == utc_text(
                y as nat,
                m as nat,
                d as nat,
                ((t % 86400) / 3600) as nat,
                ((t % 3600) / 60) as nat,
                (t % 60) as nat,
            )
        };
    lemma_year_upper_bound(y, m, d);
    let h = (t % 86400) / 3600;
    let mi = (t % 3600) / 60;
    let s = t % 60;
    reveal_with_fuel(pow10, 5);
    let py = padded(y as nat, 4);
    let pm = padded(m as nat, 2);
    let pd = padded(d as nat, 2);
    let ph = padded(h as nat, 2);
    let pmi = padded(mi as nat, 2);
    let ps = padded(s as nat, 2);
    lemma_field_roundtrip(py, y as nat, 4);
    lemma_field_roundtrip(pm, m as nat, 2);
    lemma_field_roundtrip(pd, d as nat, 2);
    lemma_field_roundtrip(ph, h as nat, 2);
    lemma_field_roundtrip(pmi, mi as nat, 2);
    lemma_field_roundtrip(ps, s as nat, 2);
    lemma_utc_text_bytes(py, pm, pd, ph, pmi, ps);
    assert(text == utc_text(y as nat, m as nat, d as nat, h as nat, mi as nat, s as nat));
    let b = encode_utf8(text);
    lemma_time_of_day(t);
}

proof fn lemma_time_of_day(t: int)
    requires
        t >= 0,
    ensures
        t == (t / 86400) * 86400 + ((t % 86400) / 3600) * 3600 + ((t % 3600) / 60) * 60 + t % 60,
        0 <= (t % 86400) / 3600 <= 23,
        0 <= (t % 3600) / 60 <= 59,
        0 <= t % 60 <= 59,
{
    lemma_mod_mod_3600(t);
    assert((t % 3600) % 60 == t % 60) by {
        lemma_fundamental_div_mod_converse(t, 60, (t / 3600) * 60 + (t % 3600) / 60, (t % 3600) % 60);
    }
}

proof fn lemma_utc_text_bytes(
    py: Seq<char>,
    pm: Seq<char>,
    pd: Seq<char>,
    ph: Seq<char>,
    pmi: Seq<char>,
    ps: Seq<char>,
)
    requires
        py.len() == 4,
        pm.len() == 2,
        pd.len() == 2,
        ph.len() == 2,
        pmi.len() == 2,
        ps.len() == 2,
        all_digit_chars(py),
        all_digit_chars(pm),
        all_digit_chars(pd),
        all_digit_chars(ph),
        all_digit_chars(pmi),
        all_digit_chars(ps),
    ensures
        ({
            let text = py + seq!['-'] + pm + seq!['-'] + pd + seq![' '] + ph + seq![':'] + pmi
                + seq![':'] + ps;
            let b = encode_utf8(text);
            &&& b.len() == 19
            &&& b[4] == 45 && b[7] == 45 && b[10] == 32 && b[13] == 58 && b[16] == 58
            &&& b.subrange(0, 4) == ascii_bytes(py)
            &&& b.subrange(5, 7) == ascii_bytes(pm)
            &&& b.subrange(8, 10) == ascii_bytes(pd)
            &&& b.subrange(11, 13) == ascii_bytes(ph)
            &&& b.subrange(14, 16) == ascii_bytes(pmi)
            &&& b.subrange(17, 19) == ascii_bytes(ps)
        }),
{
    let text = py + seq!['-'] + pm + seq!['-'] + pd + seq![' '] + ph + seq![':'] + pmi + seq![':']
        + ps;
    assert(text.len() == 19);
    assert(text.subrange(0, 4) =~= py);
    assert(text.subrange(5, 7) =~= pm);
    assert(text.subrange(8, 10) =~= pd);
    assert(text.subrange(11, 13) =~= ph);
    assert(text.subrange(14, 16) =~= pmi);
    assert(text.subrange(17, 19) =~= ps);
    assert(text[4] == '-' && text[7] == '-' && text[10] == ' ' && text[13] == ':' && text[16]
        == ':');
    assert(is_ascii_chars(text)) by {
        assert forall|i: int| 0 <= i < text.len() implies '\0' <= #[trigger] text[i] <= '\u{7f}' by {
            if i < 4 {
                assert(text[i] == text.subrange(0, 4)[i]);
            } else if 4 < i < 7 {
                assert(text[i] == text.subrange(5, 7)[i - 5]);
            } else if 7 < i < 10 {
                assert(text[i] == text.subrange(8, 10)[i - 8]);
            } else if 10 < i < 13 {
                assert(text[i] == text.subrange(11, 13)[i - 11]);
            } else if 13 < i < 16 {
                assert(text[i] == text.subrange(14, 16)[i - 14]);
            } else if 16 < i {
                assert(text[i] == text.subrange(17, 19)[i - 17]);
            }
        }
    }
    is_ascii_chars_encode_utf8(text);
    let b = encode_utf8(text);
    assert(b =~= ascii_bytes(text));
    assert(b.subrange(0, 4) =~= ascii_bytes(py));
    assert(b.subrange(5, 7) =~= ascii_bytes(pm));
    assert(b.subrange(8, 10) =~= ascii_bytes(pd));
    assert(b.subrange(11, 13) =~= ascii_bytes(ph));
    assert(b.subrange(14, 16) =~= ascii_bytes(pmi));
    assert(b.subrange(17, 19) =~= ascii_bytes(ps));
}

/// The text of ASCII bytes.
pub open spec fn ascii_chars(b: Seq<u8>) -> Seq<char> {
    b.map_values(|x: u8| x as char)
}

proof fn lemma_digit_char_of(c: char)
    requires
        '0' <= c <= '9',
    ensures
        digit_char((c as int - 48) as nat) == c,
        ((c as int - 48) as nat) % 10 == c as int - 48,
{
}

proof fn lemma_zero_digits(f: Seq<char>)
    requires
        all_digit_chars(f),
        digits_value(ascii_bytes(f)) == 0,
    ensures
        f == Seq::new(f.len(), |i: int| '0'),
    decreases f.len(),
{
    if f.len() > 0 {
        let p = f.drop_last();
        assert(ascii_bytes(f).drop_last() =~= ascii_bytes(p));
        assert(all_digit_chars(p)) by {
            assert forall|i: int| 0 <= i < p.len() implies '0' <= #[trigger] p[i] <= '9' by {
                assert(p[i] == f[i]);
            }
        }
        assert(all_digit_bytes(ascii_bytes(p))) by {
            assert forall|i: int| 0 <= i < ascii_bytes(p).len() implies is_digit_byte(#[trigger] ascii_bytes(p)[i]) by {
                assert('0' <= p[i] <= '9');
            }
        }
        lemma_digits_value_bound(ascii_bytes(p));
        assert('0' <= f.last() <= '9');
        assert(ascii_bytes(f).last() == f.last() as u8);
        assert(digits_value(ascii_bytes(p)) == 0);
        assert(f.last() == '0');
        lemma_zero_digits(p);
        assert forall|i: int| 0 <= i < f.len() implies f[i] == '0' by {
            if i < f.len() - 1 {
                assert(f[i] == p[i]);
            }
        }
        assert(f =~= Seq::new(f.len(), |i: int| '0'));
    }
}

/// Zero-padded digits are the padded text of their value.
proof fn lemma_padded_of_digits(f: Seq<char>, w: nat)
    requires
        w >= 1,
        f.len() == w,
        all_digit_chars(f),
    ensures
        padded(digits_value(ascii_bytes(f)) as nat, w) == f,
    decreases w,
{
    let b = ascii_bytes(f);
    assert(all_digit_bytes(b)) by {
        assert forall|i: int| 0 <= i < b.len() implies is_digit_byte(#[trigger] b[i]) by {
            assert('0' <= f[i] <= '9');
        }
    }
    lemma_digits_value_bound(b);
    let n = digits_value(b) as nat;
    let p = f.drop_last();
    let c = f.last();
    assert(b.drop_last() =~= ascii_bytes(p));
    assert('0' <= c <= '9');
    assert(b.last() == c as u8);
    let pv = digits_value(ascii_bytes(p));
    assert(all_digit_chars(p)) by {
        assert forall|i: int| 0 <= i < p.len() implies '0' <= #[trigger] p[i] <= '9' by {
            assert(p[i] == f[i]);
        }
    }
    assert(all_digit_bytes(ascii_bytes(p))) by {
        assert forall|i: int| 0 <= i < ascii_bytes(p).len() implies is_digit_byte(#[trigger] ascii_bytes(p)[i]) by {
            assert('0' <= p[i] <= '9');
        }
    }
    lemma_digits_value_bound(ascii_bytes(p));
    assert(n == pv * 10 + (c as int - 48));
    lemma_digit_char_of(c);
    if n < 10 {
        assert(pv == 0);
        lemma_zero_digits(p);
        assert(decimal(n) == seq![digit_char(n)]);
        assert(digit_char(n) == c);
        if w > 1 {
            assert(padded(n, w) == Seq::new((w - 1) as nat, |i: int| '0') + seq![c]);
            assert(f =~= p + seq![c]);
        } else {
            assert(f =~= seq![c]);
        }
    } else {
        assert(w >= 2) by {
            if w == 1 {
                assert(pow10(1) == 10) by {
                    reveal_with_fuel(pow10, 2);
                }
            }
        }
        lemma_padded_of_digits(p, (w - 1) as nat);
        let pn = pv as nat;
        assert(n / 10 == pn && n % 10 == c as int - 48);
        assert(decimal(n) == decimal(pn).push(digit_char(n % 10)));
        assert(digit_char(n % 10) == c);
        lemma_decimal(pn);
        let dp = decimal(pn);
        if dp.len() >= w - 1 {
            assert(padded(pn, (w - 1) as nat) == dp);
            assert(padded(n, w) == dp.push(c));
            assert(f =~= p.push(c));
        } else {
            let z = Seq::new(((w - 1) - dp.len()) as nat, |i: int| '0');
            assert(padded(pn, (w - 1) as nat) == z + dp);
            assert(padded(n, w) == Seq::new((w - dp.push(c).len()) as nat, |i: int| '0') + dp.push(c));
            assert(Seq::new((w - dp.push(c).len()) as nat, |i: int| '0') =~= z);
            assert(z + dp.push(c) =~= (z + dp).push(c));
            assert(f =~= p.push(c));
        }
    }
}

/// Seconds split into days and a time of day come apart again.
proof fn lemma_split_time(dn: int, h: int, mi: int, s: int)
    requires
        dn >= 0,
        0 <= h <= 23,
        0 <= mi <= 59,
        0 <= s <= 59,
    ensures
        ({
            let t = dn * 86400 + h * 3600 + mi * 60 + s;
            &&& t / 86400 == dn
            &&& (t % 86400) / 3600 == h
            &&& (t % 3600) / 60 == mi
            &&& t % 60 == s
        }),
{
    let t = dn * 86400 + h * 3600 + mi * 60 + s;
    let r = h * 3600 + mi * 60 + s;
    assert(0 <= r < 86400);
    lemma_fundamental_div_mod_converse(t, 86400, dn, r);
    lemma_fundamental_div_mod_converse(r, 3600, h, mi * 60 + s);
    assert(t == (dn * 24 + h) * 3600 + (mi * 60 + s)) by (nonlinear_arith)
        requires
            t == dn * 86400 + h * 3600 + mi * 60 + s,
    ;
    lemma_fundamental_div_mod_converse(t, 3600, dn * 24 + h, mi * 60 + s);
    lemma_fundamental_div_mod_converse(mi * 60 + s, 60, mi, s);
    assert(t == (dn * 1440 + h * 60 + mi) * 60 + s) by (nonlinear_arith)
        requires
            t == dn * 86400 + h * 3600 + mi * 60 + s,
    ;
    lemma_fundamental_div_mod_converse(t, 60, dn * 1440 + h * 60 + mi, s);
}

proof fn lemma_field_chars(b: Seq<u8>, from: int, to: int)
    requires
        0 <= from < to <= b.len(),
        parse_digits(b.subrange(from, to)) is Some,
    ensures
        all_digit_chars(ascii_chars(b).subrange(from, to)),
        ascii_bytes(ascii_chars(b).subrange(from, to)) == b.subrange(from, to),
{
    let f = ascii_chars(b).subrange(from, to);
    assert forall|i: int| 0 <= i < f.len() implies '0' <= #[trigger] f[i] <= '9' by {
        assert(f[i] == b[from + i] as char);
        assert(is_digit_byte(b.subrange(from, to)[i]));
    }
    assert(ascii_bytes(f) =~= b.subrange(from, to));
}

/// A timestamp that reads as a time is a text written for that time: its
/// fields are digits only, so reading it and writing the time again gives
/// the same fields in the same places.
pub proof fn law_parse_then_format(b: Seq<u8>, t: int)
    requires
        parse_utc_spec(b) == Some(t),
    ensures
        is_utc_text_of(t, ascii_chars(b)),
        encode_utf8(ascii_chars(b)) == b,
{
    let text = ascii_chars(b);
    lemma_field_chars(b, 0, 4);
    lemma_field_chars(b, 5, 7);
    lemma_field_chars(b, 8, 10);
    lemma_field_chars(b, 11, 13);
    lemma_field_chars(b, 14, 16);
    lemma_field_chars(b, 17, 19);
    let y = digits_value(b.subrange(0, 4));
    let m = digits_value(b.subrange(5, 7));
    let d = digits_value(b.subrange(8, 10));
    let h = digits_value(b.subrange(11, 13));
    let mi = digits_value(b.subrange(14, 16));
    let s = digits_value(b.subrange(17, 19));
    let dn = day_number(y, m, d);
    assert(t == dn * 86400 + h * 3600 + mi * 60 + s);
    lemma_digits_value_bound(b.subrange(0, 4));
    lemma_digits_value_bound(b.subrange(11, 13));
    lemma_digits_value_bound(b.subrange(14, 16));
    lemma_digits_value_bound(b.subrange(17, 19));
    assert(dn >= 0) by {
        if dn < 0 {
            assert(dn * 86400 <= -86400) by (nonlinear_arith)
                requires
                    dn < 0,
            ;
        }
    }
    lemma_split_time(dn, h, mi, s);
    lemma_days_year_lower_bound(y, m, d);
    lemma_padded_of_digits(text.subrange(0, 4), 4);
    lemma_padded_of_digits(text.subrange(5, 7), 2);
    lemma_padded_of_digits(text.subrange(8, 10), 2);
    lemma_padded_of_digits(text.subrange(11, 13), 2);
    lemma_padded_of_digits(text.subrange(14, 16), 2);
    lemma_padded_of_digits(text.subrange(17, 19), 2);
    let u = utc_text(y as nat, m as nat, d as nat, h as nat, mi as nat, s as nat);
    assert(text[4] == '-' && text[7] == '-' && text[10] == ' ' && text[13] == ':' && text[16] == ':');
    assert(text =~= u) by {
        assert(text =~= text.subrange(0, 4) + seq!['-'] + text.subrange(5, 7) + seq!['-'] + text.subrange(8, 10)
            + seq![' '] + text.subrange(11, 13) + seq![':'] + text.subrange(14, 16) + seq![':'] + text.subrange(17, 19));
    }
    assert(day_number(y, m, d) == t / 86400);
    assert(is_utc_text_of(t, text));
    assert(is_ascii_chars(text)) by {
        assert forall|i: int| 0 <= i < text.len() implies '\0' <= #[trigger] text[i] <= '\u{7f}' by {
            assert(text[i] == b[i] as char);
            if i < 4 {
                assert(text[i] == text.subrange(0, 4)[i]);
            } else if 4 < i < 7 {
                assert(text[i] == text.subrange(5, 7)[i - 5]);
            } else if 7 < i < 10 {
                assert(text[i] == text.subrange(8, 10)[i - 8]);
            } else if 10 < i < 13 {
                assert(text[i] == text.subrange(11, 13)[i - 11]);
            } else if 13 < i < 16 {
                assert(text[i] == text.subrange(14, 16)[i - 14]);
            } else if 16 < i {
                assert(text[i] == text.subrange(17, 19)[i - 17]);
            }
        }
    }
    is_ascii_chars_encode_utf8(text);
    assert(encode_utf8(text) =~= b) by {
        assert forall|i: int| 0 <= i < b.len() implies encode_utf8(text)[i] == b[i] by {
            assert(text[i] == b[i] as char);
        }
    }
}


/// Days before the year counted from March that starts in year `yy`.
spec fn year_count(yy: int) -> int {
    365 * yy + yy / 4 - yy / 100 + yy / 400
}

/// A year counted from March, starting in `yy`, has 366 days when the
/// February it ends with is a leap one, else 365.
proof fn lemma_year_count_step(yy: int)
    ensures
        year_count(yy + 1) - year_count(yy) == if is_leap(yy + 1) {
            366int
        } else {
            365int
        },
{
    lemma_div_step(yy, 4);
    lemma_div_step(yy, 100);
    lemma_div_step(yy, 400);
}

/// Dividing the next number by `k` gives one more exactly when `k` divides it.
proof fn lemma_div_step(x: int, k: int)
    requires
        k > 0,
    ensures
        (x + 1) / k == x / k + if (x + 1) % k == 0 {
            1int
        } else {
            0int
        },
{
    lemma_fundamental_div_mod(x, k);
    lemma_mod_bound(x, k);
    let q = x / k;
    let r = x % k;
    if r == k - 1 {
        assert(x + 1 == k * (q + 1)) by (nonlinear_arith)
            requires
                x == k * q + r,
                r == k - 1,
        ;
        lemma_fundamental_div_mod_converse(x + 1, k, q + 1, 0);
    } else {
        assert(x + 1 == q * k + (r + 1)) by (nonlinear_arith)
            requires
                x == k * q + r,
        ;
        lemma_fundamental_div_mod_converse(x + 1, k, q, r + 1);
    }
}

proof fn lemma_year_count_strict(a: int, b: int)
    requires
        a < b,
    ensures
        year_count(a) + 365 <= year_count(b),
    decreases b - a,
{
    lemma_year_count_step(a);
    if a + 1 < b {
        lemma_year_count_strict(a + 1, b);
    }
}

/// Two valid dates with the same day number are the same date.
pub proof fn lemma_day_number_injective(y1: int, m1: int, d1: int, y2: int, m2: int, d2: int)
    requires
        valid_date(y1, m1, d1),
        valid_date(y2, m2, d2),
        day_number(y1, m1, d1) == day_number(y2, m2, d2),
    ensures
        y1 == y2 && m1 == m2 && d1 == d2,
{
    let yy1 = if m1 <= 2 { y1 - 1 } else { y1 };
    let yy2 = if m2 <= 2 { y2 - 1 } else { y2 };
    let doy1 = march_offset(m1) + d1 - 1;
    let doy2 = march_offset(m2) + d2 - 1;
    assert(day_number(y1, m1, d1) == year_count(yy1) + doy1 - 719468);
    assert(day_number(y2, m2, d2) == year_count(yy2) + doy2 - 719468);
    lemma_year_count_step(yy1);
    lemma_year_count_step(yy2);
    assert(0 <= doy1 < year_count(yy1 + 1) - year_count(yy1));
    assert(0 <= doy2 < year_count(yy2 + 1) - year_count(yy2));
    if yy1 < yy2 {
        if yy1 + 1 < yy2 {
            lemma_year_count_strict(yy1 + 1, yy2);
        }
        assert(false);
    }
    if yy2 < yy1 {
        if yy2 + 1 < yy1 {
            lemma_year_count_strict(yy2 + 1, yy1);
        }
        assert(false);
    }
    assert(doy1 == doy2);
    assert(m1 == m2);
}

/// The text of a second is unique: two texts of the same second are equal.
pub proof fn lemma_utc_text_unique(secs: int, a: Seq<char>, b: Seq<char>)
    requires
        is_utc_text_of(secs, a),
        is_utc_text_of(secs, b),
    ensures
        a == b,
{
    let (y1, m1, d1) = choose|y: int, m: int, d: int|
        #![trigger day_number(y, m, d)]
        {
            &&& valid_date(y, m, d)
            &&& y >= 1970
            &&& day_number(y, m, d) == secs / 86400
            &&& a == utc_text(
                y as nat,
                m as nat,
                d as nat,
                ((secs % 86400) / 3600) as nat,
                ((secs % 3600) / 60) as nat,
                (secs % 60) as nat,
            )
        };
    let (y2, m2, d2) = choose|y: int, m: int, d: int|
        #![trigger day_number(y, m, d)]
        {
            &&& valid_date(y, m, d)
            &&& y >= 1970
            &&& day_number(y, m, d) == secs / 86400
            &&& b == utc_text(
                y as nat,
                m as nat,
                d as nat,
                ((secs % 86400) / 3600) as nat,
                ((secs % 3600) / 60) as nat,
                (secs % 60) as nat,
            )
        };
    lemma_day_number_injective(y1, m1, d1, y2, m2, d2);
}

/// Writing the time a timestamp reads as gives that timestamp back: for a
/// text `b` that `parse_utc_time` accepts with time `t`, the text that
/// `format_utc_time(t)` writes (`is_utc_text_of(t, ..)`) is `b` itself.
pub proof fn law_format_after_parse(b: Seq<u8>, t: int, text: Seq<char>)
    requires
        parse_utc_spec(b) == Some(t),
        is_utc_text_of(t, text),
    ensures
        text == ascii_chars(b),
        encode_utf8(text) == b,
{
    law_parse_then_format(b, t);
    lemma_utc_text_unique(t, text, ascii_chars(b));
}


/// The fields of a timestamp text `YYYY-MM-DD HH:MM:SS`, each read as the
/// value of its digits.
pub open spec fn utc_fields(b: Seq<u8>) -> (int, int, int, int, int, int) {
    (
        digits_value(b.subrange(0, 4)),
        digits_value(b.subrange(5, 7)),
        digits_value(b.subrange(8, 10)),
        digits_value(b.subrange(11, 13)),
        digits_value(b.subrange(14, 16)),
        digits_value(b.subrange(17, 19)),
    )
}

/// `parse_utc_time` accepts a text exactly when it is 19 bytes long with
/// `-`, `-`, ` `, `:`, `:` at bytes 4, 7, 10, 13 and 16, every other byte an
/// ASCII digit, an hour up to 23, a minute and a second up to 59, a possible
/// calendar date (leap years included) and a year from 1970 on; the time it
/// gives is the day number of the date times 86400 plus the seconds of the
/// time of day.
pub proof fn law_parse_utc_time_accepts(b: Seq<u8>)
    ensures
        parse_utc_spec(b) is Some <==> {
            &&& b.len() == 19
            &&& b[4] == 45 && b[7] == 45 && b[10] == 32 && b[13] == 58 && b[16] == 58
            &&& all_digit_bytes(b.subrange(0, 4)) && all_digit_bytes(b.subrange(5, 7))
            &&& all_digit_bytes(b.subrange(8, 10)) && all_digit_bytes(b.subrange(11, 13))
            &&& all_digit_bytes(b.subrange(14, 16)) && all_digit_bytes(b.subrange(17, 19))
            &&& utc_fields(b).3 <= 23 && utc_fields(b).4 <= 59 && utc_fields(b).5 <= 59
            &&& valid_date(utc_fields(b).0, utc_fields(b).1, utc_fields(b).2)
            &&& utc_fields(b).0 >= 1970
        },
        parse_utc_spec(b) matches Some(t) ==> t == day_number(utc_fields(b).0, utc_fields(b).1, utc_fields(b).2)
            * 86400 + utc_fields(b).3 * 3600 + utc_fields(b).4 * 60 + utc_fields(b).5,
{
    if b.len() == 19 && b[4] == 45 && b[7] == 45 && b[10] == 32 && b[13] == 58 && b[16] == 58 {
        let (y, m, d, h, mi, s) = utc_fields(b);
        if all_digit_bytes(b.subrange(0, 4)) && all_digit_bytes(b.subrange(5, 7)) && all_digit_bytes(
            b.subrange(8, 10),
        ) && all_digit_bytes(b.subrange(11, 13)) && all_digit_bytes(b.subrange(14, 16))
            && all_digit_bytes(b.subrange(17, 19)) && valid_date(y, m, d) {
            lemma_digits_value_bound(b.subrange(11, 13));
            lemma_digits_value_bound(b.subrange(14, 16));
            lemma_digits_value_bound(b.subrange(17, 19));
            let dn = day_number(y, m, d);
            if y >= 1970 {
                assert(dn >= 0) by {
                    let yy = if m <= 2 { y - 1 } else { y };
                    if m <= 2 {
                        assert(yy >= 1969);
                        lemma_year_count_monotone(1969, yy);
                    } else {
                        lemma_year_count_monotone(1970, yy);
                    }
                }
            } else if h <= 23 && mi <= 59 && s <= 59 {
                if dn >= 0 {
                    lemma_days_year_lower_bound(y, m, d);
                }
                assert(dn * 86400 + h * 3600 + mi * 60 + s < 0) by (nonlinear_arith)
                    requires
                        dn < 0,
                        0 <= h <= 23,
                        0 <= mi <= 59,
                        0 <= s <= 59,
                ;
            }
        }
    }
}

} // verus!
