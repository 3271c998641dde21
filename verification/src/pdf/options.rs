//! Options that change how the PDF is written (not how it is laid out):
//! document metadata and the dates and producer string of the Info
//! dictionary.
use vstd::prelude::*;
use crate::text::{is_blank, padded_decimal, padded_signed, push_char, push_decimal, push_padded_decimal, spec_is_blank};

verus! {

/// The document metadata written to the PDF Info dictionary.
#[derive(Debug, Clone, PartialEq, Eq)]
pub struct DocumentMetadata {
    /// The title given as an option; when absent the HTML `<title>` is used
    /// (see [`DocumentMetadata::fill_title_from_document`]).
    pub title: Option<String>,
    pub author: Option<String>,
    pub subject: Option<String>,
    pub keywords: Option<String>,
}

impl Default for DocumentMetadata {
    fn default() -> (r: Self)
        ensures
            r.title is None,
            r.author is None,
            r.subject is None,
            r.keywords is None,
    {
        DocumentMetadata { title: None, author: None, subject: None, keywords: None }
    }
}

impl DocumentMetadata {
    /// Takes the HTML `<title>` as the title, but only when no title was
    /// given and the document title is not blank.
    pub fn fill_title_from_document(&mut self, document_title: Option<String>)
        ensures
            old(self).title is Some ==> final(self).title == old(self).title,
            old(self).title is None ==> final(self).title == match document_title {
                Some(t) => if spec_is_blank(t@) {
                    None
                } else {
                    Some(t)
                },
                None => None,
            },
            final(self).author == old(self).author,
            final(self).subject == old(self).subject,
            final(self).keywords == old(self).keywords,
    {
        if self.title.is_none() {
            self.title = match document_title {
                Some(t) => if is_blank(t.as_str()) {
                    None
                } else {
                    Some(t)
                },
                None => None,
            };
        }
    }
}

/// The version of this library.
pub const PACKAGE_VERSION: &'static str = "0.1.0";

/// The value written to the Info dictionary's `/Producer`: the name of the
/// renderer and its version.
pub fn producer_string() -> (r: String)
    ensures
        r@ == "sghtmltopdf "@ + PACKAGE_VERSION@,
{
    let mut out = String::from_str("sghtmltopdf ");
    out.append(PACKAGE_VERSION);
    out
}

/// The day number (days since 1970-01-01) of the proleptic Gregorian date
/// `y`-`m`-`d`.
pub open spec fn days_from_civil(y: int, m: int, d: int) -> int {
    let y1 = if m <= 2 { y - 1 } else { y };
    let era = y1 / 400;
    let yoe = y1 - era * 400;
    let mp = if m > 2 { m - 3 } else { m + 9 };
    let doy = (153 * mp + 2) / 5 + d - 1;
    let doe = yoe * 365 + yoe / 4 - yoe / 100 + doy;
    era * 146097 + doe - 719468
}

/// The proleptic Gregorian date (year, month, day) of day number `z`
/// (days since 1970-01-01).
pub open spec fn civil_of_days(z: int) -> (int, int, int) {
    let z1 = z + 719468;
    let era = z1 / 146097;
    let doe = z1 - era * 146097;
    let yoe = (doe - doe / 1460 + doe / 36524 - doe / 146096) / 365;
    let y = yoe + era * 400;
    let doy = doe - (365 * yoe + yoe / 4 - yoe / 100);
    let mp = (5 * doy + 2) / 153;
    let d = doy - (153 * mp + 2) / 5 + 1;
    let m = if mp < 10 { mp + 3 } else { mp - 9 };
    (if m <= 2 { y + 1 } else { y }, m, d)
}

proof fn lemma_year_of_era(doe: int)
    requires
        0 <= doe <= 146096,
    ensures
        ({
            let yoe = (doe - doe / 1460 + doe / 36524 - doe / 146096) / 365;
            let doy = doe - (365 * yoe + yoe / 4 - yoe / 100);
            &&& 0 <= yoe <= 399
            &&& 0 <= doy <= 365
        }),
{
}

proof fn lemma_month_of_year(doy: int)
    requires
        0 <= doy <= 365,
    ensures
        ({
            let mp = (5 * doy + 2) / 153;
            let d = doy - (153 * mp + 2) / 5 + 1;
            &&& 0 <= mp <= 11
            &&& 1 <= d <= 31
            &&& (153 * mp + 2) / 5 + d - 1 == doy
        }),
{
}

/// Every day number names a calendar date with a month in 1..=12 and a day
/// in 1..=31, and converting that date back gives the same day number: the
/// conversion from day numbers to dates loses nothing.
pub proof fn lemma_civil_of_days_round_trips(z: int)
    ensures
        ({
            let (y, m, d) = civil_of_days(z);
            &&& 1 <= m <= 12
            &&& 1 <= d <= 31
            &&& days_from_civil(y, m, d) == z
        }),
{
    let z1 = z + 719468;
    let era = z1 / 146097;
    let doe = z1 - era * 146097;
    assert(0 <= doe < 146097);
    lemma_year_of_era(doe);
    let yoe = (doe - doe / 1460 + doe / 36524 - doe / 146096) / 365;
    let doy = doe - (365 * yoe + yoe / 4 - yoe / 100);
    lemma_month_of_year(doy);
    let y1 = yoe + era * 400;
    assert(y1 / 400 == era) by {
        vstd::arithmetic::div_mod::lemma_div_multiples_vanish_fancy(era, yoe, 400);
    }
}

/// Whether `y` is a leap year of the Gregorian calendar.
pub open spec fn is_leap_year(y: int) -> bool {
    (y % 4 == 0 && y % 100 != 0) || y % 400 == 0
}

/// The number of days of month `m` of year `y`.
pub open spec fn days_in_month(y: int, m: int) -> int {
    if m == 2 {
        if is_leap_year(y) {
            29
        } else {
            28
        }
    } else if m == 4 || m == 6 || m == 9 || m == 11 {
        30
    } else {
        31
    }
}

proof fn lemma_day_fits_its_month(doy: int)
    requires
        0 <= doy <= 365,
    ensures
        ({
            let mp = (5 * doy + 2) / 153;
            let d = doy - (153 * mp + 2) / 5 + 1;
            &&& (mp == 1 || mp == 3 || mp == 6 || mp == 8) ==> d <= 30
            &&& mp == 11 ==> d <= 29
            &&& mp == 11 && d == 29 ==> doy == 365
        }),
{
}

proof fn lemma_last_day_of_era_year(doe: int)
    requires
        0 <= doe <= 146096,
    ensures
        ({
            let yoe = (doe - doe / 1460 + doe / 36524 - doe / 146096) / 365;
            let doy = doe - (365 * yoe + yoe / 4 - yoe / 100);
            doy == 365 ==> yoe % 4 == 3 && (yoe % 100 != 99 || yoe == 399)
        }),
{
}

/// Every day number names a valid calendar date: a month in 1..=12 and a
/// day no later than the last of that month (30 in April, June, September
/// and November, 29 in February of a leap year and 28 otherwise, 31 in the
/// other months).
pub proof fn lemma_civil_of_days_is_a_calendar_date(z: int)
    ensures
        ({
            let (y, m, d) = civil_of_days(z);
            &&& 1 <= m <= 12
            &&& 1 <= d <= days_in_month(y, m)
        }),
{
    lemma_civil_of_days_round_trips(z);
    let z1 = z + 719468;
    let era = z1 / 146097;
    let doe = z1 - era * 146097;
    assert(0 <= doe < 146097);
    lemma_year_of_era(doe);
    let yoe = (doe - doe / 1460 + doe / 36524 - doe / 146096) / 365;
    let doy = doe - (365 * yoe + yoe / 4 - yoe / 100);
    lemma_month_of_year(doy);
    lemma_day_fits_its_month(doy);
    lemma_last_day_of_era_year(doe);
    let y = yoe + era * 400;
    let (cy, m, d) = civil_of_days(z);
    if m == 2 && d == 29 {
        assert(cy == y + 1);
        assert(yoe % 4 == 3 && (yoe % 100 != 99 || yoe == 399));
        assert(is_leap_year(cy)) by {
            vstd::arithmetic::div_mod::lemma_mod_multiples_vanish(era * 100, yoe + 1, 4);
            vstd::arithmetic::div_mod::lemma_mod_multiples_vanish(era * 4, yoe + 1, 100);
            vstd::arithmetic::div_mod::lemma_mod_multiples_vanish(era, yoe + 1, 400);
            assert(cy == 4 * (era * 100) + (yoe + 1));
            assert(cy == 100 * (era * 4) + (yoe + 1));
            assert(cy == 400 * era + (yoe + 1));
        }
    }
}

/// The UTC calendar date and time of the Unix time `secs`: year, month,
/// day, hour, minute, second.
pub open spec fn datetime_of_unix(secs: int) -> (int, int, int, int, int, int) {
    let days = secs / 86400;
    let rem = secs % 86400;
    let (y, m, d) = civil_of_days(days);
    (y, m, d, rem / 3600, (rem % 3600) / 60, rem % 60)
}

/// A calendar date and time converts back to the Unix time it came from,
/// and every field is in its range.
pub proof fn lemma_datetime_of_unix_round_trips(secs: int)
    ensures
        ({
            let (y, m, d, hh, mm, ss) = datetime_of_unix(secs);
            &&& 1 <= m <= 12
            &&& 1 <= d <= 31
            &&& d <= days_in_month(y, m)
            &&& 0 <= hh < 24
            &&& 0 <= mm < 60
            &&& 0 <= ss < 60
            &&& days_from_civil(y, m, d) * 86400 + hh * 3600 + mm * 60 + ss == secs
        }),
{
    let days = secs / 86400;
    lemma_civil_of_days_round_trips(days);
    lemma_civil_of_days_is_a_calendar_date(days);
    let rem = secs % 86400;
    assert(secs == days * 86400 + rem) by {
        vstd::arithmetic::div_mod::lemma_fundamental_div_mod(secs, 86400);
    }
}

/// Day number and date of `z`, computed with machine integers.
fn civil_from_days(z: i64) -> (r: (i64, u32, u32))
    requires
        -0x8000_0000_0000 <= z <= 0x8000_0000_0000,
    ensures
        (r.0 as int, r.1 as int, r.2 as int) == civil_of_days(z as int),
        -0x4000_0000_0000 <= r.0 <= 0x4000_0000_0000,
{
    let z1: i64 = z + 719_468;
    let era: i64 = if z1 >= 0 {
        z1 / 146_097
    } else {
        let a: i64 = -z1 + 146_096;
        -(a / 146_097)
    };
    proof {
        if z1 < 0 {
            let q = (z1 as int) / 146097;
            let r = (z1 as int) % 146097;
            vstd::arithmetic::div_mod::lemma_fundamental_div_mod(z1 as int, 146097);
            assert(-z1 + 146096 == 146097 * (-q) + (146096 - r));
            vstd::arithmetic::div_mod::lemma_div_multiples_vanish_fancy(-q, 146096 - r, 146097);
        }
        assert(era == (z1 as int) / 146097);
    }
    let doe: i64 = z1 - era * 146_097;
    assert(0 <= doe < 146097) by {
        vstd::arithmetic::div_mod::lemma_fundamental_div_mod(z1 as int, 146097);
    }
    assert(-0x4000_0000 <= era <= 0x4000_0000);
    proof {
        lemma_year_of_era(doe as int);
    }
    let yoe: i64 = (doe - doe / 1460 + doe / 36_524 - doe / 146_096) / 365;
    let y: i64 = yoe + era * 400;
    let doy: i64 = doe - (365 * yoe + yoe / 4 - yoe / 100);
    proof {
        lemma_month_of_year(doy as int);
    }
    let mp: i64 = (5 * doy + 2) / 153;
    let d = (doy - (153 * mp + 2) / 5 + 1) as u32;
    let m: u32 = if mp < 10 {
        (mp + 3) as u32
    } else {
        (mp - 9) as u32
    };
    (if m <= 2 {
        y + 1
    } else {
        y
    }, m, d)
}

/// Splits a Unix time into its UTC year, month, day, hour, minute and
/// second.
pub fn datetime_from_unix(secs: i64) -> (r: (i64, u32, u32, u32, u32, u32))
    ensures
        (r.0 as int, r.1 as int, r.2 as int, r.3 as int, r.4 as int, r.5 as int) == datetime_of_unix(
            secs as int,
        ),
{
    let s: i128 = secs as i128;
    let (days, rem): (i128, i128) = if s >= 0 {
        (s / 86_400, s % 86_400)
    } else {
        let a: i128 = -s + 86_399;
        let q: i128 = -(a / 86_400);
        (q, s - q * 86_400)
    };
    proof {
        vstd::arithmetic::div_mod::lemma_fundamental_div_mod(s as int, 86400);
        if s < 0 {
            let q = (s as int) / 86400;
            let r = (s as int) % 86400;
            assert(-s + 86399 == 86400 * (-q) + (86399 - r));
            vstd::arithmetic::div_mod::lemma_div_multiples_vanish_fancy(-q, 86399 - r, 86400);
        }
        assert(days == (s as int) / 86400);
        assert(rem == (s as int) % 86400);
    }
    assert(-0x8000_0000_0000 <= days <= 0x8000_0000_0000) by (nonlinear_arith)
        requires
            s == days * 86400 + rem,
            0 <= rem < 86400,
            -0x8000_0000_0000_0000 <= s < 0x8000_0000_0000_0000,
    ;
    let (year, month, day) = civil_from_days(days as i64);
    let rem = rem as u32;
    (year, month, day, rem / 3600, (rem % 3600) / 60, rem % 60)
}

/// The PDF date string `D:YYYYMMDDHHmmSSZ` of a date and time.
pub open spec fn pdf_date_string(t: (int, int, int, int, int, int)) -> Seq<char> {
    seq!['D', ':'] + padded_signed(t.0, 4) + padded_decimal(t.1 as nat, 2) + padded_decimal(t.2 as nat, 2)
        + padded_decimal(t.3 as nat, 2) + padded_decimal(t.4 as nat, 2) + padded_decimal(t.5 as nat, 2)
        + seq!['Z']
}

/// The PDF date string (`D:YYYYMMDDHHmmSSZ`, always UTC) of the Unix time
/// `secs`.
pub fn pdf_date_from_unix(secs: i64) -> (r: String)
    ensures
        r@ == pdf_date_string(datetime_of_unix(secs as int)),
{
    let (year, month, day, hour, minute, second) = datetime_from_unix(secs);
    let ghost t = datetime_of_unix(secs as int);
    proof {
        lemma_datetime_of_unix_round_trips(secs as int);
    }
    let mut out = String::new();
    push_char(&mut out, 'D');
    push_char(&mut out, ':');
    if year < 0 {
        push_char(&mut out, '-');
        push_padded_decimal(&mut out, (-year) as u64, 3);
    } else {
        push_padded_decimal(&mut out, year as u64, 4);
    }
    push_padded_decimal(&mut out, month as u64, 2);
    push_padded_decimal(&mut out, day as u64, 2);
    push_padded_decimal(&mut out, hour as u64, 2);
    push_padded_decimal(&mut out, minute as u64, 2);
    push_padded_decimal(&mut out, second as u64, 2);
    push_char(&mut out, 'Z');
    assert(out@ =~= pdf_date_string(t));
    out
}

} // verus!

verus! {

/// `std::time::SystemTime`, a reading of the system clock.
#[verifier::external_type_specification]
#[verifier::external_body]
pub struct ExSystemTime(std::time::SystemTime);

/// `SystemTime::now`: the current reading of the system clock. Nothing is
/// promised of it.
#[verifier::external_body]
fn clock_now() -> std::time::SystemTime {
    std::time::SystemTime::now()
}

/// `std::time::SystemTimeError`: a clock reading that lies before the
/// time it was measured from.
#[verifier::external_type_specification]
#[verifier::external_body]
pub struct ExSystemTimeError(std::time::SystemTimeError);

/// `SystemTime::duration_since(UNIX_EPOCH)`: the time from the epoch to the
/// reading, or an error when the reading lies before the epoch. The value
/// depends on the clock: nothing is promised of it.
#[verifier::external_body]
fn time_since_epoch(t: std::time::SystemTime) -> Result<std::time::Duration, std::time::SystemTimeError> {
    t.duration_since(std::time::UNIX_EPOCH)
}

/// `Duration::as_secs`: the whole seconds of `d`. `Duration` is opaque
/// here, so nothing is promised of the number.
#[verifier::external_body]
fn whole_seconds(d: &std::time::Duration) -> u64 {
    d.as_secs()
}

/// The whole seconds from the epoch to a clock reading, `None` when the
/// reading lies before the epoch.
fn seconds_since_epoch(t: std::time::SystemTime) -> Option<u64> {
    match time_since_epoch(t) {
        Ok(d) => Some(whole_seconds(&d)),
        Err(_) => None,
    }
}

/// The Unix time of a clock reading in seconds (`as i64`), falling back to
/// the epoch when the reading lies before it.
pub fn seconds_from_clock(reading: Option<u64>) -> (secs: i64)
    ensures
        secs == match reading {
            Some(s) => s as i64,
            None => 0i64,
        },
{
    match reading {
        Some(s) => s as i64,
        None => 0,
    }
}

/// The current UTC date and time (year, month, day, hour, minute, second),
/// or the epoch when the system clock cannot be read.
pub fn current_datetime() -> (r: (i64, u32, u32, u32, u32, u32))
    ensures
        exists|secs: i64|
            (r.0 as int, r.1 as int, r.2 as int, r.3 as int, r.4 as int, r.5 as int) == datetime_of_unix(
                secs as int,
            ),
{
    let secs = seconds_from_clock(seconds_since_epoch(clock_now()));
    datetime_from_unix(secs)
}

/// The current time as a PDF date string (`D:YYYYMMDDHHmmSSZ`, UTC), or
/// the epoch's when the system clock cannot be read.
pub fn current_pdf_date() -> (r: String)
    ensures
        exists|secs: i64| r@ == pdf_date_string(datetime_of_unix(secs as int)),
{
    let secs = seconds_from_clock(seconds_since_epoch(clock_now()));
    pdf_date_from_unix(secs)
}

} // verus!
