//! Timestamp normalization and calendar dates.
//!
//! A source instant is given in microseconds since the Unix epoch.  It is
//! normalized to whole seconds (the fraction below one second is truncated,
//! not rounded) and, where a date-based naming policy asks for it, rendered
//! as the calendar date of that instant in a configured zone, `YYYY-MM-DD`.
//!
//! The proleptic Gregorian calendar is modeled directly: `day_index` maps a
//! calendar date to its day number counted from January 1 of year 1, and
//! the conversion back to a date is proved to invert it.  The zone is an
//! explicit offset, never ambient state, so a run can pin it.

use vstd::prelude::*;
use vstd::arithmetic::div_mod::lemma_div_is_ordered;
use vstd::arithmetic::div_mod::lemma_div_is_ordered_by_denominator;
use vstd::arithmetic::div_mod::lemma_div_pos_is_pos;
use vstd::arithmetic::div_mod::lemma_fundamental_div_mod;
use vstd::arithmetic::div_mod::lemma_mod_division_less_than_divisor;
use vstd::arithmetic::div_mod::lemma_fundamental_div_mod_converse;
use vstd::string::StringExecFns;
use crate::note::ConvertError;

verus! {

/// Microseconds in one second.
pub const USECS_PER_SEC: u64 = 1_000_000;

/// Seconds in one day.
pub const SECS_PER_DAY: u64 = 86_400;

/// The last representable instant, in whole seconds since the Unix epoch:
/// the last second of year 262143.  A source timestamp whose second count
/// lies above this is rejected as `InvalidTimestamp`.
pub const MAX_EPOCH_SECS: u64 = 8_210_298_412_799;

/// Days from January 1 of year 1 to January 1 of 1970, the Unix epoch.
pub const DAYS_TO_UNIX_EPOCH: u64 = 719_162;

/// The greatest renderable day index: January 1 of year 262144, one day
/// past the last representable instant, reachable from it through a
/// positive zone offset.
pub const MAX_DAY_INDEX: u64 = 95_745_764;

/// Whether a year of the proleptic Gregorian calendar is a leap year.
pub open spec fn is_leap_year(y: int) -> bool {
    y % 4 == 0 && (y % 100 != 0 || y % 400 == 0)
}

/// Days in the given year: 365, or 366 in a leap year.
pub open spec fn days_in_year(y: int) -> int {
    if is_leap_year(y) {
        366
    } else {
        365
    }
}

/// Leap years among years 1 to y-1.
pub open spec fn leap_days_before(y: int) -> int {
    (y - 1) / 4 - (y - 1) / 100 + (y - 1) / 400
}

/// Days from January 1 of year 1 to January 1 of year y.
pub open spec fn days_before_year(y: int) -> int {
    365 * (y - 1) + leap_days_before(y)
}

/// Days in the given month (1 to 12) of the given year.
pub open spec fn days_in_month(y: int, m: int) -> int {
    if m == 2 {
        if is_leap_year(y) {
            29
        } else {
            28
        }
    } else if m == 4 || m == 6 || m == 9 || m == 11 {
        30
    } else {
        31
    }
}

/// Days from January 1 to the first day of month m in year y.
pub open spec fn days_before_month(y: int, m: int) -> int
    decreases m,
{
    if m <= 1 {
        0
    } else {
        days_before_month(y, m - 1) + days_in_month(y, m - 1)
    }
}

/// Whether (y, m, d) names a day of the proleptic Gregorian calendar,
/// year 1 or later.
pub open spec fn valid_civil(y: int, m: int, d: int) -> bool {
    1 <= y && 1 <= m <= 12 && 1 <= d <= days_in_month(y, m)
}

/// The day number of a calendar date, counted from January 1 of year 1
/// (which has day index 0).
pub open spec fn day_index(y: int, m: int, d: int) -> int {
    days_before_year(y) + days_before_month(y, m) + d - 1
}

/// A calendar date of the proleptic Gregorian calendar, year 1 or later.
#[derive(PartialEq, Eq, Structural, Clone, Copy, Debug)]
pub struct CivilDate {
    pub year: u64,
    pub month: u8,
    pub day: u8,
}

impl CivilDate {
    /// The fields name a real day.
    pub open spec fn wf(self) -> bool {
        valid_civil(self.year as int, self.month as int, self.day as int)
    }

    /// The date's day number, counted from January 1 of year 1.
    pub open spec fn index(self) -> int {
        day_index(self.year as int, self.month as int, self.day as int)
    }
}

/// The calendar date with the given day index: day indices and valid dates
/// correspond one to one (`lemma_civil_unique`).
pub open spec fn civil_of_index(n: int) -> CivilDate {
    choose|d: CivilDate| d.wf() && d.index() == n
}

/// How a quotient moves when the dividend steps down by one: it drops
/// exactly at the multiples of the divisor.
proof fn lemma_div_step(y: int, d: int)
    requires
        y >= 1,
        d >= 1,
    ensures
        y / d == (y - 1) / d + if y % d == 0 {
            1int
        } else {
            0int
        },
{
    let q = (y - 1) / d;
    let r = (y - 1) % d;
    lemma_fundamental_div_mod(y - 1, d);
    if r == d - 1 {
        assert(y == (q + 1) * d + 0) by (nonlinear_arith)
            requires
                y - 1 == d * q + r,
                r == d - 1,
        ;
        lemma_fundamental_div_mod_converse(y, d, q + 1, 0);
    } else {
        lemma_fundamental_div_mod_converse(y, d, q, r + 1);
    }
}

/// A multiple of 400 is a multiple of 100, and a multiple of 100 one of 4.
proof fn lemma_mod_implications(y: int)
    ensures
        y % 400 == 0 ==> y % 100 == 0,
        y % 100 == 0 ==> y % 4 == 0,
{
    if y % 400 == 0 {
        lemma_fundamental_div_mod(y, 400);
        lemma_fundamental_div_mod_converse(y, 100, 4 * (y / 400), 0);
    }
    if y % 100 == 0 {
        lemma_fundamental_div_mod(y, 100);
        lemma_fundamental_div_mod_converse(y, 4, 25 * (y / 100), 0);
    }
}

/// There are no leap years before year 1.
proof fn lemma_leap_days_nonneg(y: int)
    requires
        y >= 1,
    ensures
        0 <= leap_days_before(y),
{
    lemma_div_is_ordered_by_denominator(y - 1, 4, 100);
    lemma_div_pos_is_pos(y - 1, 400);
}

/// Stepping a year forward adds exactly that year's day count.
proof fn lemma_days_before_year_succ(y: int)
    requires
        y >= 1,
    ensures
        days_before_year(y + 1) == days_before_year(y) + days_in_year(y),
{
    lemma_div_step(y, 4);
    lemma_div_step(y, 100);
    lemma_div_step(y, 400);
    lemma_mod_implications(y);
}

/// `days_before_year` grows with the year.
proof fn lemma_days_before_year_mono(y1: int, y2: int)
    requires
        1 <= y1 <= y2,
    ensures
        days_before_year(y1) <= days_before_year(y2),
    decreases y2 - y1,
{
    if y1 < y2 {
        lemma_days_before_year_succ(y2 - 1);
        lemma_days_before_year_mono(y1, y2 - 1);
    }
}

/// A whole year lies between consecutive January firsts.
proof fn lemma_days_before_year_gap(y1: int, y2: int)
    requires
        1 <= y1 < y2,
    ensures
        days_before_year(y1) + days_in_year(y1) <= days_before_year(y2),
{
    lemma_days_before_year_succ(y1);
    lemma_days_before_year_mono(y1 + 1, y2);
}

/// `days_before_month` grows with the month.
proof fn lemma_days_before_month_mono(y: int, m1: int, m2: int)
    requires
        1 <= m1 <= m2,
    ensures
        days_before_month(y, m1) <= days_before_month(y, m2),
    decreases m2 - m1,
{
    if m1 < m2 {
        lemma_days_before_month_mono(y, m1, m2 - 1);
    }
}

/// The twelve months make up the year exactly.
proof fn lemma_months_fill_year(y: int)
    ensures
        days_before_month(y, 13) == days_in_year(y),
{
    assert(days_before_month(y, 2) == days_before_month(y, 1) + days_in_month(y, 1));
    assert(days_before_month(y, 3) == days_before_month(y, 2) + days_in_month(y, 2));
    assert(days_before_month(y, 4) == days_before_month(y, 3) + days_in_month(y, 3));
    assert(days_before_month(y, 5) == days_before_month(y, 4) + days_in_month(y, 4));
    assert(days_before_month(y, 6) == days_before_month(y, 5) + days_in_month(y, 5));
    assert(days_before_month(y, 7) == days_before_month(y, 6) + days_in_month(y, 6));
    assert(days_before_month(y, 8) == days_before_month(y, 7) + days_in_month(y, 7));
    assert(days_before_month(y, 9) == days_before_month(y, 8) + days_in_month(y, 8));
    assert(days_before_month(y, 10) == days_before_month(y, 9) + days_in_month(y, 9));
    assert(days_before_month(y, 11) == days_before_month(y, 10) + days_in_month(y, 10));
    assert(days_before_month(y, 12) == days_before_month(y, 11) + days_in_month(y, 11));
    assert(days_before_month(y, 13) == days_before_month(y, 12) + days_in_month(y, 12));
}

/// A valid date's index lies within its year's range of day numbers.
proof fn lemma_index_in_year(y: int, m: int, d: int)
    requires
        valid_civil(y, m, d),
    ensures
        days_before_year(y) <= day_index(y, m, d),
        day_index(y, m, d) < days_before_year(y) + days_in_year(y),
{
    lemma_days_before_month_mono(y, 1, m);
    lemma_days_before_month_mono(y, m + 1, 13);
    lemma_months_fill_year(y);
}

/// Day indices and valid dates correspond one to one.
pub proof fn lemma_civil_unique(d1: CivilDate, d2: CivilDate)
    requires
        d1.wf(),
        d2.wf(),
        d1.index() == d2.index(),
    ensures
        d1 == d2,
{
    let (y1, m1, dd1) = (d1.year as int, d1.month as int, d1.day as int);
    let (y2, m2, dd2) = (d2.year as int, d2.month as int, d2.day as int);
    lemma_index_in_year(y1, m1, dd1);
    lemma_index_in_year(y2, m2, dd2);
    if y1 < y2 {
        lemma_days_before_year_gap(y1, y2);
    }
    if y2 < y1 {
        lemma_days_before_year_gap(y2, y1);
    }
    assert(y1 == y2);
    if m1 < m2 {
        lemma_days_before_month_mono(y1, m1 + 1, m2);
    }
    if m2 < m1 {
        lemma_days_before_month_mono(y1, m2 + 1, m1);
    }
    assert(m1 == m2);
}

/// A date with a renderable day index has a year of fewer than seven
/// digits.
pub proof fn lemma_renderable_year_bound(d: CivilDate)
    requires
        d.wf(),
        d.index() <= MAX_DAY_INDEX,
    ensures
        d.year < 1_000_000,
{
    lemma_leap_days_nonneg(d.year as int);
    assert(days_before_month(d.year as int, d.month as int) >= 0) by {
        lemma_days_before_month_mono(d.year as int, 1, d.month as int);
    }
}

fn is_leap_year_x(y: u64) -> (r: bool)
    ensures
        r == is_leap_year(y as int),
{
    y % 4 == 0 && (y % 100 != 0 || y % 400 == 0)
}

fn days_in_year_x(y: u64) -> (r: u64)
    ensures
        r == days_in_year(y as int),
{
    if is_leap_year_x(y) {
        366
    } else {
        365
    }
}

fn days_in_month_x(y: u64, m: u8) -> (r: u64)
    requires
        1 <= m <= 12,
    ensures
        r == days_in_month(y as int, m as int),
{
    if m == 2 {
        if is_leap_year_x(y) {
            29
        } else {
            28
        }
    } else if m == 4 || m == 6 || m == 9 || m == 11 {
        30
    } else {
        31
    }
}

/// The calendar date with the given day index (counted from January 1 of
/// year 1).
pub fn civil_from_day_index(n: u64) -> (r: CivilDate)
    requires
        n <= MAX_DAY_INDEX,
    ensures
        r.wf(),
        r.index() == n,
        r == civil_of_index(n as int),
{
    let mut y: u64 = 1;
    let mut acc: u64 = 0;
    let mut diy = days_in_year_x(y);
    while acc + diy <= n
        invariant
            1 <= y,
            n <= MAX_DAY_INDEX,
            acc == days_before_year(y as int),
            365 * (y as int - 1) <= acc,
            acc <= n,
            diy == days_in_year(y as int),
        decreases n - acc,
    {
        proof {
            lemma_days_before_year_succ(y as int);
            lemma_leap_days_nonneg(y as int + 1);
        }
        acc = acc + diy;
        y = y + 1;
        diy = days_in_year_x(y);
    }
    proof {
        lemma_months_fill_year(y as int);
    }
    let mut m: u8 = 1;
    let mut rem: u64 = n - acc;
    let mut dim = days_in_month_x(y, m);
    while m < 12 && rem >= dim
        invariant
            1 <= m <= 12,
            days_before_year(y as int) <= n,
            n - days_before_year(y as int) < days_in_year(y as int),
            rem == n - days_before_year(y as int) - days_before_month(y as int, m as int),
            dim == days_in_month(y as int, m as int),
            days_before_month(y as int, 13) == days_in_year(y as int),
        decreases 12 - m,
    {
        rem = rem - dim;
        m = m + 1;
        dim = days_in_month_x(y, m);
    }
    proof {
        if m == 12 {
            assert(days_before_month(y as int, 13) == days_before_month(y as int, 12)
                + days_in_month(y as int, 12));
        }
        assert(rem < dim);
    }
    let date = CivilDate { year: y, month: m, day: (rem + 1) as u8 };
    proof {
        let nn = n as int;
        assert(date.wf() && date.index() == nn);
        assert(exists|d: CivilDate| d.wf() && d.index() == nn);
        lemma_civil_unique(date, civil_of_index(nn));
    }
    date
}

/// A time zone, as its fixed offset east of UTC in seconds, strictly
/// between minus and plus one day.
#[derive(PartialEq, Eq, Structural, Clone, Copy, Debug)]
pub struct ZoneOffset {
    secs: i32,
}

impl ZoneOffset {
    /// The offset east of UTC, in seconds.
    pub closed spec fn spec_secs(self) -> int {
        self.secs as int
    }

    /// The offset lies strictly between minus and plus one day.
    pub open spec fn wf(self) -> bool {
        -86_400 < self.spec_secs() < 86_400
    }

    /// A zone from its offset east of UTC in seconds; rejected unless it
    /// lies strictly between minus and plus one day.
    pub fn new(secs: i32) -> (r: Option<ZoneOffset>)
        ensures
            r is Some <==> -86_400 < secs < 86_400,
            r is Some ==> r.unwrap().spec_secs() == secs && r.unwrap().wf(),
    {
        if -86_400 < secs && secs < 86_400 {
            Some(ZoneOffset { secs })
        } else {
            None
        }
    }

    /// The UTC zone itself.
    pub fn utc() -> (r: ZoneOffset)
        ensures
            r.spec_secs() == 0,
            r.wf(),
    {
        ZoneOffset { secs: 0 }
    }

    /// The offset east of UTC, in seconds.
    pub fn seconds_east(&self) -> (r: i32)
        ensures
            r as int == self.spec_secs(),
    {
        self.secs
    }
}

/// Relies on chrono::Local::now for the invoking user's current UTC
/// offset; chrono constructs every FixedOffset through bounds checks that
/// keep it strictly between minus and plus 86400 seconds.
#[verifier::external_body]
fn current_local_offset_secs() -> (r: i32)
    ensures
        -86_400 < r < 86_400,
{
    chrono::Local::now().offset().local_minus_utc()
}

/// The invoking user's current time zone, as a fixed offset.  Queried once
/// and passed in explicitly wherever a local calendar date is rendered.
pub fn local_zone() -> (r: ZoneOffset)
    ensures
        r.wf(),
{
    let secs = current_local_offset_secs();
    ZoneOffset { secs }
}

/// A normalized source instant: whole seconds since the Unix epoch, UTC,
/// and the calendar date of the instant in the configured zone.
#[derive(PartialEq, Eq, Structural, Clone, Copy, Debug)]
pub struct Normalized {
    pub utc_secs: u64,
    pub date: CivilDate,
}

/// Whether a microsecond timestamp corresponds to a representable instant.
pub open spec fn timestamp_in_range(usec: int) -> bool {
    0 <= usec && usec / (USECS_PER_SEC as int) <= MAX_EPOCH_SECS
}

/// The day index of an instant shifted into a zone: seconds are counted
/// from the Unix epoch, days from January 1 of year 1.
pub open spec fn local_day_index(utc_secs: int, zone_secs: int) -> int {
    (utc_secs + zone_secs) / (SECS_PER_DAY as int) + DAYS_TO_UNIX_EPOCH
}

/// What `normalize_timestamp` returns on a representable timestamp: the
/// second count with the microsecond fraction truncated, and the calendar
/// date of that instant in the zone.
pub open spec fn normalize_ok(usec: int, zone: ZoneOffset, r: Normalized) -> bool {
    &&& r.utc_secs == usec / (USECS_PER_SEC as int)
    &&& r.date.wf()
    &&& r.date.index() == local_day_index(r.utc_secs as int, zone.spec_secs())
    &&& r.date == civil_of_index(local_day_index(r.utc_secs as int, zone.spec_secs()))
}

/// Normalizes a source timestamp, in microseconds since the Unix epoch, to
/// a whole-second UTC instant and its calendar date in the given zone.
///
/// Fails with `InvalidTimestamp` exactly when the timestamp lies beyond
/// the last representable instant.
pub fn normalize_timestamp(usec: u64, zone: &ZoneOffset) -> (r: Result<Normalized, ConvertError>)
    requires
        zone.wf(),
    ensures
        r is Ok <==> timestamp_in_range(usec as int),
        r is Ok ==> normalize_ok(usec as int, *zone, r.unwrap()),
        r is Err ==> r == Err::<Normalized, ConvertError>(ConvertError::InvalidTimestamp),
{
    let secs = usec / USECS_PER_SEC;
    if secs > MAX_EPOCH_SECS {
        return Err(ConvertError::InvalidTimestamp);
    }
    let z = zone.seconds_east();
    let local: i64 = secs as i64 + z as i64;
    let n: u64 = if local >= 0 {
        proof {
            lemma_div_is_ordered(local as int, 8_210_298_499_198int, 86_400);
            lemma_fundamental_div_mod_converse(8_210_298_499_198int, 86_400, 95_026_602, 86_398);
        }
        (local as u64) / SECS_PER_DAY + DAYS_TO_UNIX_EPOCH
    } else {
        proof {
            lemma_fundamental_div_mod_converse(local as int, 86_400, -1, local + 86_400);
        }
        DAYS_TO_UNIX_EPOCH - 1
    };
    let date = civil_from_day_index(n);
    Ok(Normalized { utc_secs: secs, date })
}

/// A normalized instant's date lies in the renderable range: from the day
/// before the Unix epoch (reachable through a negative offset) to the day
/// past the last representable instant.
pub proof fn lemma_normalized_day_bounds(usec: int, zone: ZoneOffset, r: Normalized)
    requires
        zone.wf(),
        timestamp_in_range(usec),
        normalize_ok(usec, zone, r),
    ensures
        DAYS_TO_UNIX_EPOCH - 1 <= r.date.index() <= MAX_DAY_INDEX,
        r.date.year < 1_000_000,
{
    let s = r.utc_secs as int;
    let z = zone.spec_secs();
    lemma_div_pos_is_pos(usec, USECS_PER_SEC as int);
    let local = s + z;
    lemma_div_is_ordered(-86_399, local, 86_400);
    lemma_fundamental_div_mod_converse(-86_399, 86_400, -1, 1);
    lemma_div_is_ordered(local, 8_210_298_499_198int, 86_400);
    lemma_fundamental_div_mod_converse(8_210_298_499_198int, 86_400, 95_026_602, 86_398);
    lemma_renderable_year_bound(r.date);
}

/// Normalization is deterministic: under one zone, one timestamp has one
/// normalized form.
pub proof fn lemma_normalize_deterministic(
    usec: int,
    zone: ZoneOffset,
    r1: Normalized,
    r2: Normalized,
)
    requires
        normalize_ok(usec, zone, r1),
        normalize_ok(usec, zone, r2),
    ensures
        r1 == r2,
{
    lemma_civil_unique(r1.date, r2.date);
}

/// Normalization is idempotent: feeding a normalized instant back in, as
/// microseconds, is representable and normalizes to the same value under
/// the same zone.
pub proof fn lemma_normalize_idempotent(
    usec: int,
    zone: ZoneOffset,
    r1: Normalized,
    r2: Normalized,
)
    requires
        timestamp_in_range(usec),
        normalize_ok(usec, zone, r1),
        normalize_ok(r1.utc_secs * USECS_PER_SEC, zone, r2),
    ensures
        timestamp_in_range(r1.utc_secs * USECS_PER_SEC),
        r2 == r1,
{
    lemma_fundamental_div_mod_converse(
        r1.utc_secs * USECS_PER_SEC,
        USECS_PER_SEC as int,
        r1.utc_secs as int,
        0,
    );
    lemma_civil_unique(r1.date, r2.date);
}

fn floor_div_days(secs: i64) -> (r: i64)
    requires
        i64::MIN + 86_400 < secs,
    ensures
        r as int == (secs as int) / 86_400,
{
    if secs >= 0 {
        ((secs as u64) / SECS_PER_DAY) as i64
    } else {
        let pos: u64 = (-secs) as u64;
        let q: u64 = (pos + 86_399) / SECS_PER_DAY;
        proof {
            let p = pos as int;
            let qq = q as int;
            lemma_fundamental_div_mod(p + 86_399, 86_400);
            lemma_mod_division_less_than_divisor(p + 86_399, 86_400);
            assert(p + 86_399 == 86_400 * qq + ((p + 86_399) % 86_400));
            lemma_fundamental_div_mod_converse(secs as int, 86_400, -qq, qq * 86_400 - p);
        }
        -(q as i64)
    }
}

/// The day index of a stored instant in the given zone, where that index
/// is renderable: between January 1 of year 1 and the last renderable day.
/// An instant whose local date falls outside that range is refused.
pub fn local_day_index_checked(secs: i64, zone: &ZoneOffset) -> (r: Option<u64>)
    requires
        zone.wf(),
    ensures
        r is Some <==> 0 <= local_day_index(secs as int, zone.spec_secs()) <= MAX_DAY_INDEX,
        r is Some ==> r.unwrap() as int == local_day_index(secs as int, zone.spec_secs()),
{
    let z = zone.seconds_east() as i64;
    if secs > 8_640_000_000_000_000 {
        proof {
            lemma_div_is_ordered(8_639_999_999_913_600int, secs as int + z, 86_400);
            lemma_fundamental_div_mod_converse(8_639_999_999_913_600int, 86_400, 99_999_999_999, 0);
        }
        None
    } else if secs < -8_640_000_000_000_000 {
        proof {
            lemma_div_is_ordered(secs as int + z, -8_639_999_999_913_600int, 86_400);
            lemma_fundamental_div_mod_converse(-8_639_999_999_913_600int, 86_400, -99_999_999_999, 0);
        }
        None
    } else {
        let local = secs + z;
        let day = floor_div_days(local);
        let idx = day + (DAYS_TO_UNIX_EPOCH as i64);
        if 0 <= idx && idx <= 95_745_764 {
            Some(idx as u64)
        } else {
            None
        }
    }
}

/// The character of one decimal digit.
pub open spec fn digit_char(v: int) -> char {
    if v == 0 {
        '0'
    } else if v == 1 {
        '1'
    } else if v == 2 {
        '2'
    } else if v == 3 {
        '3'
    } else if v == 4 {
        '4'
    } else if v == 5 {
        '5'
    } else if v == 6 {
        '6'
    } else if v == 7 {
        '7'
    } else if v == 8 {
        '8'
    } else {
        '9'
    }
}

/// A value below 100 as two decimal digits.
pub open spec fn two_digits(v: int) -> Seq<char> {
    seq![digit_char(v / 10), digit_char(v % 10)]
}

/// A year as decimal digits: zero-padded to four, longer years (below
/// seven digits) written out in full.
pub open spec fn year_digits(y: int) -> Seq<char> {
    if y < 10_000 {
        seq![
            digit_char(y / 1000),
            digit_char(y / 100 % 10),
            digit_char(y / 10 % 10),
            digit_char(y % 10),
        ]
    } else if y < 100_000 {
        seq![
            digit_char(y / 10_000),
            digit_char(y / 1000 % 10),
            digit_char(y / 100 % 10),
            digit_char(y / 10 % 10),
            digit_char(y % 10),
        ]
    } else {
        seq![
            digit_char(y / 100_000),
            digit_char(y / 10_000 % 10),
            digit_char(y / 1000 % 10),
            digit_char(y / 100 % 10),
            digit_char(y / 10 % 10),
            digit_char(y % 10),
        ]
    }
}

/// A date rendered as `YYYY-MM-DD`.
pub open spec fn date_chars(d: CivilDate) -> Seq<char> {
    year_digits(d.year as int) + seq!['-'] + two_digits(d.month as int) + seq!['-'] + two_digits(
        d.day as int,
    )
}

fn digit_str(v: u64) -> (r: &'static str)
    requires
        v < 10,
    ensures
        r@ == seq![digit_char(v as int)],
{
    if v == 0 {
        proof {
            reveal_strlit("0");
        }
        assert("0"@ =~= seq![digit_char(0)]);
        "0"
    } else if v == 1 {
        proof {
            reveal_strlit("1");
        }
        assert("1"@ =~= seq![digit_char(1)]);
        "1"
    } else if v == 2 {
        proof {
            reveal_strlit("2");
        }
        assert("2"@ =~= seq![digit_char(2)]);
        "2"
    } else if v == 3 {
        proof {
            reveal_strlit("3");
        }
        assert("3"@ =~= seq![digit_char(3)]);
        "3"
    } else if v == 4 {
        proof {
            reveal_strlit("4");
        }
        assert("4"@ =~= seq![digit_char(4)]);
        "4"
    } else if v == 5 {
        proof {
            reveal_strlit("5");
        }
        assert("5"@ =~= seq![digit_char(5)]);
        "5"
    } else if v == 6 {
        proof {
            reveal_strlit("6");
        }
        assert("6"@ =~= seq![digit_char(6)]);
        "6"
    } else if v == 7 {
        proof {
            reveal_strlit("7");
        }
        assert("7"@ =~= seq![digit_char(7)]);
        "7"
    } else if v == 8 {
        proof {
            reveal_strlit("8");
        }
        assert("8"@ =~= seq![digit_char(8)]);
        "8"
    } else {
        proof {
            reveal_strlit("9");
        }
        assert("9"@ =~= seq![digit_char(9)]);
        "9"
    }
}

/// Renders a date as `YYYY-MM-DD`: the year zero-padded to at least four
/// digits, month and day to two.
pub fn format_civil_date(d: &CivilDate) -> (r: String)
    requires
        d.wf(),
        d.year < 1_000_000,
    ensures
        r@ == date_chars(*d),
{
    let mut s = String::new();
    let y = d.year;
    if y < 10_000 {
        s.append(digit_str(y / 1000));
        s.append(digit_str(y / 100 % 10));
        s.append(digit_str(y / 10 % 10));
        s.append(digit_str(y % 10));
    } else if y < 100_000 {
        s.append(digit_str(y / 10_000));
        s.append(digit_str(y / 1000 % 10));
        s.append(digit_str(y / 100 % 10));
        s.append(digit_str(y / 10 % 10));
        s.append(digit_str(y % 10));
    } else {
        s.append(digit_str(y / 100_000));
        s.append(digit_str(y / 10_000 % 10));
        s.append(digit_str(y / 1000 % 10));
        s.append(digit_str(y / 100 % 10));
        s.append(digit_str(y / 10 % 10));
        s.append(digit_str(y % 10));
    }
    proof {
        reveal_strlit("-");
        assert("-"@ =~= seq!['-']);
    }
    s.append("-");
    s.append(digit_str((d.month / 10) as u64));
    s.append(digit_str((d.month % 10) as u64));
    s.append("-");
    s.append(digit_str((d.day / 10) as u64));
    s.append(digit_str((d.day % 10) as u64));
    proof {
        assert(s@ =~= date_chars(*d));
    }
    s
}

} // verus!

