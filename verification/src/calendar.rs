//! Dates of the proleptic Gregorian calendar, and ISO-8601 timestamps.

use crate::number::{decimal, padded_left, push_decimal, push_repeated};
use vstd::arithmetic::div_mod::{
    lemma_fundamental_div_mod, lemma_fundamental_div_mod_converse, lemma_mod_multiples_vanish,
};
use vstd::prelude::*;

verus! {

/// Whether `y` is a leap year.
pub open spec fn is_leap(y: int) -> bool {
    y % 4 == 0 && (y % 100 != 0 || y % 400 == 0)
}

/// How many days the month `m` of the year `y` has.
pub open spec fn days_in_month(y: int, m: int) -> int {
    if m == 2 {
        if is_leap(y) { 29 } else { 28 }
    } else if m == 4 || m == 6 || m == 9 || m == 11 {
        30
    } else {
        31
    }
}

/// Whether the year `y` has a month `m` with a day `d`.
pub open spec fn is_date(y: int, m: int, d: int) -> bool {
    1 <= m <= 12 && 1 <= d <= days_in_month(y, m)
}

/// How many leap years there are from the year 1 to the year `y` (less those
/// from `y + 1` to 0, for a `y` before 1).
pub open spec fn leap_years_to(y: int) -> int {
    y / 4 - y / 100 + y / 400
}

/// The days from 1 January 1970 to 1 January of the year `y`.
pub open spec fn year_start(y: int) -> int {
    365 * (y - 1970) + leap_years_to(y - 1) - leap_years_to(1969)
}

/// The days from 1 January to the first of the month `m`, in the year `y`.
pub open spec fn month_start(y: int, m: int) -> int
    decreases m,
{
    if m <= 1 {
        0
    } else {
        month_start(y, m - 1) + days_in_month(y, m - 1)
    }
}

/// The days from 1 January 1970 to the given date.
pub open spec fn day_number(y: int, m: int, d: int) -> int {
    year_start(y) + month_start(y, m) + d - 1
}

/// The days of the years from 1 March of year 0 to 1 March of year `y`, for
/// the 400 years of an era.
spec fn era_days(y: int) -> int {
    365 * y + y / 4 - y / 100
}

/// A day in the `k`-th four years and the `c`-th century of an era, `s` days
/// after those four years began: the year it lies in.
proof fn lemma_year_of_century(k: int, s: int, c: int)
    requires
        0 <= c <= 3,
        0 <= s < 1460,
        0 <= k,
        36524 * c <= 1460 * k + s,
        1460 * k + s < 36524 * (c + 1),
    ensures
        ({
            let yoe = 4 * k + (s - k + c) / 365;
            &&& 100 * c <= yoe <= 100 * c + 99
            &&& era_days(yoe) <= 1460 * k + s < era_days(yoe + 1)
        }),
{
    assert(25 * c <= k <= 25 * c + 25);
    let j = (s - k + c) / 365;
    let yoe = 4 * k + j;
    assert(-1 <= j <= 3);
    assert(100 * c <= yoe <= 100 * c + 99);
    assert(yoe / 100 == c);
    assert(yoe / 4 == (if j < 0 { k - 1 } else { k }));
}

proof fn lemma_year_of_era(doe: int)
    requires
        0 <= doe <= 146096,
    ensures
        ({
            let yoe = (doe - doe / 1460 + doe / 36524 - doe / 146096) / 365;
            &&& 0 <= yoe <= 399
            &&& era_days(yoe) <= doe
            &&& yoe < 399 ==> doe < era_days(yoe + 1)
        }),
{
    if doe < 146096 {
        let k = doe / 1460;
        let s = doe % 1460;
        let c = doe / 36524;
        lemma_year_of_century(k, s, c);
        assert(doe - k + c == 1460 * k + (s - k + c));
        assert((1460 * k + (s - k + c)) / 365 == 4 * k + (s - k + c) / 365);
    }
}

/// Twelve months, one after the other, from 1 March on.
proof fn lemma_month_of_year(doy: int)
    requires
        0 <= doy <= 365,
    ensures
        ({
            let mp = (5 * doy + 2) / 153;
            &&& 0 <= mp <= 11
            &&& (153 * mp + 2) / 5 <= doy < (153 * (mp + 1) + 2) / 5
        }),
{
}

proof fn lemma_month_starts(y: int)
    ensures
        month_start(y, 1) == 0,
        month_start(y, 2) == 31,
        forall|m: int| #![trigger month_start(y, m)] 3 <= m <= 12 ==> month_start(y, m) == (153 * (m
            - 3) + 2) / 5 + (if is_leap(y) { 60int } else { 59int }),
{
    reveal_with_fuel(month_start, 13);
    assert forall|m: int| #![trigger month_start(y, m)] 3 <= m <= 12 implies month_start(y, m) == (153
        * (m - 3) + 2) / 5 + (if is_leap(y) { 60int } else { 59int }) by {
        if m == 3 {
        } else if m == 4 {
        } else if m == 5 {
        } else if m == 6 {
        } else if m == 7 {
        } else if m == 8 {
        } else if m == 9 {
        } else if m == 10 {
        } else if m == 11 {
        }
    }
}

/// A quotient grows by one at each multiple of the divisor.
proof fn lemma_quotient_step(y: int, d: int)
    requires
        d > 0,
    ensures
        y / d == (y - 1) / d + (if y % d == 0 { 1int } else { 0int }),
{
    lemma_fundamental_div_mod(y, d);
    let (q, r) = (y / d, y % d);
    if r == 0 {
        assert(y - 1 == (q - 1) * d + (d - 1)) by (nonlinear_arith)
            requires
                y == d * q,
        ;
        lemma_fundamental_div_mod_converse(y - 1, d, q - 1, d - 1);
    } else {
        assert(y - 1 == q * d + (r - 1)) by (nonlinear_arith)
            requires
                y == d * q + r,
        ;
        lemma_fundamental_div_mod_converse(y - 1, d, q, r - 1);
    }
}

/// The leap years to `y` are those to the year before, and `y` if it is one.
proof fn lemma_leap_years_step(y: int)
    ensures
        leap_years_to(y) == leap_years_to(y - 1) + (if is_leap(y) { 1int } else { 0int }),
{
    lemma_quotient_step(y, 4);
    lemma_quotient_step(y, 100);
    lemma_quotient_step(y, 400);
    let (q, r) = (y / 100, y % 100);
    assert(r == 0 ==> y == 4 * (25 * q));
    let (q, r) = (y / 400, y % 400);
    assert(r == 0 ==> y == 100 * (4 * q));
}

/// A year is as long as 365 days, and one more if it is a leap year.
pub proof fn year_length(y: int)
    ensures
        year_start(y + 1) - year_start(y) == (if is_leap(y) { 366int } else { 365int }),
{
    lemma_leap_years_step(y);
}

/// The leap years to the year `yoe` of an era.
proof fn lemma_leap_years_of_era(era: int, yoe: int)
    requires
        0 <= yoe <= 400,
    ensures
        leap_years_to(400 * era + yoe) == 97 * era + yoe / 4 - yoe / 100 + yoe / 400,
{
    assert((400 * era + yoe) / 4 == 100 * era + yoe / 4);
    assert((400 * era + yoe) / 100 == 4 * era + yoe / 100);
    assert((400 * era + yoe) / 400 == era + yoe / 400);
}

proof fn lemma_leap_in_era(era: int, yoe: int)
    ensures
        is_leap(400 * era + yoe) == is_leap(yoe),
{
    lemma_mod_multiples_vanish(100 * era, yoe, 4);
    lemma_mod_multiples_vanish(4 * era, yoe, 100);
    lemma_mod_multiples_vanish(era, yoe, 400);
}

/// The day that lies `doy` days after 1 March of the year `yoe` of an era.
proof fn lemma_civil(era: int, yoe: int, doy: int, mp: int)
    requires
        0 <= yoe <= 399,
        0 <= doy <= 365,
        yoe < 399 ==> era_days(yoe) + doy < era_days(yoe + 1),
        0 <= mp <= 11,
        (153 * mp + 2) / 5 <= doy < (153 * (mp + 1) + 2) / 5,
    ensures
        ({
            let d = doy - (153 * mp + 2) / 5 + 1;
            let m = if mp < 10 { mp + 3 } else { mp - 9 };
            let y = 400 * era + yoe + (if m <= 2 { 1int } else { 0int });
            &&& is_date(y, m, d)
            &&& day_number(y, m, d) == 146_097 * era + era_days(yoe) + doy - 719_468
        }),
{
    let y0 = 400 * era + yoe;
    lemma_leap_years_of_era(era, yoe);
    lemma_leap_years_step(y0);
    lemma_month_starts(y0);
    lemma_month_starts(y0 + 1);
    year_length(y0);
    lemma_leap_in_era(era, yoe + 1);
    assert(leap_years_to(1969) == 477);
    assert(year_start(y0) + 59 + (if is_leap(y0) { 1int } else { 0int }) == 146_097 * era + era_days(
        yoe,
    ) - 719_468);
    if mp == 11 {
        assert(doy <= 364 + (if is_leap(yoe + 1) { 1int } else { 0int })) by {
            if yoe < 399 {
                assert((yoe + 1) / 4 == yoe / 4 + (if (yoe + 1) % 4 == 0 { 1int } else { 0int }));
                assert((yoe + 1) / 100 == yoe / 100 + (if (yoe + 1) % 100 == 0 { 1int } else { 0int }));
            }
        }
    }
}

/// The civil date, as (year, month, day), that lies `z` days after 1 January
/// 1970 (before it, for a negative `z`).
pub fn civil_from_days(z: i64) -> (r: (i64, u32, u32))
    requires
        z <= i64::MAX - 719_468,
    ensures
        is_date(r.0 as int, r.1 as int, r.2 as int),
        day_number(r.0 as int, r.1 as int, r.2 as int) == z,
{
    let n = z + 719_468;
    let era: i64 = if n >= 0 {
        n / 146_097
    } else {
        -((146_096 - n) / 146_097)
    };
    let doe = n - era * 146_097;
    proof {
        lemma_year_of_era(doe as int);
    }
    let yoe = (doe - doe / 1460 + doe / 36_524 - doe / 146_096) / 365;
    let y = yoe + era * 400;
    let doy = doe - (365 * yoe + yoe / 4 - yoe / 100);
    proof {
        assert(0 <= doy <= 365) by {
            if yoe < 399 {
                assert((yoe + 1) / 4 <= yoe / 4 + 1);
                assert(yoe / 100 <= (yoe + 1) / 100);
            }
        }
        lemma_month_of_year(doy as int);
    }
    let mp = (5 * doy + 2) / 153;
    proof {
        lemma_civil(era as int, yoe as int, doy as int, mp as int);
    }
    let d = (doy - (153 * mp + 2) / 5 + 1) as u32;
    let m = (if mp < 10 {
        mp + 3
    } else {
        mp - 9
    }) as u32;
    (y + (if m <= 2 { 1 } else { 0 }), m, d)
}

/// A later date of the same year has a larger offset from its start.
proof fn lemma_month_start_grows(y: int, m: int, n: int)
    requires
        1 <= m < n,
    ensures
        month_start(y, m) + days_in_month(y, m) <= month_start(y, n),
    decreases n,
{
    if m < n - 1 {
        lemma_month_start_grows(y, m, n - 1);
    }
}

proof fn lemma_year_start_grows(y: int, z: int)
    requires
        y <= z,
    ensures
        year_start(y) + 365 * (z - y) <= year_start(z),
    decreases z - y,
{
    if y < z {
        lemma_year_start_grows(y, z - 1);
        year_length(z - 1);
    }
}

/// A date lies within its year.
proof fn lemma_date_in_year(y: int, m: int, d: int)
    requires
        is_date(y, m, d),
    ensures
        year_start(y) <= day_number(y, m, d) < year_start(y + 1),
{
    lemma_month_starts(y);
    year_length(y);
    if m > 1 {
        lemma_month_start_grows(y, 1, m);
    }
}

/// Two dates with the same number of days from 1 January 1970 are the same date.
pub proof fn day_number_injective(y1: int, m1: int, d1: int, y2: int, m2: int, d2: int)
    requires
        is_date(y1, m1, d1),
        is_date(y2, m2, d2),
        day_number(y1, m1, d1) == day_number(y2, m2, d2),
    ensures
        y1 == y2,
        m1 == m2,
        d1 == d2,
{
    lemma_date_in_year(y1, m1, d1);
    lemma_date_in_year(y2, m2, d2);
    if y1 < y2 {
        lemma_year_start_grows(y1 + 1, y2);
    } else if y2 < y1 {
        lemma_year_start_grows(y2 + 1, y1);
    } else if m1 < m2 {
        lemma_month_start_grows(y1, m1, m2);
    } else if m2 < m1 {
        lemma_month_start_grows(y1, m2, m1);
    }
}

// ---- Timestamps --------------------------------------------------------------

/// `n` in decimal, with zeros on the left up to `width` digits.
pub open spec fn zero_padded(n: nat, width: nat) -> Seq<char> {
    padded_left(decimal(n), width, '0')
}

/// Whether `t` is the ISO-8601 form, in UTC, of the instant `secs` seconds after
/// the Unix epoch.
pub open spec fn is_iso8601(t: Seq<char>, secs: nat) -> bool {
    exists|y: nat, m: nat, d: nat| #[trigger] is_iso8601_of(t, secs, y, m, d)
}

/// The same, with the date of the instant given.
pub open spec fn is_iso8601_of(t: Seq<char>, secs: nat, y: nat, m: nat, d: nat) -> bool {
    &&& is_date(y as int, m as int, d as int)
    &&& day_number(y as int, m as int, d as int) == secs / 86_400
    &&& t == zero_padded(y, 4) + seq!['-'] + zero_padded(m, 2) + seq!['-'] + zero_padded(d, 2)
        + seq!['T'] + zero_padded(secs % 86_400 / 3600, 2) + seq![':'] + zero_padded(
        secs % 3600 / 60,
        2,
    ) + seq![':'] + zero_padded(secs % 60, 2) + seq!['Z']
}

/// Appends `n` in decimal, with zeros on the left up to `width` digits.
fn push_zero_padded(s: &mut String, n: u64, width: usize)
    ensures
        final(s)@ == old(s)@ + zero_padded(n as nat, width as nat),
{
    let mut t = String::new();
    push_decimal(&mut t, n as u128);
    let v = crate::text::chars_of(t.as_str());
    assert(t@ =~= decimal(n as nat));
    let ghost before = s@;
    if v.len() < width {
        push_repeated(s, '0', width - v.len());
        crate::text::push_chars(s, v.as_slice());
        assert(s@ =~= before + zero_padded(n as nat, width as nat));
    } else {
        crate::text::push_chars(s, v.as_slice());
    }
}

/// A day from 1 January 1970 on lies in a year from 1970 on.
proof fn lemma_year_from_epoch(y: int, m: int, d: int)
    requires
        is_date(y, m, d),
        day_number(y, m, d) >= 0,
    ensures
        y >= 1970,
{
    lemma_date_in_year(y, m, d);
    if y < 1970 {
        lemma_year_start_grows(y + 1, 1970);
        assert(year_start(1970) == 0);
    }
}

proof fn lemma_time_of_day(secs: nat)
    ensures
        secs % 86_400 % 3600 == secs % 3600,
        secs % 86_400 % 60 == secs % 60,
{
    let q = secs / 86_400;
    let r = (secs % 86_400) as int;
    assert(secs == 3600 * (24 * q) + r);
    assert(secs == 60 * (1440 * q) + r);
    lemma_mod_multiples_vanish(24 * q as int, r, 3600);
    lemma_mod_multiples_vanish(1440 * q as int, r, 60);
}

/// Formats Unix seconds as an ISO-8601 UTC timestamp (`YYYY-MM-DDTHH:MM:SSZ`).
pub fn iso8601_from_secs(secs: u64) -> (t: String)
    ensures
        is_iso8601(t@, secs as nat),
{
    let days = (secs / 86_400) as i64;
    let rem = secs % 86_400;
    let (y, m, d) = civil_from_days(days);
    proof {
        lemma_year_from_epoch(y as int, m as int, d as int);
        lemma_time_of_day(secs as nat);
    }
    let mut t = String::new();
    push_zero_padded(&mut t, y as u64, 4);
    t.push('-');
    push_zero_padded(&mut t, m as u64, 2);
    t.push('-');
    push_zero_padded(&mut t, d as u64, 2);
    t.push('T');
    push_zero_padded(&mut t, rem / 3600, 2);
    t.push(':');
    push_zero_padded(&mut t, rem % 3600 / 60, 2);
    t.push(':');
    push_zero_padded(&mut t, rem % 60, 2);
    t.push('Z');
    proof {
        let y = y as nat;
        let m = m as nat;
        let d = d as nat;
        assert(t@ =~= zero_padded(y, 4) + seq!['-'] + zero_padded(m, 2) + seq!['-'] + zero_padded(d, 2)
            + seq!['T'] + zero_padded(secs as nat % 86_400 / 3600, 2) + seq![':'] + zero_padded(
            secs as nat % 3600 / 60,
            2,
        ) + seq![':'] + zero_padded(secs as nat % 60, 2) + seq!['Z']);
        assert(is_iso8601_of(t@, secs as nat, y, m, d));
    }
    t
}

/// An instant has one ISO-8601 form only.
pub proof fn iso8601_unique(t1: Seq<char>, t2: Seq<char>, secs: nat)
    requires
        is_iso8601(t1, secs),
        is_iso8601(t2, secs),
    ensures
        t1 == t2,
{
    let (y1, m1, d1) = choose|y: nat, m: nat, d: nat| #[trigger] is_iso8601_of(t1, secs, y, m, d);
    let (y2, m2, d2) = choose|y: nat, m: nat, d: nat| #[trigger] is_iso8601_of(t2, secs, y, m, d);
    day_number_injective(y1 as int, m1 as int, d1 as int, y2 as int, m2 as int, d2 as int);
}

// ---- The clock ---------------------------------------------------------------

/// `SystemTime::elapsed` of the Unix epoch: the time since then as whole seconds
/// and the nanoseconds beyond them, which are fewer than a billion; `None` where
/// the clock stands before the epoch.
#[verifier::external_body]
fn since_epoch() -> (r: Option<(u64, u32)>)
    ensures
        r matches Some((_, nanos)) ==> nanos < 1_000_000_000,
{
    match std::time::UNIX_EPOCH.elapsed() {
        Ok(d) => Some((d.as_secs(), d.subsec_nanos())),
        Err(_) => None,
    }
}

/// The id of a note made at a reading of the clock: the nanoseconds since the
/// epoch, in 64 bits; 0 where the clock stands before the epoch.
pub open spec fn id_for(reading: Option<(u64, u32)>) -> int {
    match reading {
        Some((secs, nanos)) => (secs * 1_000_000_000 + nanos) % 0x1_0000_0000_0000_0000,
        None => 0,
    }
}

/// The id of a note made at the given reading of the clock.
pub fn id_at(reading: Option<(u64, u32)>) -> (id: u64)
    ensures
        id as int == id_for(reading),
{
    match reading {
        Some((secs, nanos)) => {
            let n: u128 = secs as u128 * 1_000_000_000 + nanos as u128;
            (n % 0x1_0000_0000_0000_0000) as u64
        },
        None => 0,
    }
}

/// The seconds that a reading of the clock gives: 0 before the epoch.
pub open spec fn secs_for(reading: Option<(u64, u32)>) -> nat {
    match reading {
        Some((secs, _)) => secs as nat,
        None => 0,
    }
}

/// The time stamp of a note made at the given reading of the clock.
pub fn iso8601_at(reading: Option<(u64, u32)>) -> (t: String)
    ensures
        is_iso8601(t@, secs_for(reading)),
{
    match reading {
        Some((secs, _)) => iso8601_from_secs(secs),
        None => iso8601_from_secs(0),
    }
}

/// A best-effort unique id (creation time in nanoseconds). Nothing is promised of
/// it: the clock may give any reading, and `id_at` of a reading may be any number.
pub fn unique_id() -> (id: u64) {
    id_at(since_epoch())
}

/// Whether `t` is the ISO-8601 form, in UTC, of some instant that the clock can
/// show.
pub open spec fn is_timestamp(t: Seq<char>) -> bool {
    exists|secs: u64| #[trigger] is_iso8601(t, secs as nat)
}

/// The current time as an ISO-8601 UTC timestamp (`YYYY-MM-DDTHH:MM:SSZ`).
pub fn now_iso8601() -> (t: String)
    ensures
        is_timestamp(t@),
{
    let reading = since_epoch();
    let t = iso8601_at(reading);
    let ghost secs = secs_for(reading) as u64;
    assert(is_iso8601(t@, secs as nat));
    t
}

// ---- What the calendar promises ----------------------------------------------

/// The calendar is the Gregorian one: each month has its days, the 29th of February
/// is there in every fourth year but not in those of full centuries unless 400 divides
/// them, and each day comes one after the day before it, from 1 January 1970 on as
/// day 0.
pub proof fn calendar_is_gregorian(y: int, m: int, d: int)
    requires
        1 <= m <= 12,
        1 <= d,
    ensures
        is_date(y, m, d) <==> d <= 28 || (d == 29 && (m != 2 || (y % 4 == 0 && (y % 100 != 0 || y % 400 == 0)))) || (d
            == 30 && m != 2) || (d == 31 && (m == 1 || m == 3 || m == 5 || m == 7 || m == 8 || m == 10 || m == 12)),
        day_number(1970, 1, 1) == 0,
        day_number(y, m, d + 1) == day_number(y, m, d) + 1,
        is_date(y, m, d) && !is_date(y, m, d + 1) && m < 12 ==> day_number(y, m + 1, 1) == day_number(y, m, d) + 1,
        day_number(y + 1, 1, 1) == day_number(y, 12, 31) + 1,
{
    assert(month_start(y, 1) == 0);
    assert(month_start(y + 1, 1) == 0);
    assert(month_start(1970, 1) == 0);
    lemma_month_starts(y);
    year_length(y);
    assert(month_start(y, 12) == (153 * 9 + 2) / 5 + (if is_leap(y) { 60int } else { 59int }));
    if m < 12 {
        assert(month_start(y, m + 1) == month_start(y, m) + days_in_month(y, m));
    }
}

/// The parts of a time stamp add up to its instant: the days of its date, and hours,
/// minutes and seconds within their bounds.
pub proof fn stamp_adds_up(t: Seq<char>, secs: nat) -> (parts: ((nat, nat, nat), (nat, nat, nat)))
    requires
        is_iso8601(t, secs),
    ensures
        ({
            let ((y, m, d), (h, i, s)) = parts;
            &&& is_date(y as int, m as int, d as int)
            &&& h < 24 && i < 60 && s < 60
            &&& day_number(y as int, m as int, d as int) * 86_400 + h * 3600 + i * 60 + s == secs
            &&& t == zero_padded(y, 4) + seq!['-'] + zero_padded(m, 2) + seq!['-'] + zero_padded(d, 2) + seq!['T']
                + zero_padded(h, 2) + seq![':'] + zero_padded(i, 2) + seq![':'] + zero_padded(s, 2) + seq!['Z']
        }),
{
    let (y, m, d) = choose|y: nat, m: nat, d: nat| #[trigger] is_iso8601_of(t, secs, y, m, d);
    let (h, i, s) = (secs % 86_400 / 3600, secs % 3600 / 60, secs % 60);
    lemma_seconds(secs);
    ((y, m, d), (h, i, s))
}

proof fn lemma_seconds(secs: nat)
    ensures
        secs % 86_400 / 3600 < 24,
        secs % 3600 / 60 < 60,
        (secs / 86_400) * 86_400 + (secs % 86_400 / 3600) * 3600 + (secs % 3600 / 60) * 60 + secs % 60 == secs,
{
}

/// Notes that are made at different times have different ids, and a later one the
/// larger, as long as 64 bits count the nanoseconds.
pub proof fn ids_grow_with_time(a: (u64, u32), b: (u64, u32))
    requires
        a.1 < 1_000_000_000,
        b.1 < 1_000_000_000,
        a.0 < b.0 || (a.0 == b.0 && a.1 < b.1),
        b.0 < 18_446_744_073,
    ensures
        id_for(Some(a)) < id_for(Some(b)),
{
}

}
