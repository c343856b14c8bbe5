//! The decisions of a nightly run around the per-relation planner: which
//! phases a mode runs, the monthly reactivation of dormant relations, the
//! name of the day's statistics files, the elapsed-time line and the one
//! outcome reported to the caller.

use chrono::Datelike;
use vstd::prelude::*;
use crate::text::{decimal, digit_char, push_decimal};

verus! {

/// Which phases a run performs.
#[derive(Clone, Copy, Debug, PartialEq, Eq, Structural)]
pub enum RunMode {
    All,
    Stats,
    Relations,
}

impl RunMode {
    /// The mode runs the country-wide statistics phase.
    pub fn runs_stats(self) -> (r: bool)
        ensures
            r == (self == RunMode::All || self == RunMode::Stats),
    {
        match self {
            RunMode::All | RunMode::Stats => true,
            RunMode::Relations => false,
        }
    }

    /// The mode runs the per-relation phase.
    pub fn runs_relations(self) -> (r: bool)
        ensures
            r == (self == RunMode::All || self == RunMode::Relations),
    {
        match self {
            RunMode::All | RunMode::Relations => true,
            RunMode::Stats => false,
        }
    }
}

/// A calendar date in UTC.
#[derive(Clone, Copy, Debug, PartialEq, Eq, Structural)]
pub struct CalendarDate {
    pub year: i32,
    pub month: u32,
    pub day: u32,
}

/// The UTC calendar date (year, month, day) of a Unix timestamp, as chrono
/// computes it.
pub uninterp spec fn utc_date_of(ts: int) -> (int, int, int);

/// The last second of the year 9999, UTC.
pub const LAST_TIMESTAMP: i64 = 253402300799;

/// Relies on chrono's `DateTime::from_timestamp` and its `Datelike`
/// accessors: the UTC date of a timestamp when chrono can represent it,
/// with a month from 1 to 12 and a day from 1 to 31. chrono represents
/// every date within about 262000 years of year 0, so every timestamp from
/// 1970 to the end of 9999 has a date, in those years.
#[verifier::external_body]
pub(crate) fn utc_date(ts: i64) -> (r: Option<CalendarDate>)
    ensures
        match r {
            Some(d) => {
                &&& (d.year as int, d.month as int, d.day as int) == utc_date_of(ts as int)
                &&& 1 <= d.month <= 12
                &&& 1 <= d.day <= 31
                &&& 0 <= ts <= LAST_TIMESTAMP ==> 1970 <= d.year <= 9999
            },
            None => !(0 <= ts <= LAST_TIMESTAMP),
        },
{
    chrono::DateTime::from_timestamp(ts, 0).map(
        |t| CalendarDate { year: t.year(), month: t.month(), day: t.day() },
    )
}

/// Dormant relations take part in the run: the configuration asks for it,
/// or it is the first day of the month.
pub open spec fn reactivates(update_inactive: bool, date: CalendarDate) -> bool {
    update_inactive || date.day == 1
}

/// Decides whether tonight's run treats every relation as active. The
/// persisted activity flags are left as they are.
pub fn should_activate_all(update_inactive: bool, date: CalendarDate) -> (r: bool)
    ensures
        r == reactivates(update_inactive, date),
{
    update_inactive || date.day == 1
}

/// Decides, from the start time of the run, whether every relation is
/// treated as active: when chrono gives the timestamp a date, exactly as
/// `should_activate_all` decides on it; otherwise by the configuration
/// alone.
pub fn activate_all_at(update_inactive: bool, now: i64) -> (r: bool)
    ensures
        update_inactive ==> r,
        r ==> update_inactive || utc_date_of(now as int).2 == 1,
        0 <= now <= LAST_TIMESTAMP ==> r == (update_inactive || utc_date_of(now as int).2 == 1),
{
    match utc_date(now) {
        Some(d) => should_activate_all(update_inactive, d),
        None => update_inactive,
    }
}

/// Monthly reactivation: on the first calendar day of a month every
/// relation takes part, whatever the configuration says.
pub proof fn lemma_first_of_month_reactivates(update_inactive: bool, date: CalendarDate)
    requires
        date.day == 1,
    ensures
        reactivates(update_inactive, date),
{
}

pub open spec fn two_digits(n: nat) -> Seq<char> {
    seq![digit_char(n / 10), digit_char(n % 10)]
}

pub open spec fn four_digits(n: nat) -> Seq<char> {
    seq![digit_char(n / 1000), digit_char((n / 100) % 10), digit_char((n / 10) % 10), digit_char(n % 10)]
}

/// `YYYY-MM-DD`, the name of a day's statistics files.
pub open spec fn day_stamp_text(d: CalendarDate) -> Seq<char> {
    four_digits(d.year as nat) + seq!['-'] + two_digits(d.month as nat) + seq!['-'] + two_digits(
        d.day as nat,
    )
}

fn push_digit(out: &mut Vec<char>, d: u64)
    requires
        d < 10,
    ensures
        final(out)@ == old(out)@.push(digit_char(d as nat)),
{
    let ghost before = old(out)@;
    push_decimal(out, d);
    assert(decimal(d as nat) == seq![digit_char(d as nat)]);
    assert(final(out)@ =~= before.push(digit_char(d as nat)));
}

/// Names the day of a date as `YYYY-MM-DD`; years outside 0 to 9999 have
/// no such name.
pub fn day_stamp(d: CalendarDate) -> (r: Option<Vec<char>>)
    requires
        1 <= d.month <= 12,
        1 <= d.day <= 31,
    ensures
        match r {
            Some(s) => 0 <= d.year <= 9999 && s@ == day_stamp_text(d),
            None => !(0 <= d.year <= 9999),
        },
{
    if d.year < 0 || d.year > 9999 {
        return None;
    }
    let y = d.year as u64;
    let m = d.month as u64;
    let day = d.day as u64;
    let mut out: Vec<char> = Vec::new();
    push_digit(&mut out, y / 1000);
    push_digit(&mut out, (y / 100) % 10);
    push_digit(&mut out, (y / 10) % 10);
    push_digit(&mut out, y % 10);
    out.push('-');
    push_digit(&mut out, m / 10);
    push_digit(&mut out, m % 10);
    out.push('-');
    push_digit(&mut out, day / 10);
    push_digit(&mut out, day % 10);
    assert(out@ =~= day_stamp_text(d));
    Some(out)
}

/// Names the UTC day of a timestamp as `YYYY-MM-DD`, when chrono gives
/// the timestamp a date in the years 0 to 9999.
pub fn day_stamp_at(now: i64) -> (r: Option<Vec<char>>)
    ensures
        r matches Some(s) ==> exists|d: CalendarDate|
            (d.year as int, d.month as int, d.day as int) == utc_date_of(now as int) && s@
                == day_stamp_text(d),
        0 <= now <= LAST_TIMESTAMP ==> r is Some,
{
    match utc_date(now) {
        Some(d) => day_stamp(d),
        None => None,
    }
}

/// `H:MM:SS` for a number of seconds.
pub open spec fn duration_text(secs: nat) -> Seq<char> {
    decimal(secs / 3600) + seq![':'] + two_digits((secs / 60) % 60) + seq![':'] + two_digits(
        secs % 60,
    )
}

/// The seconds from `start` to `end`; a clock that went backwards counts
/// as no time.
pub open spec fn elapsed_secs(start: i64, end: i64) -> nat {
    if end >= start {
        (end - start) as nat
    } else {
        0
    }
}

/// Renders the time a run took, from its start and end timestamps.
pub fn elapsed_text(start: i64, end: i64) -> (r: Vec<char>)
    ensures
        r@ == duration_text(elapsed_secs(start, end)),
{
    let secs: u64 = if end >= start {
        (end as i128 - start as i128) as u64
    } else {
        0
    };
    let mut out: Vec<char> = Vec::new();
    push_decimal(&mut out, secs / 3600);
    out.push(':');
    push_digit(&mut out, ((secs / 60) % 60) / 10);
    push_digit(&mut out, ((secs / 60) % 60) % 10);
    out.push(':');
    push_digit(&mut out, (secs % 60) / 10);
    push_digit(&mut out, (secs % 60) % 10);
    assert(out@ =~= duration_text(elapsed_secs(start, end)));
    out
}

/// The failure that a run reports, if any.
#[derive(Clone, Copy, Debug, PartialEq, Eq, Structural)]
pub enum RunFailure {
    /// The country-wide statistics phase failed.
    Stats,
    /// The per-relation phase failed as a whole (not a single task).
    Relations,
    /// The end-of-run fault hook reported an error.
    Injected,
}

/// Folds the outcomes of the phases and of the end-of-run hook into the
/// one outcome of the run: the first failure, in the order the run meets
/// them, or none.
pub fn run_outcome(stats_failed: bool, relations_failed: bool, injected_failed: bool) -> (r: Option<
    RunFailure,
>)
    ensures
        r == if stats_failed {
            Some(RunFailure::Stats)
        } else if relations_failed {
            Some(RunFailure::Relations)
        } else if injected_failed {
            Some(RunFailure::Injected)
        } else {
            None
        },
{
    if stats_failed {
        Some(RunFailure::Stats)
    } else if relations_failed {
        Some(RunFailure::Relations)
    } else if injected_failed {
        Some(RunFailure::Injected)
    } else {
        None
    }
}

} // verus!
