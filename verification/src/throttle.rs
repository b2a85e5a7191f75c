//! The throttle between runs: whether the last run lies within the last days,
//! counted by calendar date in UTC and not by hours.

use vstd::arithmetic::div_mod::lemma_hoist_over_denominator;
use vstd::prelude::*;

verus! {

/// The calendar day, counted from 1970-01-01 in UTC, on which the instant
/// `secs` seconds after the start of that day falls.
pub open spec fn day_of(secs: int) -> int {
    secs / 86_400
}

/// The last run was on a date strictly after the date that lay `n` days before
/// `now`.
pub open spec fn ran_within(last_ran: int, now: int, n: int) -> bool {
    day_of(last_ran) > day_of(now - n * 86_400)
}

/// Only the dates count: the last run lies within `n` days where its date is
/// later than the date of `now` less `n` days, whatever the two times of day.
pub proof fn lemma_ran_within_by_date(last_ran: int, now: int, n: int)
    ensures
        ran_within(last_ran, now, n) == (day_of(last_ran) > day_of(now) - n),
{
    lemma_hoist_over_denominator(now, -n, 86_400);
    assert(now + (-n) * 86_400 == now - n * 86_400) by (nonlinear_arith);
}

/// On the date of a run, at any time of day, the run lies within every
/// positive number of days.
pub proof fn lemma_ran_within_same_date(last_ran: int, now: int, n: int)
    requires
        day_of(last_ran) == day_of(now),
        n >= 1,
    ensures
        ran_within(last_ran, now, n),
{
    lemma_ran_within_by_date(last_ran, now, n);
}

/// Once the date has moved on by `n` days or more, the run lies within `n` days
/// no longer, at any time of day.
pub proof fn lemma_ran_within_expires(last_ran: int, now: int, n: int)
    requires
        day_of(now) - day_of(last_ran) >= n,
    ensures
        !ran_within(last_ran, now, n),
{
    lemma_ran_within_by_date(last_ran, now, n);
}

/// The time of the last run, in seconds since 1970-01-01 00:00:00 UTC, from
/// what the clock store holds: the start of 1970 where it holds nothing yet.
pub fn get_last_ran_at(stored: Option<u64>) -> (last_ran: u64)
    ensures
        last_ran == match stored {
            Some(secs) => secs,
            None => 0,
        },
{
    match stored {
        Some(secs) => secs,
        None => 0,
    }
}

/// Checks whether the last run lies within the past `n` days: whether its date
/// is later than the date `n` days before `now`. Both times are in seconds
/// since 1970-01-01 00:00:00 UTC.
pub fn ran_in_past_n_days(last_ran: u64, now: i64, n: i64) -> (ran: bool)
    ensures
        ran == ran_within(last_ran as int, now as int, n as int),
{
    let last_day: i128 = (last_ran / 86_400) as i128;
    let span: i128 = (n as i128) * 86_400;
    let before: i128 = (now as i128) - span;
    match before.checked_div_euclid(86_400) {
        Some(cutoff_day) => last_day > cutoff_day,
        None => false,
    }
}

/// The value to keep in the clock store for a run at `now`: the seconds since
/// 1970-01-01 00:00:00 UTC as an unsigned number. An instant before 1970 is
/// kept as its two's complement.
pub fn set_ran_today(now: i64) -> (stored: u64)
    ensures
        now >= 0 ==> stored == now,
        now < 0 ==> stored == now + 0x1_0000_0000_0000_0000,
{
    if now >= 0 {
        now as u64
    } else {
        let below: u64 = (-(now + 1)) as u64;
        u64::MAX - below
    }
}

} // verus!
