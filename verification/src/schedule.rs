//! When the main loop sleeps, and when it ends.
use vstd::prelude::*;

verus! {

/// The longest time, in milliseconds, for which the main loop sleeps before it
/// looks whether to end.
pub const MAX_STEP_MS: u64 = 100;

/// The next step of a sleep of `total_ms`, of which `elapsed_ms` are over; `None`
/// at the end.
pub open spec fn step_at(total_ms: u64, elapsed_ms: u64) -> Option<u64> {
    if elapsed_ms >= total_ms {
        None
    } else if total_ms - elapsed_ms < MAX_STEP_MS {
        Some((total_ms - elapsed_ms) as u64)
    } else {
        Some(MAX_STEP_MS)
    }
}

/// Gives the next step of a sleep.
pub fn sleep_step(total_ms: u64, elapsed_ms: u64) -> (r: Option<u64>)
    ensures
        r == step_at(total_ms, elapsed_ms),
        r matches Some(step) ==> 0 < step <= MAX_STEP_MS && elapsed_ms + step <= total_ms,
{
    if elapsed_ms >= total_ms {
        None
    } else if total_ms - elapsed_ms < MAX_STEP_MS {
        Some(total_ms - elapsed_ms)
    } else {
        Some(MAX_STEP_MS)
    }
}

/// The time that is over after `n` steps of a sleep.
pub open spec fn elapsed_after(total_ms: u64, n: nat) -> u64
    decreases n,
{
    if n == 0 {
        0
    } else {
        let before = elapsed_after(total_ms, (n - 1) as nat);
        match step_at(total_ms, before) {
            Some(step) => (before + step) as u64,
            None => before,
        }
    }
}

/// The steps of a sleep add up to its length, neither more nor less.
pub proof fn law_steps_add_up(total_ms: u64, n: nat)
    ensures
        elapsed_after(total_ms, n) == (if n * MAX_STEP_MS < total_ms {
            n * MAX_STEP_MS
        } else {
            total_ms as int
        }),
    decreases n,
{
    if n > 0 {
        law_steps_add_up(total_ms, (n - 1) as nat);
    }
}

/// The length of a sleep in milliseconds.
pub fn sleep_ms(interval_secs: u64) -> (ms: u64)
    requires
        interval_secs * 1000 <= u64::MAX,
    ensures
        ms == interval_secs * 1000,
{
    interval_secs * 1000
}

/// Whether a control event of the console asks the program to end: an interrupt
/// (0), a break (1), a closed window (2), a logoff (5) or a shutdown (6).
pub fn is_shutdown_event(ctrl_type: u32) -> (r: bool)
    ensures
        r <==> ctrl_type == 0 || ctrl_type == 1 || ctrl_type == 2 || ctrl_type == 5 || ctrl_type
            == 6,
{
    match ctrl_type {
        0 | 1 | 2 | 5 | 6 => true,
        _ => false,
    }
}

/// A sleep goes on while time is left. Its steps take a tenth of a second, and the last
/// one what is left.
pub proof fn law_sleep_goes_on_while_time_is_left(total_ms: u64, elapsed_ms: u64, r: Option<u64>)
    requires
        call_ensures(sleep_step, (total_ms, elapsed_ms), r),
    ensures
        r is Some <==> elapsed_ms < total_ms,
        r matches Some(step) ==> step == 100 && elapsed_ms + 100 <= total_ms || step < 100
            && elapsed_ms + step == total_ms,
{
}

/// A second has a thousand milliseconds.
pub proof fn law_sleep_in_milliseconds(secs: u64, ms: u64)
    requires
        call_ensures(sleep_ms, (secs,), ms),
        secs * 1000 <= u64::MAX,
    ensures
        ms == 1000 * secs,
{
}

/// Five control events end the program, and no other ones.
pub proof fn law_five_events_end_the_program(ctrl_type: u32, r: bool)
    requires
        call_ensures(is_shutdown_event, (ctrl_type,), r),
    ensures
        r <==> ctrl_type <= 2 || ctrl_type == 5 || ctrl_type == 6,
{
}

} // verus!
