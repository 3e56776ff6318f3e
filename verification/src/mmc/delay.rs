//! Waiting, for the drivers of the two SD host controllers.
//!
//! Every wait in bring-up is one a reference driver asks for by name, or a
//! bound on how long a register may take to change. Short ones spin on the
//! architected counter, which reports its own rate; long ones give the
//! processor back to the scheduler.

use vstd::prelude::*;

verus! {

/// Microseconds on a counter that runs at `frequency`. Only differences mean
/// anything. A counter that reports no rate reads as zero.
pub fn now_us(counter: u64, frequency: u64) -> (micros: u64)
    ensures
        micros == (if frequency == 0 {
            0
        } else {
            (counter * 1_000_000) / (frequency as int) % 0x1_0000_0000_0000_0000
        }),
{
    if frequency == 0 {
        return 0;
    }
    let product: u128 = counter as u128 * 1_000_000;
    let micros: u128 = product / frequency as u128;
    (micros % 0x1_0000_0000_0000_0000) as u64
}

/// Whether a spin of `micros` microseconds that began at `start` is over.
pub fn spin_is_over(start: u64, now: u64, micros: u64) -> (r: bool)
    ensures
        r == ((now - start) % 0x1_0000_0000_0000_0000 >= micros),
{
    now.wrapping_sub(start) >= micros
}

/// How many timer ticks a sleep of at least `millis` milliseconds takes,
/// rounded up, and at least one.
pub fn sleep_ticks(millis: u64, hz: u64) -> (ticks: u64)
    requires
        millis * hz + 999 <= u64::MAX,
    ensures
        ({
            let rounded = (millis * hz + 999) / 1000;
            ticks == (if rounded < 1 {
                1
            } else {
                rounded
            })
        }),
{
    let ticks: u64 = (millis * hz + 999) / 1000;
    if ticks < 1 {
        1
    } else {
        ticks
    }
}

/// A point in time a wait gives up at.
#[derive(Debug, Clone, Copy, PartialEq, Eq, Structural)]
pub struct Deadline {
    at: u64,
}

impl Deadline {
    pub closed spec fn when(&self) -> u64 {
        self.at
    }

    pub fn after_us(now: u64, micros: u64) -> (deadline: Deadline)
        ensures
            deadline.when() == (if now + micros <= u64::MAX {
                now + micros
            } else {
                u64::MAX as int
            }),
    {
        Deadline { at: now.saturating_add(micros) }
    }

    pub fn after_ms(now: u64, millis: u64) -> (deadline: Deadline)
        ensures
            deadline.when() == (if now + millis * 1000 <= u64::MAX {
                now + millis * 1000
            } else {
                u64::MAX as int
            }),
    {
        let micros: u64 = if millis > u64::MAX / 1000 {
            u64::MAX
        } else {
            millis * 1000
        };
        Deadline::after_us(now, micros)
    }

    pub fn expired(&self, now: u64) -> (r: bool)
        ensures
            r == (now >= self.when()),
    {
        now >= self.at
    }
}

} // verus!
