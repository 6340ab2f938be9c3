//! Tick pacing.
//!
//! The rate manager decides how many simulation ticks are due by a given
//! time. Time is handed in by the caller as nanoseconds, so the pacing
//! arithmetic itself is exact integer math: ticks are paced in packs, and
//! the pack anchor is re-based whenever a pack completes.

use vstd::prelude::*;

verus! {

/// The largest time value the pacing arithmetic accepts, in nanoseconds
/// (about five hundred years).
pub const MAX_TIME_NANOS: u128 = 0xFFFF_FFFF_FFFF_FFFF;

pub struct RateManager {
    pub pack_size: u32,
    pub target_tick_rate: u32,
    pub current_tick: u32,
    pub pack_start: u128,
}

impl RateManager {
    pub open spec fn wf(self) -> bool {
        &&& self.pack_size >= 1
        &&& self.target_tick_rate >= 1
        &&& self.current_tick < self.pack_size
        &&& self.pack_start <= MAX_TIME_NANOS
    }

    pub fn new(pack_size: u32, target_tick_rate: u32, now_nanos: u128) -> (r: RateManager)
        requires
            pack_size >= 1,
            target_tick_rate >= 1,
            now_nanos <= MAX_TIME_NANOS,
        ensures
            r.wf(),
            r.pack_size == pack_size,
            r.target_tick_rate == target_tick_rate,
            r.current_tick == 0,
            r.pack_start == now_nanos,
    {
        RateManager { pack_size, target_tick_rate, current_tick: 0, pack_start: now_nanos }
    }

    pub fn reset(&mut self, now_nanos: u128)
        requires
            old(self).wf(),
            now_nanos <= MAX_TIME_NANOS,
        ensures
            final(self).wf(),
            final(self).pack_size == old(self).pack_size,
            final(self).target_tick_rate == old(self).target_tick_rate,
            final(self).current_tick == 0,
            final(self).pack_start == now_nanos,
    {
        self.current_tick = 0;
        self.pack_start = now_nanos;
    }

    pub fn set_tick_rate(&mut self, rate: u32, now_nanos: u128)
        requires
            old(self).wf(),
            rate >= 1,
            now_nanos <= MAX_TIME_NANOS,
        ensures
            final(self).wf(),
            final(self).pack_size == old(self).pack_size,
            final(self).target_tick_rate == rate,
            final(self).current_tick == 0,
            final(self).pack_start == now_nanos,
    {
        self.target_tick_rate = rate;
        self.reset(now_nanos);
    }

    pub fn tick_rate(&self) -> (r: u32)
        ensures
            r == self.target_tick_rate,
    {
        self.target_tick_rate
    }

    /// Count one performed tick; when a pack completes, re-anchor the pack
    /// at the given time.
    pub fn register_tick(&mut self, now_nanos: u128)
        requires
            old(self).wf(),
            now_nanos <= MAX_TIME_NANOS,
        ensures
            final(self).wf(),
            final(self).pack_size == old(self).pack_size,
            final(self).target_tick_rate == old(self).target_tick_rate,
            old(self).current_tick + 1 >= old(self).pack_size ==> final(self).current_tick
                == old(self).current_tick + 1 - old(self).pack_size && final(self).pack_start
                == now_nanos,
            old(self).current_tick + 1 < old(self).pack_size ==> final(self).current_tick == old(
                self,
            ).current_tick + 1 && final(self).pack_start == old(self).pack_start,
    {
        self.current_tick = self.current_tick + 1;
        if self.current_tick >= self.pack_size {
            self.current_tick = self.current_tick - self.pack_size;
            self.pack_start = now_nanos;
        }
    }

    /// The time the next tick is due, in nanoseconds.
    pub fn next_tick_time(&self) -> (r: u128)
        requires
            self.wf(),
        ensures
            r == self.pack_start + ((self.current_tick + 1) as int) * 1_000_000_000 / (
            self.target_tick_rate as int),
    {
        self.pack_start + ((self.current_tick as u128) + 1) * 1_000_000_000
            / (self.target_tick_rate as u128)
    }

    /// How many ticks are due by `time_nanos`, capped at the 32-bit range
    /// the tick counters use.
    pub fn ticks_to_do_by_time(&self, time_nanos: u128) -> (r: u32)
        requires
            self.wf(),
            self.pack_start <= time_nanos <= MAX_TIME_NANOS,
        ensures
            ({
                let total_raw = (time_nanos - self.pack_start) * (self.target_tick_rate as int)
                    / 1_000_000_000;
                let total = if total_raw > 0xFFFF_FFFF {
                    0xFFFF_FFFFint
                } else {
                    total_raw
                };
                r == if total >= self.current_tick {
                    total - self.current_tick
                } else {
                    0int
                }
            }),
    {
        proof {
            assert((time_nanos - self.pack_start) * (self.target_tick_rate as int)
                <= 0xFFFF_FFFF_FFFF_FFFF * 0xFFFF_FFFF) by (nonlinear_arith)
                requires
                    0 <= time_nanos - self.pack_start <= 0xFFFF_FFFF_FFFF_FFFF,
                    0 <= self.target_tick_rate <= 0xFFFF_FFFF,
            ;
        }
        let total128: u128 = (time_nanos - self.pack_start) * (self.target_tick_rate as u128)
            / 1_000_000_000;
        let total: u32 = if total128 > 0xFFFF_FFFF {
            0xFFFF_FFFF
        } else {
            total128 as u32
        };
        if total >= self.current_tick {
            total - self.current_tick
        } else {
            0
        }
    }
}

} // verus!
