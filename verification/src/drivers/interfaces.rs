//! Interfaces shared by drivers: timer ticks and resolution (durations are
//! counted in nanoseconds) and the kinds of interrupts.
use vstd::prelude::*;

pub mod interrupt_controller;

verus! {

/// Nanoseconds in a second.
pub const S_IN_NS: u128 = 1_000_000_000;

/// The number of ticks a timer has made since boot.
#[derive(Debug, PartialEq, Eq, Structural, Copy, Clone)]
pub struct Ticks(pub u64);

impl Ticks {
    /// Ticks as a timer driver reads them.
    pub fn new(raw_ticks: u64) -> (t: Ticks)
        ensures
            t.0 == raw_ticks,
    {
        Self(raw_ticks)
    }
}

/// Resolution of a timer: its frequency in hertz.
#[derive(Debug, PartialEq, Eq, Structural, Copy, Clone)]
pub struct TimerResolution(pub u64);

/// Nanoseconds that `ticks` at `hz` last, truncated to 64 bits.
pub open spec fn ticks_nanos(hz: u64, ticks: u64) -> u64 {
    ((ticks as int * 1_000_000_000) / hz as int) as u64
}

/// Whole ticks at `hz` in `nanos` nanoseconds, truncated to 64 bits.
pub open spec fn nanos_ticks(hz: u64, nanos: u128) -> u64 {
    ((nanos as int * hz as int) / 1_000_000_000) as u64
}

impl TimerResolution {
    pub fn from_hz(hz: u64) -> (r: TimerResolution)
        ensures
            r.0 == hz,
    {
        TimerResolution(hz)
    }

    pub fn into_hz(self) -> (hz: u64)
        ensures
            hz == self.0,
    {
        self.0
    }

    /// The period of one tick, in nanoseconds.
    pub fn into_duration(self) -> (nanos: u64)
        requires
            self.0 > 0,
        ensures
            nanos == 1_000_000_000int / self.0 as int,
    {
        (S_IN_NS as u64) / self.0
    }

    /// How long `ticks` last, in nanoseconds.
    pub fn ticks_to_duration(&self, ticks: Ticks) -> (nanos: u64)
        requires
            self.0 > 0,
        ensures
            nanos == ticks_nanos(self.0, ticks.0),
    {
        assert(ticks.0 as u128 * S_IN_NS <= u128::MAX) by (nonlinear_arith)
            requires
                ticks.0 <= u64::MAX,
        ;
        ((ticks.0 as u128 * S_IN_NS) / self.0 as u128) as u64
    }

    /// How many whole ticks `nanos` nanoseconds last.
    pub fn duration_to_ticks(&self, nanos: u128) -> (ticks: Ticks)
        requires
            nanos * self.0 <= u128::MAX,
        ensures
            ticks.0 == nanos_ticks(self.0, nanos),
    {
        Ticks(((nanos * self.0 as u128) / S_IN_NS) as u64)
    }
}

/// Turning ticks into a duration and back never gives more ticks than
/// there were; at a rate of at most one tick per nanosecond it loses at
/// most one, and none when the rate divides a second into whole
/// nanoseconds.
pub proof fn law_ticks_round_trip(hz: u64, ticks: u64)
    requires
        hz > 0,
        (ticks as int * 1_000_000_000) / hz as int <= u64::MAX,
    ensures
        nanos_ticks(hz, ticks_nanos(hz, ticks) as u128) <= ticks,
        hz <= 1_000_000_000 ==> nanos_ticks(hz, ticks_nanos(hz, ticks) as u128) >= ticks - 1,
        hz <= 1_000_000_000 && 1_000_000_000int % hz as int == 0 ==> nanos_ticks(
            hz,
            ticks_nanos(hz, ticks) as u128,
        ) == ticks,
{
    let g: int = 1_000_000_000;
    let big = ticks as int * g;
    let n0 = big / hz as int;
    if hz <= 1_000_000_000 {
        assert(n0 * hz > big - hz && (n0 * hz) / g >= ticks - 1) by (nonlinear_arith)
            requires
                n0 == big / hz as int,
                hz > 0,
                hz <= g,
                big == ticks as int * g,
                g == 1_000_000_000,
                ticks >= 0,
        ;
        if g % hz as int == 0 {
            let k = g / hz as int;
            vstd::arithmetic::div_mod::lemma_fundamental_div_mod(g, hz as int);
            assert(big == hz as int * (ticks as int * k)) by (nonlinear_arith)
                requires
                    g == hz as int * k,
                    big == ticks as int * g,
            ;
            vstd::arithmetic::div_mod::lemma_div_multiples_vanish(ticks as int * k, hz as int);
            assert(n0 * hz == big) by (nonlinear_arith)
                requires
                    n0 == ticks as int * k,
                    big == hz as int * (ticks as int * k),
            ;
            assert((n0 * hz) / g == ticks as int) by (nonlinear_arith)
                requires
                    n0 * hz == big,
                    big == ticks as int * g,
                    g == 1_000_000_000,
            ;
        }
    }
    let n = (ticks as int * 1_000_000_000) / hz as int;
    assert(n * hz <= ticks as int * 1_000_000_000) by (nonlinear_arith)
        requires
            n == (ticks as int * 1_000_000_000) / hz as int,
            hz > 0,
    ;
    assert((n * hz) / 1_000_000_000 <= ticks) by (nonlinear_arith)
        requires
            n * hz <= ticks as int * 1_000_000_000,
            n >= 0,
    ;
    assert(n * hz <= u128::MAX) by (nonlinear_arith)
        requires
            n * hz <= ticks as int * 1_000_000_000,
            ticks <= u64::MAX,
    ;
}

/// Timer ticks in one period of `interval_nanos` at `frequency_hz`,
/// computed in 64 bits and truncated to 32 bits.
pub open spec fn cycle_ticks(frequency_hz: u64, interval_nanos: u128) -> u32 {
    ((frequency_hz as int * (interval_nanos as u64) as int) / 1_000_000_000) as u32
}

/// The reload value of a periodic timer interrupt.
pub fn ticks_per_cycle(frequency_hz: u64, interval_nanos: u128) -> (t: u32)
    requires
        frequency_hz * (interval_nanos as u64) <= u64::MAX,
    ensures
        t == cycle_ticks(frequency_hz, interval_nanos),
{
    ((frequency_hz * interval_nanos as u64) / 1_000_000_000) as u32
}

} // verus!
