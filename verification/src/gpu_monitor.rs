//! Telemetry bookkeeping.
//!
//! The hardware counters live in an external monitoring library; its
//! readings reach this module as plain values, absent when the monitor is
//! unavailable. Telemetry is best-effort and never blocks the pipeline:
//! a missing reading becomes zero.

use vstd::prelude::*;

verus! {

/// A raw memory-bandwidth reading: the memory clock, the bus width and the
/// memory utilization, as the monitoring library reports them.
#[derive(Clone, Copy, Debug, PartialEq, Eq, Structural)]
pub struct BandwidthReading {
    /// Memory clock in megahertz.
    pub mem_clock_mhz: u32,
    /// Memory bus width in bits.
    pub bus_width_bits: u32,
    /// Memory utilization in percent.
    pub memory_util_pct: u32,
}

/// A missing utilization reading counts as zero.
pub open spec fn util_or_zero(reading: Option<u32>) -> u32 {
    match reading {
        Some(v) => v,
        None => 0,
    }
}

/// The bandwidth in megabytes per second that a reading amounts to: the
/// theoretical peak `clock * 2 * width/8`, scaled by the utilization
/// percentage, saturating at the counter's limit.
pub open spec fn bandwidth_of(reading: BandwidthReading) -> u64 {
    let full = (reading.mem_clock_mhz * 2 * (reading.bus_width_bits / 8)
        * reading.memory_util_pct) / 100;
    if full > u64::MAX {
        u64::MAX
    } else {
        full as u64
    }
}

/// A missing bandwidth reading counts as zero.
pub open spec fn bandwidth_or_zero(reading: Option<BandwidthReading>) -> u64 {
    match reading {
        Some(rd) => bandwidth_of(rd),
        None => 0,
    }
}

/// The telemetry monitor: the last utilization and bandwidth values
/// computed from the external monitor's readings.
pub struct GPUMonitor {
    utilization: u32,
    memory_bandwidth: u64,
}

impl GPUMonitor {
    /// The last utilization value.
    pub closed spec fn util_spec(self) -> u32 {
        self.utilization
    }

    /// The last bandwidth value.
    pub closed spec fn bandwidth_spec(self) -> u64 {
        self.memory_bandwidth
    }

    /// A monitor that has read nothing yet.
    pub fn new() -> (r: GPUMonitor)
        ensures
            r.util_spec() == 0,
            r.bandwidth_spec() == 0,
    {
        GPUMonitor { utilization: 0, memory_bandwidth: 0 }
    }

    /// Record a utilization reading; a missing one counts as zero.
    pub fn get_utilization(&mut self, reading: Option<u32>) -> (r: u32)
        ensures
            r == util_or_zero(reading),
            final(self).util_spec() == r,
            final(self).bandwidth_spec() == old(self).bandwidth_spec(),
    {
        let v = match reading {
            Some(v) => v,
            None => 0,
        };
        self.utilization = v;
        v
    }

    /// Compute and record the bandwidth a reading amounts to; a missing
    /// reading counts as zero.
    pub fn get_memory_bandwidth(&mut self, reading: Option<BandwidthReading>) -> (r: u64)
        ensures
            r == bandwidth_or_zero(reading),
            final(self).bandwidth_spec() == r,
            final(self).util_spec() == old(self).util_spec(),
    {
        let v: u64 = match reading {
            Some(rd) => {
                proof {
                    assert(0 <= (rd.mem_clock_mhz as int) * 2 * ((rd.bus_width_bits / 8) as int)
                        <= (u32::MAX as int) * 2 * (u32::MAX as int)) by (nonlinear_arith)
                        requires
                            0 <= rd.mem_clock_mhz <= u32::MAX,
                            0 <= rd.bus_width_bits / 8 <= u32::MAX,
                    ;
                    assert(0 <= (rd.mem_clock_mhz as int) * 2 * ((rd.bus_width_bits / 8) as int)
                        * (rd.memory_util_pct as int) <= ((u32::MAX as int) * 2 * (
                    u32::MAX as int)) * (u32::MAX as int)) by (nonlinear_arith)
                        requires
                            0 <= (rd.mem_clock_mhz as int) * 2 * ((rd.bus_width_bits / 8) as int)
                                <= (u32::MAX as int) * 2 * (u32::MAX as int),
                            0 <= rd.memory_util_pct <= u32::MAX,
                    ;
                }
                let wide: u128 = (rd.mem_clock_mhz as u128) * 2 * ((rd.bus_width_bits / 8) as u128)
                    * (rd.memory_util_pct as u128) / 100;
                if wide > u64::MAX as u128 {
                    u64::MAX
                } else {
                    wide as u64
                }
            },
            None => 0,
        };
        self.memory_bandwidth = v;
        v
    }
}

} // verus!
