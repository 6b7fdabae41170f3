//! What the kernel said, as plain numbers.
use vstd::prelude::*;

use crate::number::Real;

verus! {

/// One reading of the machine.
#[derive(Clone, Copy, Debug, PartialEq, Eq, Structural)]
pub struct SysReading {
    pub ncpu: u32,
    pub mem_total_bytes: u64,
    pub page_size: u64,
    /// When the machine booted, in seconds since the epoch. Two readings with
    /// different values have no counter delta between them.
    pub boot_time_secs: i64,
    pub load_1m: Real,
    pub load_5m: Real,
    pub load_15m: Real,
    pub swap_total_bytes: u64,
    pub swap_used_bytes: u64,
    pub pages_free: u64,
    pub pages_active: u64,
    pub pages_inactive: u64,
    pub pages_wired: u64,
    pub pages_speculative: u64,
    pub pages_compressor: u64,
    pub pages_purgeable: u64,
    pub pages_external: u64,
    pub swapins: u64,
    pub swapouts: u64,
    /// 1 normal, 2 warn, 4 critical; 0 is "not recorded".
    pub memory_pressure_level: u32,
    /// 0 nominal to 4 sleeping.
    pub thermal_pressure_level: Option<u32>,
    pub cpu_speed_limit_percent: Option<u32>,
    /// CPU ticks since boot, summed over the cores.
    pub cpu_ticks_total: Option<u64>,
    /// The idle part of `cpu_ticks_total`.
    pub cpu_ticks_idle: Option<u64>,
    pub kernel_free_percent: Option<u32>,
    pub jetsam_kills: Option<u64>,
}

/// `n`, or the largest value there is where it does not fit.
pub open spec fn capped(n: int) -> u64 {
    if n > u64::MAX {
        u64::MAX
    } else {
        n as u64
    }
}

impl SysReading {
    /// Bytes on the free list.
    pub open spec fn free(self) -> u64 {
        capped(self.pages_free * self.page_size)
    }

    /// Bytes that can be had without swapping: free, and everything the kernel
    /// may discard.
    pub open spec fn available(self) -> u64 {
        capped(
            (self.pages_free + self.pages_speculative + self.pages_purgeable
                + self.pages_external) * self.page_size,
        )
    }

    pub fn free_bytes(&self) -> (r: u64)
        ensures
            r == self.free(),
    {
        bytes_of(self.pages_free as u128, self.page_size)
    }

    pub fn available_bytes(&self) -> (r: u64)
        ensures
            r == self.available(),
    {
        let pages: u128 = self.pages_free as u128 + self.pages_speculative as u128
            + self.pages_purgeable as u128 + self.pages_external as u128;
        bytes_of(pages, self.page_size)
    }
}

fn bytes_of(pages: u128, page_size: u64) -> (r: u64)
    requires
        pages <= 4 * u64::MAX,
    ensures
        r == capped(pages * page_size),
{
    if page_size == 0 || pages == 0 {
        assert(pages * page_size == 0) by (nonlinear_arith)
            requires
                page_size == 0 || pages == 0,
        ;
        return 0;
    }
    if pages > u64::MAX as u128 {
        assert(pages * page_size > u64::MAX) by (nonlinear_arith)
            requires
                pages > u64::MAX,
                page_size >= 1,
        ;
        return u64::MAX;
    }
    assert(0 <= pages * page_size <= u64::MAX * u64::MAX) by (nonlinear_arith)
        requires
            0 <= pages <= u64::MAX,
            0 <= page_size <= u64::MAX,
    ;
    let bytes: u128 = pages * page_size as u128;
    if bytes > u64::MAX as u128 {
        u64::MAX
    } else {
        bytes as u64
    }
}

/// One mounted volume, as read.
#[derive(Clone, Debug, PartialEq, Eq)]
pub struct VolumeReading {
    pub mount_point: String,
    pub total_bytes: u64,
    pub avail_bytes: u64,
}

/// More free pages never make less memory, whatever may be discarded can be had, and
/// a page is worth its size.
pub proof fn law_what_can_be_had(r: SysReading)
    ensures
        r.free() == r.pages_free * r.page_size || (r.free() == u64::MAX && r.pages_free
            * r.page_size > u64::MAX),
        ({
            let bytes = (r.pages_free + r.pages_speculative + r.pages_purgeable + r.pages_external)
                * r.page_size;
            r.available() == bytes || (r.available() == u64::MAX && bytes > u64::MAX)
        }),
{
    assert(r.pages_free * r.page_size >= 0) by (nonlinear_arith);
    assert((r.pages_free + r.pages_speculative + r.pages_purgeable + r.pages_external)
        * r.page_size >= 0) by (nonlinear_arith);
}

} // verus!
