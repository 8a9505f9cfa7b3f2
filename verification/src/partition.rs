//! Where the sectors of a partition lie on the device.

use vstd::prelude::*;

verus! {

/// A partition: where it starts on the device, and how large its own
/// (logical) sectors are.
#[derive(Debug, Clone, Copy, PartialEq, Eq, Structural)]
pub struct Partition {
    /// The device sector at which the partition starts.
    pub start: u64,
    /// The number of bytes in a logical sector of the partition.
    pub sector_size: u64,
}

impl Partition {
    /// How many device sectors of `device_len` bytes make up one logical
    /// sector.
    pub open spec fn spec_factor(&self, device_len: nat) -> nat {
        if device_len == 0 {
            0
        } else {
            self.sector_size as nat / device_len
        }
    }

    /// The device sectors behind the sector `sector`: the first of them
    /// and their number.
    ///
    /// Sectors before the partition, and all sectors where logical and
    /// device sectors have one size, are device sectors themselves. A sector
    /// inside the partition counts in logical sectors from the partition's
    /// start. The result is `None` where the device sectors would lie
    /// beyond what 64 bits can number.
    pub open spec fn spec_physical(&self, device_len: nat, sector: u64) -> Option<(u64, u64)> {
        if self.sector_size == device_len || sector < self.start {
            Some((sector, 1u64))
        } else {
            let factor = self.spec_factor(device_len);
            let first = self.start + (sector - self.start) * factor;
            if first + factor <= u64::MAX {
                Some((first as u64, factor as u64))
            } else {
                None
            }
        }
    }

    /// The device sectors behind the sector `sector`, for a device whose
    /// sectors hold `device_sector_size` bytes.
    pub fn physical(&self, device_sector_size: u64, sector: u64) -> (r: Option<(u64, u64)>)
        requires
            device_sector_size > 0,
        ensures
            r == self.spec_physical(device_sector_size as nat, sector),
    {
        if self.sector_size == device_sector_size || sector < self.start {
            return Some((sector, 1));
        }
        let factor: u64 = self.sector_size / device_sector_size;
        let offset: u64 = sector - self.start;
        proof {
            assert(0 <= offset * factor) by (nonlinear_arith)
                requires
                    0 <= offset,
                    0 <= factor,
            ;
        }
        let scaled: u64 = match offset.checked_mul(factor) {
            Some(v) => v,
            None => {
                return None;
            },
        };
        let first: u64 = match self.start.checked_add(scaled) {
            Some(v) => v,
            None => {
                return None;
            },
        };
        match first.checked_add(factor) {
            Some(_) => Some((first, factor)),
            None => None,
        }
    }

    /// Different sectors lie on different device sectors.
    pub proof fn lemma_apart(&self, device_len: nat, a: u64, b: u64)
        requires
            a != b,
            self.spec_physical(device_len, a) is Some,
            self.spec_physical(device_len, b) is Some,
        ensures
            ({
                let (first_a, count_a) = self.spec_physical(device_len, a).unwrap();
                let (first_b, count_b) = self.spec_physical(device_len, b).unwrap();
                first_a + count_a <= first_b || first_b + count_b <= first_a
            }),
    {
        if self.sector_size == device_len {
        } else if a < self.start && b < self.start {
        } else if a < self.start {
            let factor = self.spec_factor(device_len);
            assert(0 <= (b - self.start) * factor) by (nonlinear_arith)
                requires
                    0 <= b - self.start,
                    0 <= factor,
            ;
        } else if b < self.start {
            let factor = self.spec_factor(device_len);
            assert(0 <= (a - self.start) * factor) by (nonlinear_arith)
                requires
                    0 <= a - self.start,
                    0 <= factor,
            ;
        } else {
            let factor = self.spec_factor(device_len) as int;
            let x = a - self.start;
            let y = b - self.start;
            if x < y {
                assert(x * factor + factor <= y * factor) by (nonlinear_arith)
                    requires
                        x + 1 <= y,
                        0 <= factor,
                ;
            } else {
                assert(y * factor + factor <= x * factor) by (nonlinear_arith)
                    requires
                        y + 1 <= x,
                        0 <= factor,
                ;
            }
        }
    }
}

} // verus!
