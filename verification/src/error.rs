//! Errors reported by the driver.

use vstd::prelude::*;

verus! {

/// A failure reported by a block device.
#[derive(Debug, Clone, Copy, PartialEq, Eq, Structural)]
pub struct IoError {
    /// Device-specific failure code.
    pub code: u32,
}

/// Everything that can go wrong while mounting or reading a volume.
#[derive(Debug, Clone, Copy, PartialEq, Eq, Structural)]
pub enum Error {
    /// The block device failed; its error is carried unchanged.
    Io(IoError),
    /// A boot sector does not end in the bytes `0x55 0xAA`.
    BadSignature,
    /// A partition entry's boot indicator is neither `0x00` nor `0x80`.
    UnknownBootIndicator(u8),
    /// The BIOS parameter block describes an impossible layout.
    BadGeometry,
    /// A sector number cannot be mapped onto the device.
    OutOfRange,
    /// A path component names nothing in its directory.
    NotFound,
    /// The operation would modify the volume, which is read-only.
    ReadOnly,
}

} // verus!
