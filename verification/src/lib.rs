//! A read-only FAT32 driver over a block-addressable device.
//!
//! The crate parses the partition table and the BIOS parameter block, keeps a
//! cache of sectors in front of the device, walks cluster chains through the
//! file allocation table and resolves paths to files and directories. Every
//! function carries a contract over a mathematical model of the volume.

pub mod bpb;
pub mod bytes;
pub mod cache;
pub mod cluster;
pub mod device;
pub mod entry;
pub mod error;
pub mod fat;
pub mod longname;
pub mod mbr;
pub mod partition;
pub mod path;
pub mod resolve;
pub mod vfat;
pub mod volume;
