//! The master boot record: the partition table at the start of a device.

use vstd::prelude::*;
use crate::bytes::read_le32;
use crate::device::{read_sectors, BlockDevice, Sectors};
use crate::error::Error;

verus! {

/// The number of bytes in a boot sector.
pub const BOOT_SECTOR_LEN: usize = 512;

/// Where the partition table starts in the master boot record.
pub const TABLE_OFFSET: usize = 446;

/// The number of bytes in one entry of the partition table.
pub const ENTRY_LEN: usize = 16;

/// Whether `s` is long enough for a boot sector and ends it with the
/// bytes `0x55 0xAA`.
pub open spec fn has_boot_signature(s: Seq<u8>) -> bool {
    s.len() >= 512 && s[510] == 0x55 && s[511] == 0xAA
}

/// Checks the boot signature.
pub fn check_boot_signature(bytes: &[u8]) -> (ok: bool)
    ensures
        ok == has_boot_signature(bytes@),
{
    bytes.len() >= BOOT_SECTOR_LEN && bytes[510] == 0x55 && bytes[511] == 0xAA
}

/// One entry of the partition table.
#[derive(Debug, Clone, Copy, PartialEq, Eq, Structural)]
pub struct PartitionEntry {
    /// `0x80` for a bootable partition, `0x00` for any other.
    pub boot_indicator: u8,
    /// The type of the partition; `0x0B` and `0x0C` are FAT32.
    pub partition_type: u8,
    /// The device sector at which the partition starts.
    pub relative_sector: u32,
    /// The number of sectors in the partition.
    pub total_sectors: u32,
}

impl PartitionEntry {
    /// The entry stored in the 16 bytes of `s` that start at `at`.
    pub open spec fn spec_parse(s: Seq<u8>, at: int) -> PartitionEntry {
        PartitionEntry {
            boot_indicator: s[at],
            partition_type: s[at + 4],
            relative_sector: crate::bytes::le32(s, at + 8) as u32,
            total_sectors: crate::bytes::le32(s, at + 12) as u32,
        }
    }

    /// Whether the boot indicator is one of the two values allowed.
    pub open spec fn indicator_known(self) -> bool {
        self.boot_indicator == 0x00 || self.boot_indicator == 0x80
    }

    /// Decodes the entry that starts at `at`.
    pub fn parse(bytes: &[u8], at: usize) -> (entry: PartitionEntry)
        requires
            at + 16 <= bytes@.len(),
        ensures
            entry == PartitionEntry::spec_parse(bytes@, at as int),
    {
        PartitionEntry {
            boot_indicator: bytes[at],
            partition_type: bytes[at + 4],
            relative_sector: read_le32(bytes, at + 8),
            total_sectors: read_le32(bytes, at + 12),
        }
    }

    /// Whether the boot indicator is one of the two values allowed.
    pub fn has_known_indicator(&self) -> (ok: bool)
        ensures
            ok == self.indicator_known(),
    {
        self.boot_indicator == 0x00 || self.boot_indicator == 0x80
    }
}

/// The master boot record: a table of four partitions.
#[derive(Debug, Clone, Copy)]
pub struct MasterBootRecord {
    /// The four entries of the partition table.
    pub table: [PartitionEntry; 4],
}

impl MasterBootRecord {
    /// Entry `i` of the partition table stored in the boot sector `s`.
    pub open spec fn spec_entry(s: Seq<u8>, i: int) -> PartitionEntry {
        PartitionEntry::spec_parse(s, 446 + 16 * i)
    }

    /// What parsing the boot sector `s` gives: the four entries, or
    /// `BadSignature` where the signature is missing, or
    /// `UnknownBootIndicator` with the index of the first entry whose boot
    /// indicator is not allowed.
    pub open spec fn spec_parse(s: Seq<u8>) -> Result<Seq<PartitionEntry>, Error> {
        if !has_boot_signature(s) {
            Err(Error::BadSignature)
        } else if !Self::spec_entry(s, 0).indicator_known() {
            Err(Error::UnknownBootIndicator(0))
        } else if !Self::spec_entry(s, 1).indicator_known() {
            Err(Error::UnknownBootIndicator(1))
        } else if !Self::spec_entry(s, 2).indicator_known() {
            Err(Error::UnknownBootIndicator(2))
        } else if !Self::spec_entry(s, 3).indicator_known() {
            Err(Error::UnknownBootIndicator(3))
        } else {
            Ok(
                seq![
                    Self::spec_entry(s, 0),
                    Self::spec_entry(s, 1),
                    Self::spec_entry(s, 2),
                    Self::spec_entry(s, 3),
                ],
            )
        }
    }

    /// Parses a boot sector.
    pub fn parse(bytes: &[u8]) -> (r: Result<MasterBootRecord, Error>)
        ensures
            match r {
                Ok(mbr) => MasterBootRecord::spec_parse(bytes@) == Ok::<Seq<PartitionEntry>, Error>(
                    mbr.table@,
                ),
                Err(e) => MasterBootRecord::spec_parse(bytes@) == Err::<Seq<PartitionEntry>, Error>(
                    e,
                ),
            },
    {
        if !check_boot_signature(bytes) {
            return Err(Error::BadSignature);
        }
        let e0 = PartitionEntry::parse(bytes, TABLE_OFFSET);
        if !e0.has_known_indicator() {
            return Err(Error::UnknownBootIndicator(0));
        }
        let e1 = PartitionEntry::parse(bytes, TABLE_OFFSET + ENTRY_LEN);
        if !e1.has_known_indicator() {
            return Err(Error::UnknownBootIndicator(1));
        }
        let e2 = PartitionEntry::parse(bytes, TABLE_OFFSET + 2 * ENTRY_LEN);
        if !e2.has_known_indicator() {
            return Err(Error::UnknownBootIndicator(2));
        }
        let e3 = PartitionEntry::parse(bytes, TABLE_OFFSET + 3 * ENTRY_LEN);
        if !e3.has_known_indicator() {
            return Err(Error::UnknownBootIndicator(3));
        }
        let mbr = MasterBootRecord { table: [e0, e1, e2, e3] };
        assert(mbr.table@ =~= seq![e0, e1, e2, e3]);
        Ok(mbr)
    }

    /// Reads the first sector of the device and parses it.
    ///
    /// Where the device delivers the sector, the result is that of `parse`
    /// on it; where it fails, its error is handed on.
    pub fn from<D: BlockDevice>(device: &mut D) -> (r: Result<MasterBootRecord, Error>)
        requires
            old(device).sector_len() <= usize::MAX,
        ensures
            final(device).sector_len() == old(device).sector_len(),
            forall|k: u64| #[trigger] final(device).sector(k) == old(device).sector(k),
            match r {
                Ok(mbr) => MasterBootRecord::spec_parse(old(device).sector(0)) == Ok::<
                    Seq<PartitionEntry>,
                    Error,
                >(mbr.table@),
                Err(e) => e is Io || MasterBootRecord::spec_parse(old(device).sector(0)) == Err::<
                    Seq<PartitionEntry>,
                    Error,
                >(e),
            },
    {
        let bytes: Vec<u8> = match read_sectors(device, 0, 1) {
            Ok(bytes) => bytes,
            Err(e) => {
                return Err(Error::Io(e));
            },
        };
        proof {
            crate::device::lemma_gather_one(*old(device), 0);
        }
        MasterBootRecord::parse(bytes.as_slice())
    }
}

} // verus!
