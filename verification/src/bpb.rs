//! The BIOS parameter block: the layout of a FAT32 volume.

use vstd::prelude::*;
use crate::bytes::{read_le16, read_le32};
use crate::device::{read_sectors, BlockDevice, Sectors};
use crate::error::Error;
use crate::mbr::check_boot_signature;

verus! {

/// The fields of the BIOS parameter block that lay out a volume.
#[derive(Debug, Clone, Copy, PartialEq, Eq, Structural)]
pub struct BiosParameterBlock {
    /// The number of bytes in a logical sector.
    pub bytes_per_sector: u16,
    /// The number of sectors in a cluster.
    pub sectors_per_cluster: u8,
    /// The number of sectors before the first file allocation table.
    pub num_reserved_sectors: u16,
    /// The number of copies of the file allocation table.
    pub num_of_fats: u8,
    /// The number of sectors in one file allocation table.
    pub sectors_per_fat: u32,
    /// The cluster at which the root directory starts.
    pub root_dir_cluster: u32,
}

impl BiosParameterBlock {
    /// The fields stored in the boot sector `s`.
    pub open spec fn spec_fields(s: Seq<u8>) -> BiosParameterBlock {
        BiosParameterBlock {
            bytes_per_sector: crate::bytes::le16(s, 11) as u16,
            sectors_per_cluster: s[13],
            num_reserved_sectors: crate::bytes::le16(s, 14) as u16,
            num_of_fats: s[16],
            sectors_per_fat: crate::bytes::le32(s, 36) as u32,
            root_dir_cluster: crate::bytes::le32(s, 44) as u32,
        }
    }

    /// What parsing the boot sector `s` gives: its fields, or
    /// `BadSignature` where the signature is missing.
    pub open spec fn spec_parse(s: Seq<u8>) -> Result<BiosParameterBlock, Error> {
        if crate::mbr::has_boot_signature(s) {
            Ok(Self::spec_fields(s))
        } else {
            Err(Error::BadSignature)
        }
    }

    /// Whether a volume can be laid out as the fields say: sectors hold a
    /// positive number of whole FAT entries, clusters hold at least one
    /// sector, there is at least one table with at least one sector, and the
    /// root directory starts at a data cluster.
    pub open spec fn consistent(self) -> bool {
        &&& self.bytes_per_sector > 0
        &&& self.bytes_per_sector % 4 == 0
        &&& self.sectors_per_cluster > 0
        &&& self.num_of_fats > 0
        &&& self.sectors_per_fat > 0
        &&& 2 <= self.root_dir_cluster <= crate::cluster::CLUSTER_MASK
    }

    /// The sector at which the first file allocation table starts, for a
    /// partition that starts at `partition_start`.
    pub open spec fn spec_fat_start_sector(self, partition_start: u32) -> nat {
        (partition_start + self.num_reserved_sectors) as nat
    }

    /// The sector at which the data clusters start: behind all the tables.
    pub open spec fn spec_data_start_sector(self, partition_start: u32) -> nat {
        (partition_start + self.num_reserved_sectors + self.num_of_fats * self.sectors_per_fat) as nat
    }

    /// Parses a boot sector.
    pub fn parse(bytes: &[u8]) -> (r: Result<BiosParameterBlock, Error>)
        ensures
            r == BiosParameterBlock::spec_parse(bytes@),
    {
        if !check_boot_signature(bytes) {
            return Err(Error::BadSignature);
        }
        Ok(
            BiosParameterBlock {
                bytes_per_sector: read_le16(bytes, 11),
                sectors_per_cluster: bytes[13],
                num_reserved_sectors: read_le16(bytes, 14),
                num_of_fats: bytes[16],
                sectors_per_fat: read_le32(bytes, 36),
                root_dir_cluster: read_le32(bytes, 44),
            },
        )
    }

    /// Reads the device sector `sector` and parses it.
    ///
    /// Where the device delivers the sector, the result is that of `parse`
    /// on it; where it fails, its error is handed on.
    pub fn from<D: BlockDevice>(device: &mut D, sector: u64) -> (r: Result<
        BiosParameterBlock,
        Error,
    >)
        requires
            old(device).sector_len() <= usize::MAX,
        ensures
            final(device).sector_len() == old(device).sector_len(),
            forall|k: u64| #[trigger] final(device).sector(k) == old(device).sector(k),
            r is Err && r->Err_0 is Io || r == BiosParameterBlock::spec_parse(
                old(device).sector(sector),
            ),
    {
        let bytes: Vec<u8> = match read_sectors(device, sector, 1) {
            Ok(bytes) => bytes,
            Err(e) => {
                return Err(Error::Io(e));
            },
        };
        proof {
            crate::device::lemma_gather_one(*old(device), sector);
        }
        BiosParameterBlock::parse(bytes.as_slice())
    }

    /// Whether a volume can be laid out as the fields say.
    pub fn is_consistent(&self) -> (ok: bool)
        ensures
            ok == self.consistent(),
    {
        self.bytes_per_sector > 0 && self.bytes_per_sector % 4 == 0 && self.sectors_per_cluster > 0
            && self.num_of_fats > 0 && self.sectors_per_fat > 0 && 2 <= self.root_dir_cluster
            && self.root_dir_cluster <= crate::cluster::CLUSTER_MASK
    }

    /// The sector at which the first file allocation table starts.
    pub fn fat_start_sector(&self, partition_start: u32) -> (sector: u64)
        ensures
            sector == self.spec_fat_start_sector(partition_start),
    {
        partition_start as u64 + self.num_reserved_sectors as u64
    }

    /// The sector at which the data clusters start.
    pub fn data_start_sector(&self, partition_start: u32) -> (sector: u64)
        ensures
            sector == self.spec_data_start_sector(partition_start),
            sector == self.spec_fat_start_sector(partition_start) + self.num_of_fats
                * self.sectors_per_fat,
    {
        assert(self.num_of_fats * self.sectors_per_fat <= 0xFF * 0xFFFF_FFFF) by (nonlinear_arith)
            requires
                0 <= self.num_of_fats <= 0xFF,
                0 <= self.sectors_per_fat <= 0xFFFF_FFFF,
        ;
        let tables: u64 = self.num_of_fats as u64 * self.sectors_per_fat as u64;
        self.fat_start_sector(partition_start) + tables
    }
}

} // verus!
