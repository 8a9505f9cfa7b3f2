//! Entries of the file allocation table.

use vstd::prelude::*;
use crate::cluster::Cluster;

verus! {

/// What a FAT entry says of its cluster.
#[derive(Debug, Clone, Copy, PartialEq, Eq, Structural)]
pub enum Status {
    /// The cluster is unused.
    Free,
    /// The value is reserved: not allocatable and not part of a chain.
    Reserved,
    /// The cluster holds data; the chain goes on with the given cluster.
    Data(Cluster),
    /// The cluster is marked defective.
    Bad,
    /// The cluster is the last of its chain; the marker is the entry's value.
    Eoc(u32),
}

/// One 32-bit entry of the file allocation table, as stored on disk.
#[derive(Debug, Clone, Copy, PartialEq, Eq, Structural)]
pub struct FatEntry(pub u32);

impl FatEntry {
    /// The status that the raw value `raw` stands for. Only the low 28 bits
    /// count: 0 is free, 1 and `0x0FFFFFF0..=0x0FFFFFF6` are reserved,
    /// `0x0FFFFFF7` is a bad cluster, `0x0FFFFFF8` and above end a chain and
    /// every other value names the next cluster.
    pub open spec fn spec_status(raw: u32) -> Status {
        let v = raw & crate::cluster::CLUSTER_MASK;
        if v == 0 {
            Status::Free
        } else if v == 1 {
            Status::Reserved
        } else if v <= 0x0FFF_FFEF {
            Status::Data(Cluster::spec_from(v))
        } else if v <= 0x0FFF_FFF6 {
            Status::Reserved
        } else if v == 0x0FFF_FFF7 {
            Status::Bad
        } else {
            Status::Eoc(v)
        }
    }

    /// The cluster that follows in the chain, if the raw value names one.
    pub open spec fn spec_next(raw: u32) -> Option<u32> {
        let v = raw & crate::cluster::CLUSTER_MASK;
        if 2 <= v <= 0x0FFF_FFEF {
            Some(v)
        } else {
            None
        }
    }

    /// `spec_next` is the number held by a `Data` status, and nothing else
    /// continues a chain.
    pub proof fn lemma_next_is_data(raw: u32)
        ensures
            match FatEntry::spec_status(raw) {
                Status::Data(next) => FatEntry::spec_next(raw) == Some(next@) && next.is_data(),
                _ => FatEntry::spec_next(raw) is None,
            },
    {
        let v = raw & crate::cluster::CLUSTER_MASK;
        Cluster::lemma_spec_from(v);
        Cluster::lemma_spec_from(raw);
    }

    /// A next cluster is a data cluster of 28 bits.
    pub proof fn lemma_next_bounds(raw: u32)
        ensures
            FatEntry::spec_next(raw) matches Some(n) ==> 2 <= n <= crate::cluster::CLUSTER_MASK,
    {
    }

    /// Decodes the entry.
    pub fn status(&self) -> (s: Status)
        ensures
            s == FatEntry::spec_status(self.0),
    {
        let v: u32 = self.0 & crate::cluster::CLUSTER_MASK;
        if v == 0 {
            Status::Free
        } else if v == 1 {
            Status::Reserved
        } else if v <= 0x0FFF_FFEF {
            Status::Data(Cluster::from(v))
        } else if v <= 0x0FFF_FFF6 {
            Status::Reserved
        } else if v == 0x0FFF_FFF7 {
            Status::Bad
        } else {
            Status::Eoc(v)
        }
    }
}

} // verus!
