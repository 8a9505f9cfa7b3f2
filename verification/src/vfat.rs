//! The mounted volume: its layout, its cache, and the walk along cluster
//! chains.

use vstd::prelude::*;
use crate::bpb::BiosParameterBlock;
use crate::cache::CachedDevice;
use crate::cluster::Cluster;
use crate::device::{BlockDevice, Sectors};
use crate::error::Error;
use crate::fat::{FatEntry, Status};
use crate::mbr::MasterBootRecord;
use crate::partition::Partition;
use crate::volume::{ChainEnd, Volume};

verus! {

/// What the boot sectors of `device` say of the volume in its first
/// partition: the BIOS parameter block and the sector at which the
/// partition starts, or the error that mounting ends with.
///
/// The master boot record is sector 0; the parameter block is the first
/// sector of the first partition. A layout that is not consistent, or
/// whose sectors are not a whole number of device sectors, is
/// `BadGeometry`.
pub open spec fn spec_layout<D: BlockDevice>(device: D) -> Result<(BiosParameterBlock, u32), Error> {
    match MasterBootRecord::spec_parse(device.sector(0)) {
        Err(e) => Err(e),
        Ok(table) => {
            let start = table[0].relative_sector;
            match BiosParameterBlock::spec_parse(device.sector(start as u64)) {
                Err(e) => Err(e),
                Ok(bpb) => if bpb.consistent() && device.sector_len() > 0 && bpb.bytes_per_sector
                    as nat % device.sector_len() == 0 {
                    Ok((bpb, start))
                } else {
                    Err(Error::BadGeometry)
                },
            }
        },
    }
}

/// The volume that `device` holds, laid out as `bpb` says in a partition
/// that starts at `start`.
pub open spec fn spec_volume<D: BlockDevice>(device: D, bpb: BiosParameterBlock, start: u32) -> Volume {
    Volume {
        bytes_per_sector: bpb.bytes_per_sector as nat,
        sectors_per_cluster: bpb.sectors_per_cluster as nat,
        sectors_per_fat: bpb.sectors_per_fat as nat,
        fat_start_sector: bpb.spec_fat_start_sector(start),
        data_start_sector: bpb.spec_data_start_sector(start),
        root_dir_cluster: bpb.root_dir_cluster,
        sectors: Map::new(
            |s: u64| true,
            |s: u64|
                crate::cache::on_device(
                    device,
                    Partition { start: start as u64, sector_size: bpb.bytes_per_sector as u64 },
                    s,
                ),
        ),
    }
}

/// The clusters of a chain, and how the walk along it ended.
#[derive(Debug, Clone, PartialEq, Eq)]
pub struct Chain {
    /// The clusters, in the order of the chain.
    pub clusters: Vec<Cluster>,
    /// How the walk ended.
    pub end: ChainEnd,
}

/// The numbers of a sequence of clusters.
pub open spec fn numbers(clusters: Seq<Cluster>) -> Seq<u32> {
    Seq::new(clusters.len(), |i: int| clusters[i]@)
}

/// A mounted FAT32 volume over a cached block device.
pub struct VFat<D: BlockDevice> {
    device: CachedDevice<D>,
    bytes_per_sector: u16,
    sectors_per_cluster: u8,
    sectors_per_fat: u32,
    fat_start_sector: u64,
    data_start_sector: u64,
    /// The cluster at which the root directory starts.
    pub root_dir_cluster: Cluster,
}

impl<D: BlockDevice> View for VFat<D> {
    type V = Volume;

    /// The volume as the driver sees it: the layout, and every sector as
    /// seen through the cache.
    closed spec fn view(&self) -> Volume {
        Volume {
            bytes_per_sector: self.bytes_per_sector as nat,
            sectors_per_cluster: self.sectors_per_cluster as nat,
            sectors_per_fat: self.sectors_per_fat as nat,
            fat_start_sector: self.fat_start_sector as nat,
            data_start_sector: self.data_start_sector as nat,
            root_dir_cluster: self.root_dir_cluster@,
            sectors: Map::new(|s: u64| true, |s: u64| self.device.sector(s)),
        }
    }
}

impl<D: BlockDevice> VFat<D> {
    /// The cache is well formed, the partition's sectors are those of the
    /// layout, and the model is well formed.
    pub closed spec fn wf(&self) -> bool {
        &&& self.device.wf()
        &&& self.device.partition().sector_size == self.bytes_per_sector
        &&& self.device.partition().start <= self.fat_start_sector
        &&& self.device.partition().start <= 0xFFFF_FFFF
        &&& self.bytes_per_sector as nat % self.device.device_sector_len() == 0
        &&& self@.wf()
    }

    /// Whether the cache holds the sector.
    pub closed spec fn is_cached(&self, sector: u64) -> bool {
        self.device.is_cached(sector)
    }

    /// Whether the cache holds the sector with bytes still to be written.
    pub closed spec fn is_dirty(&self, sector: u64) -> bool {
        self.device.is_dirty(sector)
    }

    /// Whether the cache holds every sector of the data cluster `c`.
    pub open spec fn cluster_cached(&self, c: u32) -> bool {
        forall|k: u64| self@.in_cluster(c, k) ==> #[trigger] self.is_cached(k)
    }

    /// Whether no sector of the data cluster `c` is dirty.
    pub open spec fn cluster_clean(&self, c: u32) -> bool {
        forall|k: u64| self@.in_cluster(c, k) ==> !#[trigger] self.is_dirty(k)
    }

    /// Whether the cache holds the sector with the table entry of cluster
    /// `c`.
    pub open spec fn entry_cached(&self, c: u32) -> bool {
        self.is_cached(self@.fat_sector(c) as u64)
    }

    /// Whether the cache holds all that a read of cluster `c` and of its
    /// table entry needs.
    pub open spec fn step_cached(&self, c: u32) -> bool {
        self.cluster_cached(c) && self.entry_cached(c)
    }

    /// Whether the cache holds every sector that a read along the chain
    /// from `start` needs: no device is asked then.
    pub open spec fn chain_cached(&self, start: u32) -> bool {
        forall|j: int|
            0 <= j < self@.chain(start).len() ==> #[trigger] self.step_cached(
                self@.chain(start)[j],
            )
    }

    /// Whether the cache holds the table entry of every cluster of the
    /// chain from `start`: a walk that reads the table alone asks no device
    /// then.
    pub open spec fn table_cached(&self, start: u32) -> bool {
        forall|j: int|
            0 <= j < self@.chain(start).len() ==> #[trigger] self.entry_cached(
                self@.chain(start)[j],
            )
    }

    /// Whether a sync of cluster `c` and the read of its table entry need
    /// no device: no sector of the cluster is dirty, and the entry is
    /// cached.
    pub open spec fn step_settled(&self, c: u32) -> bool {
        self.cluster_clean(c) && self.entry_cached(c)
    }

    /// Whether a sync along the chain from `start` needs no device: every
    /// step is settled and, where the sync evicts, no sector of the chain
    /// holds a table entry of the chain.
    pub open spec fn chain_settled(&self, start: u32, remove: bool) -> bool {
        &&& forall|j: int|
            0 <= j < self@.chain(start).len() ==> #[trigger] self.step_settled(
                self@.chain(start)[j],
            )
        &&& remove ==> forall|j: int, m: int|
            0 <= j < self@.chain(start).len() && 0 <= m < self@.chain(start).len()
                ==> !#[trigger] self@.in_cluster(
                self@.chain(start)[j],
                self@.fat_sector(self@.chain(start)[m]) as u64,
            )
    }

    /// A well-formed volume has a well-formed model.
    pub proof fn lemma_wf(&self)
        requires
            self.wf(),
        ensures
            self@.wf(),
    {
    }

    /// Every sector of the volume can be mapped onto the device.
    proof fn lemma_mapped(&self, s: u64)
        requires
            self.wf(),
            self.fat_start_sector <= s < crate::volume::SECTOR_LIMIT,
        ensures
            self.device.physical(s) is Some,
            self.device.sector(s).len() == self.bytes_per_sector,
            self@.sectors[s] == self.device.sector(s),
    {
        self.device.lemma_wf(s);
        let start = self.device.partition().start as int;
        let len = self.device.device_sector_len();
        let factor = self.device.partition().spec_factor(len) as int;
        assert(factor <= 0xFFFF) by {
            vstd::arithmetic::div_mod::lemma_div_is_ordered_by_denominator(
                self.bytes_per_sector as int,
                1,
                len as int,
            );
            vstd::arithmetic::div_mod::lemma_div_basics(self.bytes_per_sector as int);
        }
        assert(0 <= (s - start) * factor <= 0x200_0000_0000 * 0xFFFF) by (nonlinear_arith)
            requires
                0 <= s - start <= 0x200_0000_0000,
                0 <= factor <= 0xFFFF,
        ;
        assert(self@.sectors[s].len() == self.bytes_per_sector);
    }

    /// Mounts the volume in the first partition of `device`.
    ///
    /// Reads the master boot record, then the BIOS parameter block at the
    /// start of the first partition. Where the device delivers both
    /// sectors, the outcome is that of `spec_layout`: the mounted volume, or
    /// the error of the first sector that does not parse, or `BadGeometry`.
    /// Where the device fails, its error is handed on.
    pub fn from(device: D) -> (r: Result<VFat<D>, Error>)
        requires
            device.sector_len() <= usize::MAX,
        ensures
            match r {
                Ok(fs) => {
                    &&& fs.wf()
                    &&& spec_layout(device) is Ok
                    &&& fs@ == spec_volume(
                        device,
                        spec_layout(device)->Ok_0.0,
                        spec_layout(device)->Ok_0.1,
                    )
                    &&& forall|s: u64| !fs.is_cached(s)
                    &&& forall|s: u64| !fs.is_dirty(s)
                },
                Err(e) => e is Io || spec_layout(device) == Err::<(BiosParameterBlock, u32), Error>(
                    e,
                ),
            },
    {
        let mut device = device;
        let ghost given = device;
        let mbr = match MasterBootRecord::from(&mut device) {
            Ok(mbr) => mbr,
            Err(e) => {
                return Err(e);
            },
        };
        let start: u32 = mbr.table[0].relative_sector;
        let bpb = match BiosParameterBlock::from(&mut device, start as u64) {
            Ok(bpb) => bpb,
            Err(e) => {
                return Err(e);
            },
        };
        let device_size: u64 = device.sector_size();
        if !bpb.is_consistent() || device_size == 0 || bpb.bytes_per_sector as u64 % device_size
            != 0 {
            return Err(Error::BadGeometry);
        }
        let partition = Partition { start: start as u64, sector_size: bpb.bytes_per_sector as u64 };
        let root = Cluster::from(bpb.root_dir_cluster);
        let fat_start_sector = bpb.fat_start_sector(start);
        let data_start_sector = bpb.data_start_sector(start);
        proof {
            Cluster::lemma_spec_from(bpb.root_dir_cluster);
            assert(bpb.num_of_fats * bpb.sectors_per_fat <= 0xFF * 0xFFFF_FFFF) by (nonlinear_arith)
                requires
                    0 <= bpb.num_of_fats <= 0xFF,
                    0 <= bpb.sectors_per_fat <= 0xFFFF_FFFF,
            ;
            assert(0 <= bpb.num_of_fats * bpb.sectors_per_fat) by (nonlinear_arith)
                requires
                    0 <= bpb.num_of_fats,
                    0 <= bpb.sectors_per_fat,
            ;
            assert(bpb.sectors_per_fat <= bpb.num_of_fats * bpb.sectors_per_fat)
                by (nonlinear_arith)
                requires
                    1 <= bpb.num_of_fats,
                    0 <= bpb.sectors_per_fat,
            ;
            if device_size > bpb.bytes_per_sector {
                vstd::arithmetic::div_mod::lemma_small_mod(
                    bpb.bytes_per_sector as nat,
                    device_size as nat,
                );
            }
        }
        let cached = CachedDevice::new(device, partition);
        let fs = VFat {
            device: cached,
            bytes_per_sector: bpb.bytes_per_sector,
            sectors_per_cluster: bpb.sectors_per_cluster,
            sectors_per_fat: bpb.sectors_per_fat,
            fat_start_sector,
            data_start_sector,
            root_dir_cluster: root,
        };
        proof {
            assert forall|s: u64| #[trigger] fs.device.sector(s) == crate::cache::on_device(
                given,
                partition,
                s,
            ) by {
                crate::cache::lemma_on_device_agree(device, given, partition, s);
            }
            assert(fs@.sectors =~= spec_volume(given, bpb, start).sectors);
            assert forall|s: u64| !fs.is_dirty(s) by {
                fs.device.lemma_wf(s);
            }
            assert forall|s: u64|
                fs@.fat_start_sector <= s < crate::volume::SECTOR_LIMIT implies fs@.sectors.dom().contains(
                s,
            ) && (#[trigger] fs@.sectors[s]).len() == fs@.bytes_per_sector by {
                fs.device.lemma_wf(s);
                let len = device_size as int;
                let bps = bpb.bytes_per_sector as int;
                assert(fs.device.physical(s) == partition.spec_physical(len as nat, s));
                assert(fs@.sectors[s] == fs.device.sector(s));
                if bps != len {
                    let factor = bps / len;
                    assert(partition.spec_factor(len as nat) == factor);
                    vstd::arithmetic::div_mod::lemma_fundamental_div_mod(bps, len);
                    assert(len * factor == factor * len) by (nonlinear_arith);
                    assert(0 <= factor <= 0xFFFF) by {
                        vstd::arithmetic::div_mod::lemma_div_is_ordered_by_denominator(bps, 1, len);
                        vstd::arithmetic::div_mod::lemma_div_basics(bps);
                        vstd::arithmetic::div_mod::lemma_div_pos_is_pos(bps, len);
                    }
                    assert(0 <= (s - start) * factor <= 0x200_0000_0000 * 0xFFFF)
                        by (nonlinear_arith)
                        requires
                            0 <= s - start <= 0x200_0000_0000,
                            0 <= factor <= 0xFFFF,
                    ;
                    assert(fs.device.physical(s) is Some);
                    assert(fs.device.physical(s)->Some_0.1 == factor);
                    assert(fs.device.sector(s).len() == factor * len);
                } else {
                    assert(fs.device.physical(s) == Some((s, 1u64)));
                    assert(fs.device.sector(s).len() == 1 * len);
                }
            }
        }
        Ok(fs)
    }

    /// The number of bytes in a sector.
    pub fn bytes_per_sector(&self) -> (n: u16)
        ensures
            n == self@.bytes_per_sector,
    {
        self.bytes_per_sector
    }

    /// The number of sectors in a cluster.
    pub fn sectors_per_cluster(&self) -> (n: u8)
        ensures
            n == self@.sectors_per_cluster,
    {
        self.sectors_per_cluster
    }

    /// The number of sectors in one file allocation table.
    pub fn sectors_per_fat(&self) -> (n: u32)
        ensures
            n == self@.sectors_per_fat,
    {
        self.sectors_per_fat
    }

    /// The sector at which the first file allocation table starts.
    pub fn fat_start_sector(&self) -> (n: u64)
        ensures
            n == self@.fat_start_sector,
    {
        self.fat_start_sector
    }

    /// The sector at which the data clusters start.
    pub fn data_start_sector(&self) -> (n: u64)
        ensures
            n == self@.data_start_sector,
    {
        self.data_start_sector
    }

    /// The cluster at which the root directory starts.
    pub fn root(&self) -> (cluster: Cluster)
        ensures
            cluster@ == self@.root_dir_cluster,
    {
        self.root_dir_cluster
    }

    /// The number of clusters that the file allocation table has an entry
    /// for: the most that any walk along a chain visits.
    pub fn cluster_limit(&self) -> (n: u64)
        requires
            self.wf(),
        ensures
            n == self@.cluster_limit(),
            n >= 1,
    {
        proof {
            self@.lemma_cluster_limit_pos();
            assert(self.sectors_per_fat * self.bytes_per_sector <= 0xFFFF_FFFF * 0xFFFF)
                by (nonlinear_arith)
                requires
                    0 <= self.sectors_per_fat <= 0xFFFF_FFFF,
                    0 <= self.bytes_per_sector <= 0xFFFF,
            ;
        }
        (self.sectors_per_fat as u64 * self.bytes_per_sector as u64) / 4
    }

    /// The first sector of the data cluster `cluster`.
    pub fn sector(&self, cluster: Cluster) -> (s: u64)
        requires
            self.wf(),
            cluster.is_data(),
        ensures
            s == self@.first_sector(cluster@),
            s + self@.sectors_per_cluster <= crate::volume::SECTOR_LIMIT,
    {
        let c: u64 = cluster.to64();
        proof {
            self@.lemma_sector_bound(cluster@, 0);
            self@.lemma_sector_bound(cluster@, (self.sectors_per_cluster - 1) as nat);
            assert(0 <= (c - 2) * self.sectors_per_cluster <= 0x0FFF_FFFF * 0xFF)
                by (nonlinear_arith)
                requires
                    2 <= c <= 0x0FFF_FFFF,
                    0 < self.sectors_per_cluster <= 0xFF,
            ;
        }
        self.data_start_sector + (c - 2) * (self.sectors_per_cluster as u64)
    }

    /// The table entry of `cluster`, read through the cache and returned
    /// by value.
    ///
    /// The volume is the same before and after. Where the sector of the
    /// table that holds the entry is cached, the call succeeds; else the
    /// device decides, and its error is handed on.
    pub fn fat_entry(&mut self, cluster: Cluster) -> (r: Result<FatEntry, Error>)
        requires
            old(self).wf(),
        ensures
            final(self).wf(),
            final(self)@ == old(self)@,
            forall|k: u64| #[trigger] final(self).is_dirty(k) == old(self).is_dirty(k),
            forall|k: u64|
                #[trigger] final(self).is_cached(k) == (old(self).is_cached(k) || (r is Ok && k
                    == old(self)@.fat_sector(cluster@))),
            old(self).is_cached(old(self)@.fat_sector(cluster@) as u64) ==> r is Ok,
            match r {
                Ok(entry) => entry.0 == old(self)@.fat_entry(cluster@),
                Err(e) => e is Io,
            },
    {
        let size: u64 = self.bytes_per_sector as u64;
        let offset: u64 = cluster.fat_offset();
        proof {
            self@.lemma_fat_position(cluster@);
        }
        let sector: u64 = self.fat_start_sector + offset / size;
        let at: usize = (offset % size) as usize;
        proof {
            self.lemma_mapped(sector);
        }
        let raw: u32 = match self.device.get(sector) {
            Ok(bytes) => crate::bytes::read_le32(bytes, at),
            Err(e) => {
                assert(self@.sectors =~= old(self)@.sectors);
                return Err(e);
            },
        };
        assert(self@.sectors =~= old(self)@.sectors);
        Ok(FatEntry(raw))
    }

    /// The cluster that follows `cluster` in its chain, if its table entry
    /// names one.
    pub fn next_cluster(&mut self, cluster: Cluster) -> (r: Result<Option<Cluster>, Error>)
        requires
            old(self).wf(),
        ensures
            final(self).wf(),
            final(self)@ == old(self)@,
            forall|k: u64| #[trigger] final(self).is_dirty(k) == old(self).is_dirty(k),
            forall|k: u64|
                #[trigger] final(self).is_cached(k) == (old(self).is_cached(k) || (r is Ok && k
                    == old(self)@.fat_sector(cluster@))),
            old(self).is_cached(old(self)@.fat_sector(cluster@) as u64) ==> r is Ok,
            match r {
                Ok(Some(next)) => old(self)@.next(cluster@) == Some(next@) && next.is_data(),
                Ok(None) => old(self)@.next(cluster@) is None,
                Err(e) => e is Io,
            },
    {
        let entry = match self.fat_entry(cluster) {
            Ok(entry) => entry,
            Err(e) => {
                return Err(e);
            },
        };
        proof {
            FatEntry::lemma_next_is_data(entry.0);
        }
        match entry.status() {
            Status::Data(next) => Ok(Some(next)),
            _ => Ok(None),
        }
    }

    /// Appends the bytes of one data cluster to `buf`, sector by sector.
    fn read_whole_cluster(&mut self, cluster: Cluster, buf: &mut Vec<u8>) -> (r: Result<(), Error>)
        requires
            old(self).wf(),
            cluster.is_data(),
        ensures
            final(self).wf(),
            final(self)@ == old(self)@,
            forall|k: u64| #[trigger] final(self).is_dirty(k) == old(self).is_dirty(k),
            forall|k: u64| old(self).is_cached(k) ==> #[trigger] final(self).is_cached(k),
            old(self).cluster_cached(cluster@) ==> r is Ok,
            match r {
                Ok(_) => final(buf)@ == old(buf)@ + old(self)@.cluster_bytes(cluster@),
                Err(e) => e is Io && old(buf)@.is_prefix_of(final(buf)@),
            },
    {
        let first: u64 = self.sector(cluster);
        let count: u64 = self.sectors_per_cluster as u64;
        let ghost vol = self@;
        let mut i: u64 = 0;
        while i < count
            invariant
                i <= count == vol.sectors_per_cluster,
                first == vol.first_sector(cluster@),
                first + count <= crate::volume::SECTOR_LIMIT,
                cluster.is_data(),
                self.wf(),
                self@ == vol,
                vol == old(self)@,
                forall|k: u64| #[trigger] self.device.is_dirty(k) == old(self).device.is_dirty(k),
                forall|k: u64|
                    old(self).device.is_cached(k) ==> #[trigger] self.device.is_cached(k),
                buf@ == old(buf)@ + vol.run_bytes(first as nat, i as nat),
            decreases count - i,
        {
            proof {
                vol.lemma_sector_bound(cluster@, i as nat);
                self.lemma_mapped((first + i) as u64);
                if old(self).cluster_cached(cluster@) {
                    assert(vol.in_cluster(cluster@, (first + i) as u64));
                    assert(old(self).is_cached((first + i) as u64));
                    assert(self.device.is_cached((first + i) as u64));
                }
            }
            match self.device.read_all_sector(first + i, buf) {
                Ok(_) => {},
                Err(e) => {
                    assert(self@.sectors =~= vol.sectors);
                    return Err(e);
                },
            }
            proof {
                assert(self@.sectors =~= vol.sectors);
                assert(buf@ =~= old(buf)@ + vol.run_bytes(first as nat, (i + 1) as nat));
            }
            i += 1;
        }
        Ok(())
    }

    /// Appends to `buf` the bytes of every cluster of the chain that
    /// starts at `start`, and returns the length that `buf` then has.
    ///
    /// The walk goes on while the table entry names a next cluster and
    /// ends with any other entry, or after `cluster_limit` clusters. A start
    /// that is no data cluster has an empty chain. Where the device fails,
    /// its error is handed on and `buf` holds what was read until then.
    pub fn read_chain(&mut self, start: Cluster, buf: &mut Vec<u8>) -> (r: Result<usize, Error>)
        requires
            old(self).wf(),
        ensures
            final(self).wf(),
            final(self)@ == old(self)@,
            forall|k: u64| #[trigger] final(self).is_dirty(k) == old(self).is_dirty(k),
            forall|k: u64| old(self).is_cached(k) ==> #[trigger] final(self).is_cached(k),
            old(self).chain_cached(start@) ==> r is Ok,
            match r {
                Ok(len) => {
                    &&& final(buf)@ == old(buf)@ + old(self)@.chain_bytes(start@)
                    &&& len == final(buf)@.len()
                },
                Err(e) => e is Io && old(buf)@.is_prefix_of(final(buf)@),
            },
    {
        let ghost vol = self@;
        let limit: u64 = self.cluster_limit();
        let mut cluster: Cluster = start;
        let mut steps: u64 = 0;
        let mut done: bool = start.number() < 2;
        let ghost mut visited: Seq<u32> = Seq::empty();
        proof {
            assert(Seq::<u32>::empty() + vol.chain(start@) =~= vol.chain(start@));
            assert(old(buf)@ + vol.clusters_bytes(visited) =~= old(buf)@);
        }
        while !done && steps < limit
            invariant
                self.wf(),
                self@ == vol,
                vol == old(self)@,
                steps <= limit == vol.cluster_limit(),
                forall|k: u64| #[trigger] self.is_dirty(k) == old(self).is_dirty(k),
                forall|k: u64| old(self).is_cached(k) ==> #[trigger] self.is_cached(k),
                !done ==> cluster.is_data(),
                !done ==> vol.chain(start@) == visited + vol.chain_from(
                    cluster@,
                    (limit - steps) as nat,
                ),
                done ==> vol.chain(start@) == visited,
                buf@ == old(buf)@ + vol.clusters_bytes(visited),
            decreases limit - steps,
        {
            proof {
                let chain = vol.chain(start@);
                let rest = vol.chain_from(cluster@, (limit - steps) as nat);
                assert(rest.len() > 0 && rest[0] == cluster@);
                assert(chain[visited.len() as int] == cluster@);
                if old(self).chain_cached(start@) {
                    assert(old(self).step_cached(chain[visited.len() as int]));
                    assert forall|k: u64| self@.in_cluster(cluster@, k) implies #[trigger] self.is_cached(
                        k,
                    ) by {
                        assert(old(self).is_cached(k));
                    }
                }
            }
            match self.read_whole_cluster(cluster, buf) {
                Ok(_) => {},
                Err(e) => {
                    return Err(e);
                },
            }
            proof {
                if old(self).chain_cached(start@) {
                    assert(old(self).entry_cached(cluster@));
                    assert(self.is_cached(vol.fat_sector(cluster@) as u64));
                }
            }
            let next = match self.next_cluster(cluster) {
                Ok(next) => next,
                Err(e) => {
                    return Err(e);
                },
            };
            proof {
                vol.lemma_clusters_push(visited, cluster@);
                let rest = vol.chain_from(cluster@, (limit - steps) as nat);
                match vol.next(cluster@) {
                    Some(n) => {
                        let tail = vol.chain_from(n, (limit - steps - 1) as nat);
                        assert(rest == seq![cluster@] + tail);
                        assert(visited + rest =~= visited.push(cluster@) + tail);
                    },
                    None => {
                        assert(rest == seq![cluster@]);
                        assert(visited + rest =~= visited.push(cluster@));
                    },
                }
                assert(buf@ =~= old(buf)@ + vol.clusters_bytes(visited.push(cluster@)));
                visited = visited.push(cluster@);
            }
            steps += 1;
            match next {
                Some(n) => {
                    cluster = n;
                },
                None => {
                    done = true;
                },
            }
        }
        proof {
            if !done {
                assert(visited + Seq::<u32>::empty() =~= visited);
            }
        }
        Ok(buf.len())
    }

    /// Reads on through the data cluster `cluster`: skips what is left of
    /// the offset, then copies into `buf` behind the `filled` bytes that it
    /// holds. `seen` are the bytes of the chain before this cluster. Returns
    /// what is left of the offset, and how many bytes `buf` then holds.
    fn read_part(
        &mut self,
        cluster: Cluster,
        skip: usize,
        filled: usize,
        buf: &mut [u8],
        Ghost(seen): Ghost<Seq<u8>>,
        Ghost(offset): Ghost<nat>,
        Ghost(into): Ghost<Seq<u8>>,
    ) -> (r: Result<(usize, usize), Error>)
        requires
            old(self).wf(),
            cluster.is_data(),
            into.len() == old(buf)@.len(),
            filled < into.len(),
            filled == crate::bytes::read_len(seen.len(), offset, into.len()),
            skip == (if offset > seen.len() {
                offset - seen.len()
            } else {
                0
            }),
            old(buf)@ == crate::bytes::read_result(seen, offset, into),
        ensures
            final(self).wf(),
            final(self)@ == old(self)@,
            forall|k: u64| #[trigger] final(self).is_dirty(k) == old(self).is_dirty(k),
            forall|k: u64| old(self).is_cached(k) ==> #[trigger] final(self).is_cached(k),
            final(buf)@.len() == old(buf)@.len(),
            old(self).cluster_cached(cluster@) ==> r is Ok,
            match r {
                Ok((skip2, filled2)) => {
                    let seen2 = seen + old(self)@.cluster_bytes(cluster@);
                    &&& filled2 == crate::bytes::read_len(seen2.len(), offset, into.len())
                    &&& skip2 == (if offset > seen2.len() {
                        offset - seen2.len()
                    } else {
                        0
                    })
                    &&& final(buf)@ == crate::bytes::read_result(seen2, offset, into)
                },
                Err(e) => e is Io,
            },
    {
        let ghost vol = self@;
        let first: u64 = self.sector(cluster);
        let count: u64 = self.sectors_per_cluster as u64;
        let size: usize = self.bytes_per_sector as usize;
        let capacity: usize = buf.len();
        let mut skip: usize = skip;
        let mut filled: usize = filled;
        let mut i: u64 = 0;
        proof {
            assert(seen + vol.run_bytes(first as nat, 0) =~= seen);
        }
        while i < count && filled < capacity
            invariant
                i <= count == vol.sectors_per_cluster,
                size == vol.bytes_per_sector,
                first == vol.first_sector(cluster@),
                first + count <= crate::volume::SECTOR_LIMIT,
                cluster.is_data(),
                self.wf(),
                self@ == vol,
                vol == old(self)@,
                forall|k: u64| #[trigger] self.device.is_dirty(k) == old(self).device.is_dirty(k),
                forall|k: u64|
                    old(self).device.is_cached(k) ==> #[trigger] self.device.is_cached(k),
                buf@.len() == capacity == into.len() == old(buf)@.len(),
                filled <= capacity,
                filled == crate::bytes::read_len(
                    (seen + vol.run_bytes(first as nat, i as nat)).len(),
                    offset,
                    into.len(),
                ),
                skip == (if offset > (seen + vol.run_bytes(first as nat, i as nat)).len() {
                    offset - (seen + vol.run_bytes(first as nat, i as nat)).len()
                } else {
                    0
                }),
                buf@ == crate::bytes::read_result(
                    seen + vol.run_bytes(first as nat, i as nat),
                    offset,
                    into,
                ),
            decreases count - i,
        {
            let ghost part = seen + vol.run_bytes(first as nat, i as nat);
            let ghost piece = vol.sectors[(first + i) as u64];
            proof {
                vol.lemma_sector_bound(cluster@, i as nat);
                self.lemma_mapped((first + i) as u64);
                if old(self).cluster_cached(cluster@) {
                    assert(vol.in_cluster(cluster@, (first + i) as u64));
                    assert(old(self).is_cached((first + i) as u64));
                    assert(self.device.is_cached((first + i) as u64));
                }
                assert(seen + vol.run_bytes(first as nat, (i + 1) as nat) =~= part + piece);
            }
            if skip >= size {
                skip -= size;
            } else {
                let ghost before = buf@;
                match self.device.get(first + i) {
                    Ok(bytes) => {
                        let copied: usize = crate::bytes::copy_into(buf, filled, bytes, skip);
                        proof {
                            crate::bytes::lemma_read_step(
                                part,
                                piece,
                                offset,
                                into,
                                before,
                                skip as nat,
                                filled as nat,
                                copied as nat,
                            );
                        }
                        filled += copied;
                        skip = 0;
                    },
                    Err(e) => {
                        assert(self@.sectors =~= vol.sectors);
                        return Err(e);
                    },
                }
                assert(self@.sectors =~= vol.sectors);
            }
            i += 1;
        }
        proof {
            let part = seen + vol.run_bytes(first as nat, i as nat);
            let whole = seen + vol.cluster_bytes(cluster@);
            if i < count {
                vol.lemma_run_prefix(first as nat, i as nat, count as nat);
                crate::bytes::lemma_read_prefix(part, whole, offset, into);
            }
        }
        Ok((skip, filled))
    }

    /// Reads into `buf` the bytes of the chain that starts at `cluster`,
    /// from `offset` bytes into the chain on, and returns how many bytes
    /// were read: as many as `buf` holds, or fewer where the chain ends
    /// before. From the end of the chain on, nothing is read and the result
    /// is 0.
    ///
    /// Sectors before the offset are passed over without being read. The
    /// walk ends as that of `read_chain` does, and as soon as `buf` is full.
    /// An empty `buf` needs no device and always succeeds; where the device
    /// fails, its error is handed on.
    pub fn read_cluster(&mut self, cluster: Cluster, offset: usize, buf: &mut [u8]) -> (r: Result<
        usize,
        Error,
    >)
        requires
            old(self).wf(),
        ensures
            final(self).wf(),
            final(self)@ == old(self)@,
            forall|k: u64| #[trigger] final(self).is_dirty(k) == old(self).is_dirty(k),
            forall|k: u64| old(self).is_cached(k) ==> #[trigger] final(self).is_cached(k),
            final(buf)@.len() == old(buf)@.len(),
            old(buf)@.len() == 0 || !cluster.is_data() ==> r == Ok::<usize, Error>(0),
            old(self).chain_cached(cluster@) ==> r is Ok,
            match r {
                Ok(count) => {
                    let data = old(self)@.chain_bytes(cluster@);
                    &&& count == crate::bytes::read_len(data.len(), offset as nat, old(buf)@.len())
                    &&& final(buf)@ == crate::bytes::read_result(data, offset as nat, old(buf)@)
                    &&& offset >= data.len() ==> count == 0
                },
                Err(e) => e is Io,
            },
    {
        let ghost vol = self@;
        let ghost into = buf@;
        let ghost data = vol.chain_bytes(cluster@);
        let capacity: usize = buf.len();
        if capacity == 0 {
            return Ok(0);
        }
        if cluster.number() < 2 {
            proof {
                assert(vol.chain(cluster@) =~= Seq::<u32>::empty());
            }
            return Ok(0);
        }
        let limit: u64 = self.cluster_limit();
        let mut current: Cluster = cluster;
        let mut steps: u64 = 0;
        let mut done: bool = false;
        let mut skip: usize = offset;
        let mut filled: usize = 0;
        let ghost mut visited: Seq<u32> = Seq::empty();
        proof {
            assert(Seq::<u32>::empty() + vol.chain(cluster@) =~= vol.chain(cluster@));
        }
        while !done && steps < limit
            invariant
                self.wf(),
                self@ == vol,
                vol == old(self)@,
                data == vol.chain_bytes(cluster@),
                steps <= limit == vol.cluster_limit(),
                forall|k: u64| #[trigger] self.is_dirty(k) == old(self).is_dirty(k),
                forall|k: u64| old(self).is_cached(k) ==> #[trigger] self.is_cached(k),
                !done ==> current.is_data(),
                !done ==> vol.chain(cluster@) == visited + vol.chain_from(
                    current@,
                    (limit - steps) as nat,
                ),
                done ==> vol.chain(cluster@) == visited,
                buf@.len() == capacity == into.len(),
                into == old(buf)@,
                cluster.is_data(),
                filled < capacity,
                filled == crate::bytes::read_len(
                    vol.clusters_bytes(visited).len(),
                    offset as nat,
                    into.len(),
                ),
                skip == (if offset > vol.clusters_bytes(visited).len() {
                    offset - vol.clusters_bytes(visited).len()
                } else {
                    0
                }),
                buf@ == crate::bytes::read_result(vol.clusters_bytes(visited), offset as nat, into),
            decreases limit - steps,
        {
            proof {
                let chain = vol.chain(cluster@);
                let rest = vol.chain_from(current@, (limit - steps) as nat);
                assert(rest.len() > 0 && rest[0] == current@);
                assert(chain[visited.len() as int] == current@);
                if old(self).chain_cached(cluster@) {
                    assert(old(self).step_cached(chain[visited.len() as int]));
                    assert forall|k: u64| self@.in_cluster(current@, k) implies #[trigger] self.is_cached(
                        k,
                    ) by {
                        assert(old(self).is_cached(k));
                    }
                }
            }
            let ghost seen = vol.clusters_bytes(visited);
            let (skip2, filled2) = match self.read_part(
                current,
                skip,
                filled,
                buf,
                Ghost(seen),
                Ghost(offset as nat),
                Ghost(into),
            ) {
                Ok(pair) => pair,
                Err(e) => {
                    return Err(e);
                },
            };
            skip = skip2;
            filled = filled2;
            proof {
                vol.lemma_clusters_push(visited, current@);
                let rest = vol.chain_from(current@, (limit - steps) as nat);
                let tail = match vol.next(current@) {
                    Some(n) => vol.chain_from(n, (limit - steps - 1) as nat),
                    None => Seq::<u32>::empty(),
                };
                assert(rest =~= seq![current@] + tail);
                assert(visited + rest =~= visited.push(current@) + tail);
                vol.lemma_clusters_concat(visited.push(current@), tail);
            }
            if filled == capacity {
                proof {
                    crate::bytes::lemma_read_prefix(
                        vol.clusters_bytes(visited.push(current@)),
                        data,
                        offset as nat,
                        into,
                    );
                }
                return Ok(filled);
            }
            proof {
                if old(self).chain_cached(cluster@) {
                    assert(old(self).entry_cached(current@));
                    assert(self.is_cached(vol.fat_sector(current@) as u64));
                }
            }
            let next = match self.next_cluster(current) {
                Ok(next) => next,
                Err(e) => {
                    return Err(e);
                },
            };
            proof {
                visited = visited.push(current@);
            }
            steps += 1;
            match next {
                Some(n) => {
                    current = n;
                },
                None => {
                    done = true;
                },
            }
        }
        proof {
            if !done {
                assert(visited + Seq::<u32>::empty() =~= visited);
            }
            crate::bytes::lemma_read_len(data.len(), offset as nat, into.len());
        }
        Ok(filled)
    }

    /// Reads the start of the root directory into `buf`: `read_cluster` on
    /// the root directory's chain, at offset 0.
    pub fn read_root_dir_cluster(&mut self, buf: &mut [u8]) -> (r: Result<usize, Error>)
        requires
            old(self).wf(),
        ensures
            final(self).wf(),
            final(self)@ == old(self)@,
            forall|k: u64| #[trigger] final(self).is_dirty(k) == old(self).is_dirty(k),
            forall|k: u64| old(self).is_cached(k) ==> #[trigger] final(self).is_cached(k),
            final(buf)@.len() == old(buf)@.len(),
            old(buf)@.len() == 0 ==> r == Ok::<usize, Error>(0),
            old(self).chain_cached(old(self)@.root_dir_cluster) ==> r is Ok,
            match r {
                Ok(count) => {
                    let data = old(self)@.chain_bytes(old(self)@.root_dir_cluster);
                    &&& count == crate::bytes::read_len(data.len(), 0, old(buf)@.len())
                    &&& final(buf)@ == crate::bytes::read_result(data, 0, old(buf)@)
                },
                Err(e) => e is Io,
            },
    {
        let cluster = self.root_dir_cluster;
        self.read_cluster(cluster, 0, buf)
    }

    /// Whether sector `s` is settled after a sync of the clusters `cs`: it
    /// is not dirty and, where the sync evicts, it is cached only if it
    /// holds the table entry of one of the clusters, which the walk reads.
    pub open spec fn is_synced(&self, s: u64, remove: bool, cs: Seq<u32>) -> bool {
        &&& !self.is_dirty(s)
        &&& remove && self.is_cached(s) ==> self@.holds_entry_of(s, cs)
    }

    /// Syncs every sector of one data cluster.
    fn sync_whole_cluster(&mut self, cluster: Cluster, remove: bool) -> (r: Result<(), Error>)
        requires
            old(self).wf(),
            cluster.is_data(),
        ensures
            final(self).wf(),
            final(self)@ == old(self)@,
            forall|k: u64| #[trigger] final(self).is_dirty(k) ==> old(self).is_dirty(k),
            forall|k: u64|
                !old(self)@.in_cluster(cluster@, k) ==> #[trigger] final(self).is_cached(k) == old(
                    self,
                ).is_cached(k),
            old(self).cluster_clean(cluster@) ==> r is Ok,
            match r {
                Ok(_) => {
                    &&& forall|k: u64|
                        old(self)@.in_cluster(cluster@, k) ==> !#[trigger] final(self).is_dirty(k)
                    &&& forall|k: u64|
                        old(self)@.in_cluster(cluster@, k) ==> #[trigger] final(self).is_cached(k)
                            == (old(self).is_cached(k) && !remove)
                },
                Err(e) => e is Io,
            },
    {
        let ghost vol = self@;
        let first: u64 = self.sector(cluster);
        let count: u64 = self.sectors_per_cluster as u64;
        let mut i: u64 = 0;
        while i < count
            invariant
                i <= count == vol.sectors_per_cluster,
                first == vol.first_sector(cluster@),
                first + count <= crate::volume::SECTOR_LIMIT,
                self.wf(),
                self@ == vol,
                vol == old(self)@,
                forall|k: u64| #[trigger] self.device.is_dirty(k) ==> old(self).device.is_dirty(k),
                forall|k: u64|
                    !(first <= k < first + i) ==> #[trigger] self.device.is_cached(k) == old(
                        self,
                    ).device.is_cached(k),
                forall|k: u64| first <= k < first + i ==> !#[trigger] self.device.is_dirty(k),
                forall|k: u64|
                    first <= k < first + i ==> #[trigger] self.device.is_cached(k) == (old(
                        self,
                    ).device.is_cached(k) && !remove),
            decreases count - i,
        {
            proof {
                if old(self).cluster_clean(cluster@) {
                    assert(vol.in_cluster(cluster@, (first + i) as u64));
                    assert(!old(self).is_dirty((first + i) as u64));
                    assert(!self.device.is_dirty((first + i) as u64));
                }
            }
            match self.device.sync_sector(first + i, remove) {
                Ok(_) => {},
                Err(e) => {
                    assert(self@.sectors =~= vol.sectors);
                    return Err(e);
                },
            }
            assert(self@.sectors =~= vol.sectors);
            i += 1;
        }
        Ok(())
    }

    /// Writes back every dirty sector of every cluster of the chain that
    /// starts at `start` and, if `remove` is set, evicts the sectors from
    /// the cache.
    ///
    /// The walk is that of `read_chain`. What the volume holds is the same
    /// before and after, and no sector becomes dirty. After success every
    /// sector of the chain is settled as `is_synced` says. Where the device
    /// fails, its error is handed on.
    pub fn sync_chain(&mut self, start: Cluster, remove: bool) -> (r: Result<(), Error>)
        requires
            old(self).wf(),
        ensures
            final(self).wf(),
            final(self)@ == old(self)@,
            forall|k: u64| #[trigger] final(self).is_dirty(k) ==> old(self).is_dirty(k),
            old(self).chain_settled(start@, remove) ==> r is Ok,
            match r {
                Ok(_) => forall|j: int, i: nat|
                    0 <= j < old(self)@.chain(start@).len() && i < old(self)@.sectors_per_cluster
                        ==> final(self).is_synced(
                        #[trigger] old(self)@.sector_of(old(self)@.chain(start@)[j], i),
                        remove,
                        old(self)@.chain(start@),
                    ),
                Err(e) => e is Io,
            },
    {
        let ghost vol = self@;
        let limit: u64 = self.cluster_limit();
        let mut cluster: Cluster = start;
        let mut steps: u64 = 0;
        let mut done: bool = start.number() < 2;
        let ghost mut visited: Seq<u32> = Seq::empty();
        proof {
            assert(Seq::<u32>::empty() + vol.chain(start@) =~= vol.chain(start@));
            if self.chain_settled(start@, remove) {
                let chain = vol.chain(start@);
                assert forall|m: int| 0 <= m < chain.len() implies #[trigger] self.entry_cached(
                    chain[m],
                ) by {
                    assert(self.step_settled(chain[m]));
                }
            }
        }
        while !done && steps < limit
            invariant
                self.wf(),
                self@ == vol,
                vol == old(self)@,
                steps <= limit == vol.cluster_limit(),
                forall|k: u64| #[trigger] self.is_dirty(k) ==> old(self).is_dirty(k),
                !done ==> cluster.is_data(),
                !done ==> vol.chain(start@) == visited + vol.chain_from(
                    cluster@,
                    (limit - steps) as nat,
                ),
                done ==> vol.chain(start@) == visited,
                forall|j: int| 0 <= j < visited.len() ==> 2 <= #[trigger] visited[j] <= 0x0FFF_FFFF,
                old(self).chain_settled(start@, remove) ==> forall|m: int|
                    0 <= m < vol.chain(start@).len() ==> #[trigger] self.entry_cached(
                        vol.chain(start@)[m],
                    ),
                forall|j: int, i: nat|
                    0 <= j < visited.len() && i < vol.sectors_per_cluster ==> self.is_synced(
                        #[trigger] vol.sector_of(visited[j], i),
                        remove,
                        visited,
                    ),
            decreases limit - steps,
        {
            proof {
                let chain = vol.chain(start@);
                let rest = vol.chain_from(cluster@, (limit - steps) as nat);
                assert(rest.len() > 0 && rest[0] == cluster@);
                assert(chain[visited.len() as int] == cluster@);
                if old(self).chain_settled(start@, remove) {
                    assert(old(self).step_settled(chain[visited.len() as int]));
                    assert forall|k: u64| self@.in_cluster(cluster@, k) implies !#[trigger] self.is_dirty(
                        k,
                    ) by {
                        assert(!old(self).is_dirty(k));
                    }
                }
            }
            let ghost before = *self;
            match self.sync_whole_cluster(cluster, remove) {
                Ok(_) => {},
                Err(e) => {
                    return Err(e);
                },
            }
            let ghost synced = *self;
            let ghost longer = visited.push(cluster@);
            proof {
                assert forall|j: int, i: nat|
                    0 <= j < longer.len() && i < vol.sectors_per_cluster implies synced.is_synced(
                    #[trigger] vol.sector_of(longer[j], i),
                    remove,
                    longer,
                ) by {
                    let s = vol.sector_of(longer[j], i);
                    if j == visited.len() {
                        assert(longer[j] == cluster@);
                    } else {
                        assert(longer[j] == visited[j]);
                    }
                    vol.lemma_sector_bound(longer[j], i);
                    if j == visited.len() {
                        assert(vol.in_cluster(cluster@, s));
                    }
                    if j < visited.len() {
                        assert(before.is_synced(vol.sector_of(visited[j], i), remove, visited));
                        if before.is_cached(s) && remove {
                            let m = choose|m: int|
                                0 <= m < visited.len() && #[trigger] vol.fat_sector(visited[m])
                                    == s;
                            assert(longer[m] == visited[m]);
                        }
                    }
                }
            }
            proof {
                if old(self).chain_settled(start@, remove) {
                    let chain = vol.chain(start@);
                    assert forall|m: int| 0 <= m < chain.len() implies #[trigger] self.entry_cached(
                        chain[m],
                    ) by {
                        assert(before.entry_cached(chain[m]));
                        let k = vol.fat_sector(chain[m]) as u64;
                        if remove {
                            assert(!vol.in_cluster(chain[visited.len() as int], k));
                        } else if vol.in_cluster(cluster@, k) {
                            assert(self.is_cached(k) == (before.is_cached(k) && !remove));
                        }
                    }
                    assert(self.entry_cached(chain[visited.len() as int]));
                }
            }
            let next = match self.next_cluster(cluster) {
                Ok(next) => next,
                Err(e) => {
                    return Err(e);
                },
            };
            proof {
                let rest = vol.chain_from(cluster@, (limit - steps) as nat);
                let tail = match vol.next(cluster@) {
                    Some(n) => vol.chain_from(n, (limit - steps - 1) as nat),
                    None => Seq::<u32>::empty(),
                };
                assert(rest =~= seq![cluster@] + tail);
                assert(visited + rest =~= longer + tail);
                assert(longer + Seq::<u32>::empty() =~= longer);
                assert forall|j: int, i: nat|
                    0 <= j < longer.len() && i < vol.sectors_per_cluster implies self.is_synced(
                    #[trigger] vol.sector_of(longer[j], i),
                    remove,
                    longer,
                ) by {
                    let s = vol.sector_of(longer[j], i);
                    assert(synced.is_synced(s, remove, longer));
                    if self.is_cached(s) && !synced.is_cached(s) {
                        assert(s == vol.fat_sector(cluster@));
                        assert(longer[longer.len() - 1] == cluster@);
                    }
                }
                if old(self).chain_settled(start@, remove) {
                    let chain = vol.chain(start@);
                    assert forall|m: int| 0 <= m < chain.len() implies #[trigger] self.entry_cached(
                        chain[m],
                    ) by {
                        assert(synced.entry_cached(chain[m]));
                    }
                }
                visited = longer;
            }
            steps += 1;
            match next {
                Some(n) => {
                    cluster = n;
                },
                None => {
                    done = true;
                },
            }
        }
        proof {
            if !done {
                assert(visited + Seq::<u32>::empty() =~= visited);
            }
        }
        Ok(())
    }

    /// The clusters of the chain that starts at `start`, and how the walk
    /// along it ends: with a marker, with an entry that is none, or cut off
    /// at the limit. Only the table is read.
    ///
    /// The readers take every one of these ends as the end of the chain; a
    /// caller that wants to tell a whole chain from a damaged one asks here.
    pub fn chain(&mut self, start: Cluster) -> (r: Result<Chain, Error>)
        requires
            old(self).wf(),
        ensures
            final(self).wf(),
            final(self)@ == old(self)@,
            forall|k: u64| #[trigger] final(self).is_dirty(k) == old(self).is_dirty(k),
            forall|k: u64| old(self).is_cached(k) ==> #[trigger] final(self).is_cached(k),
            !start.is_data() || old(self).table_cached(start@) ==> r is Ok,
            match r {
                Ok(chain) => {
                    &&& numbers(chain.clusters@) == old(self)@.chain(start@)
                    &&& chain.end == old(self)@.chain_end(start@)
                    &&& chain.clusters@.len() <= old(self)@.cluster_limit()
                },
                Err(e) => e is Io,
            },
    {
        let ghost vol = self@;
        let mut clusters: Vec<Cluster> = Vec::new();
        if start.number() < 2 {
            proof {
                assert(numbers(clusters@) =~= vol.chain(start@));
            }
            return Ok(Chain { clusters, end: ChainEnd::Empty });
        }
        let limit: u64 = self.cluster_limit();
        let mut cluster: Cluster = start;
        let mut steps: u64 = 0;
        let mut end: ChainEnd = ChainEnd::Limit;
        let mut done: bool = false;
        proof {
            assert(Seq::<u32>::empty() + vol.chain(start@) =~= vol.chain(start@));
            assert(numbers(clusters@) =~= Seq::<u32>::empty());
        }
        while !done && steps < limit
            invariant
                self.wf(),
                self@ == vol,
                vol == old(self)@,
                start.is_data(),
                steps <= limit == vol.cluster_limit(),
                clusters@.len() == steps,
                forall|k: u64| #[trigger] self.is_dirty(k) == old(self).is_dirty(k),
                forall|k: u64| old(self).is_cached(k) ==> #[trigger] self.is_cached(k),
                !done ==> cluster.is_data(),
                !done ==> end == ChainEnd::Limit,
                !done ==> vol.chain(start@) == numbers(clusters@) + vol.chain_from(
                    cluster@,
                    (limit - steps) as nat,
                ),
                !done ==> vol.chain_end(start@) == vol.end_from(cluster@, (limit - steps) as nat),
                done ==> vol.chain(start@) == numbers(clusters@),
                done ==> vol.chain_end(start@) == end,
            decreases limit - steps,
        {
            proof {
                let chain = vol.chain(start@);
                let rest = vol.chain_from(cluster@, (limit - steps) as nat);
                assert(rest.len() > 0 && rest[0] == cluster@);
                assert(chain[steps as int] == cluster@);
                if old(self).table_cached(start@) {
                    assert(old(self).entry_cached(chain[steps as int]));
                    assert(self.is_cached(vol.fat_sector(cluster@) as u64));
                }
            }
            let entry = match self.fat_entry(cluster) {
                Ok(entry) => entry,
                Err(e) => {
                    return Err(e);
                },
            };
            let ghost before = clusters@;
            clusters.push(cluster);
            proof {
                FatEntry::lemma_next_is_data(entry.0);
                let rest = vol.chain_from(cluster@, (limit - steps) as nat);
                let tail = match vol.next(cluster@) {
                    Some(n) => vol.chain_from(n, (limit - steps - 1) as nat),
                    None => Seq::<u32>::empty(),
                };
                assert(rest =~= seq![cluster@] + tail);
                assert(numbers(clusters@) =~= numbers(before).push(cluster@));
                assert(numbers(before) + rest =~= numbers(clusters@) + tail);
                assert(numbers(clusters@) + Seq::<u32>::empty() =~= numbers(clusters@));
            }
            steps += 1;
            match entry.status() {
                Status::Data(next) => {
                    cluster = next;
                },
                Status::Eoc(_) => {
                    end = ChainEnd::Marker;
                    done = true;
                },
                _ => {
                    end = ChainEnd::Broken;
                    done = true;
                },
            }
        }
        proof {
            if !done {
                assert(numbers(clusters@) + Seq::<u32>::empty() =~= numbers(clusters@));
            }
        }
        Ok(Chain { clusters, end })
    }
}

} // verus!
