//! A cache of sectors in front of a block device.

use vstd::prelude::*;
use std::collections::HashMap;
use crate::device::{append, read_sectors, write_sectors, BlockDevice, Sectors};
use crate::error::Error;
use crate::partition::Partition;

verus! {

/// The bytes that `device` holds for the sector `sector` of `partition`;
/// empty where the sector cannot be mapped onto the device.
pub open spec fn on_device<D: BlockDevice>(device: D, partition: Partition, sector: u64) -> Seq<
    u8,
> {
    match partition.spec_physical(device.sector_len(), sector) {
        Some((first, count)) => crate::device::gather(device, first, count as nat),
        None => Seq::empty(),
    }
}

/// Devices with sectors of one length that agree on every sector hold the
/// same bytes for every sector of a partition.
pub proof fn lemma_on_device_agree<D: BlockDevice>(a: D, b: D, partition: Partition, sector: u64)
    requires
        a.sector_len() == b.sector_len(),
        forall|k: u64| #[trigger] a.sector(k) == b.sector(k),
    ensures
        on_device(a, partition, sector) == on_device(b, partition, sector),
{
    match partition.spec_physical(a.sector_len(), sector) {
        Some((first, count)) => {
            crate::device::lemma_gather_agree(a, b, first, count as nat);
        },
        None => {},
    }
}

/// One cached sector.
struct CacheEntry {
    data: Vec<u8>,
    dirty: bool,
}

/// A block device with a cache of its sectors in front of it.
///
/// The cache is keyed by sector number. A sector enters it when it is
/// first asked for and stays until it is evicted. What a sector holds, as
/// seen through the cache, is `sector`: the cached bytes if there are any,
/// else the bytes on the device.
pub struct CachedDevice<D: BlockDevice> {
    device: D,
    cache: HashMap<u64, CacheEntry>,
    partition: Partition,
}

impl<D: BlockDevice> CachedDevice<D> {
    /// The partition that sector numbers are mapped through.
    pub closed spec fn partition(&self) -> Partition {
        self.partition
    }

    /// The number of bytes in a sector of the device below.
    pub closed spec fn device_sector_len(&self) -> nat {
        self.device.sector_len()
    }

    /// Whether the cache holds the sector.
    pub closed spec fn is_cached(&self, sector: u64) -> bool {
        self.cache@.contains_key(sector)
    }

    /// Whether the cache holds the sector with bytes still to be written
    /// to the device.
    pub closed spec fn is_dirty(&self, sector: u64) -> bool {
        self.cache@.contains_key(sector) && self.cache@[sector].dirty
    }

    /// The bytes that the cache holds for a cached sector.
    pub closed spec fn cached(&self, sector: u64) -> Seq<u8> {
        self.cache@[sector].data@
    }

    /// The bytes that the device holds for the sector.
    pub closed spec fn stored(&self, sector: u64) -> Seq<u8> {
        on_device(self.device, self.partition, sector)
    }

    /// The bytes of the sector as seen through the cache.
    pub open spec fn sector(&self, sector: u64) -> Seq<u8> {
        if self.is_cached(sector) {
            self.cached(sector)
        } else {
            self.stored(sector)
        }
    }

    /// The device sectors behind the sector, if it can be mapped.
    pub open spec fn physical(&self, sector: u64) -> Option<(u64, u64)> {
        self.partition().spec_physical(self.device_sector_len(), sector)
    }

    /// The cache agrees with the device on every sector that is not
    /// dirty, holds only sectors that can be mapped, and every cached sector
    /// has the length of the sector on the device.
    pub closed spec fn wf(&self) -> bool {
        &&& 0 < self.device.sector_len() <= self.partition.sector_size <= usize::MAX
        &&& forall|k: u64| #[trigger]
            self.cache@.contains_key(k) ==> {
                &&& self.partition.spec_physical(self.device.sector_len(), k) is Some
                &&& self.cache@[k].data@.len() == on_device(self.device, self.partition, k).len()
                &&& !self.cache@[k].dirty ==> self.cache@[k].data@ == on_device(
                    self.device,
                    self.partition,
                    k,
                )
            }
    }

    /// What well-formedness says in the terms that callers see.
    pub proof fn lemma_wf(&self, sector: u64)
        requires
            self.wf(),
        ensures
            0 < self.device_sector_len() <= self.partition().sector_size <= usize::MAX,
            self.is_dirty(sector) ==> self.is_cached(sector),
            self.is_cached(sector) ==> self.physical(sector) is Some,
            self.is_cached(sector) && !self.is_dirty(sector) ==> self.cached(sector)
                == self.stored(sector),
            match self.physical(sector) {
                Some((_, count)) => self.sector(sector).len() == count * self.device_sector_len(),
                None => self.sector(sector).len() == 0,
            },
    {
        match self.physical(sector) {
            Some((first, count)) => {
                crate::device::lemma_gather_len(self.device, first, count as nat);
            },
            None => {},
        }
    }

    /// A cache over `device` that holds nothing yet.
    pub fn new(device: D, partition: Partition) -> (cached: CachedDevice<D>)
        requires
            0 < device.sector_len() <= partition.sector_size <= usize::MAX,
        ensures
            cached.wf(),
            cached.partition() == partition,
            cached.device_sector_len() == device.sector_len(),
            forall|k: u64| !cached.is_cached(k),
            forall|k: u64| #[trigger] cached.stored(k) == on_device(device, partition, k),
    {
        CachedDevice { device, cache: HashMap::new(), partition }
    }

    /// The number of bytes in a sector of the partition.
    pub fn sector_size(&self) -> (size: u64)
        ensures
            size == self.partition().sector_size,
    {
        self.partition.sector_size
    }

    /// The bytes of the sector, read from the device unless the cache
    /// holds them already.
    ///
    /// A cached sector is always returned. A sector that cannot be mapped
    /// onto the device gives `OutOfRange`; where the device fails, its error
    /// is handed on and nothing is cached.
    pub fn get(&mut self, sector: u64) -> (r: Result<&[u8], Error>)
        requires
            old(self).wf(),
        ensures
            final(self).wf(),
            final(self).partition() == old(self).partition(),
            final(self).device_sector_len() == old(self).device_sector_len(),
            forall|k: u64| #[trigger] final(self).sector(k) == old(self).sector(k),
            forall|k: u64| #[trigger] final(self).stored(k) == old(self).stored(k),
            forall|k: u64| #[trigger] final(self).is_dirty(k) == old(self).is_dirty(k),
            old(self).is_cached(sector) ==> r is Ok,
            old(self).physical(sector) is None ==> r == Err::<&[u8], Error>(Error::OutOfRange),
            match r {
                Ok(bytes) => {
                    &&& bytes@ == old(self).sector(sector)
                    &&& forall|k: u64| #[trigger]
                        final(self).is_cached(k) == (old(self).is_cached(k) || k == sector)
                },
                Err(e) => {
                    &&& (e is Io || e == Error::OutOfRange)
                    &&& e == Error::OutOfRange ==> old(self).physical(sector) is None
                    &&& forall|k: u64| #[trigger] final(self).is_cached(k) == old(self).is_cached(k)
                },
            },
    {
        broadcast use vstd::std_specs::hash::group_hash_axioms;

        if !self.cache.contains_key(&sector) {
            let size: u64 = self.device.sector_size();
            let (first, count) = match self.partition.physical(size, sector) {
                Some(run) => run,
                None => {
                    return Err(Error::OutOfRange);
                },
            };
            let data: Vec<u8> = match read_sectors(&mut self.device, first, count) {
                Ok(data) => data,
                Err(e) => {
                    proof {
                        old(self).lemma_stored_same(*self);
                    }
                    return Err(Error::Io(e));
                },
            };
            proof {
                old(self).lemma_stored_same(*self);
            }
            self.cache.insert(sector, CacheEntry { data, dirty: false });
        }
        match self.cache.get(&sector) {
            Some(entry) => Ok(entry.data.as_slice()),
            None => vstd::pervasive::unreached(),
        }
    }

    /// Appends the bytes of the sector to `out` and returns their number.
    /// Where `get` fails, so does this, and `out` stays as it was.
    pub fn read_all_sector(&mut self, sector: u64, out: &mut Vec<u8>) -> (r: Result<usize, Error>)
        requires
            old(self).wf(),
        ensures
            final(self).wf(),
            final(self).partition() == old(self).partition(),
            final(self).device_sector_len() == old(self).device_sector_len(),
            forall|k: u64| #[trigger] final(self).sector(k) == old(self).sector(k),
            forall|k: u64| #[trigger] final(self).stored(k) == old(self).stored(k),
            forall|k: u64| #[trigger] final(self).is_dirty(k) == old(self).is_dirty(k),
            old(self).is_cached(sector) ==> r is Ok,
            old(self).physical(sector) is None ==> r == Err::<usize, Error>(Error::OutOfRange),
            match r {
                Ok(count) => {
                    &&& final(out)@ == old(out)@ + old(self).sector(sector)
                    &&& count == old(self).sector(sector).len()
                    &&& forall|k: u64| #[trigger]
                        final(self).is_cached(k) == (old(self).is_cached(k) || k == sector)
                },
                Err(e) => {
                    &&& final(out)@ == old(out)@
                    &&& (e is Io || e == Error::OutOfRange)
                    &&& e == Error::OutOfRange ==> old(self).physical(sector) is None
                    &&& forall|k: u64| #[trigger] final(self).is_cached(k) == old(self).is_cached(k)
                },
            },
    {
        match self.get(sector) {
            Ok(bytes) => {
                append(out, bytes);
                Ok(bytes.len())
            },
            Err(e) => Err(e),
        }
    }

    /// Writes the sector back to the device if it is dirty and, if `remove`
    /// is set, evicts it from the cache.
    ///
    /// A sector that is not dirty needs no write, so the call succeeds.
    /// Where the device fails, its error is handed on and the sector stays
    /// cached and dirty. What every sector holds as seen through the cache
    /// is the same before and after.
    pub fn sync_sector(&mut self, sector: u64, remove: bool) -> (r: Result<(), Error>)
        requires
            old(self).wf(),
        ensures
            final(self).wf(),
            final(self).partition() == old(self).partition(),
            final(self).device_sector_len() == old(self).device_sector_len(),
            forall|k: u64| #[trigger] final(self).sector(k) == old(self).sector(k),
            forall|k: u64| k != sector ==> #[trigger] final(self).stored(k) == old(self).stored(k),
            forall|k: u64|
                k != sector ==> #[trigger] final(self).is_cached(k) == old(self).is_cached(k),
            forall|k: u64|
                k != sector ==> #[trigger] final(self).is_dirty(k) == old(self).is_dirty(k),
            !old(self).is_dirty(sector) ==> r is Ok,
            match r {
                Ok(_) => {
                    &&& final(self).stored(sector) == old(self).sector(sector)
                    &&& !final(self).is_dirty(sector)
                    &&& final(self).is_cached(sector) == (old(self).is_cached(sector) && !remove)
                },
                Err(e) => {
                    &&& e is Io
                    &&& final(self).is_cached(sector)
                    &&& final(self).is_dirty(sector)
                },
            },
    {
        broadcast use vstd::std_specs::hash::group_hash_axioms;

        let dirty: bool = match self.cache.get(&sector) {
            Some(entry) => entry.dirty,
            None => {
                return Ok(());
            },
        };
        if dirty {
            let size: u64 = self.device.sector_size();
            let (first, count) = match self.partition.physical(size, sector) {
                Some(run) => run,
                None => vstd::pervasive::unreached(),
            };
            proof {
                crate::device::lemma_gather_len(self.device, first, count as nat);
            }
            let done = match self.cache.get(&sector) {
                Some(entry) => write_sectors(&mut self.device, first, count, entry.data.as_slice()),
                None => vstd::pervasive::unreached(),
            };
            proof {
                old(self).lemma_stored_frame(*self, sector);
                crate::device::lemma_gather_len(self.device, first, count as nat);
            }
            match done {
                Ok(_) => {},
                Err(e) => {
                    return Err(Error::Io(e));
                },
            }
        }
        match self.cache.remove(&sector) {
            Some(entry) => {
                if !remove {
                    self.cache.insert(sector, CacheEntry { data: entry.data, dirty: false });
                }
            },
            None => {},
        }
        Ok(())
    }

    /// Overwrites the bytes of the sector from index `at` on with `bytes`,
    /// in the cache alone, and marks the sector dirty: the device gets the
    /// bytes when the sector is next synced.
    ///
    /// The sector is read first unless it is cached. Bytes that do not fit
    /// into the sector give `OutOfRange`, as does a sector that cannot be
    /// mapped, and nothing is changed then.
    pub fn update(&mut self, sector: u64, at: usize, bytes: &[u8]) -> (r: Result<(), Error>)
        requires
            old(self).wf(),
        ensures
            final(self).wf(),
            final(self).partition() == old(self).partition(),
            final(self).device_sector_len() == old(self).device_sector_len(),
            forall|k: u64| #[trigger] final(self).stored(k) == old(self).stored(k),
            forall|k: u64| k != sector ==> #[trigger] final(self).sector(k) == old(self).sector(k),
            forall|k: u64|
                k != sector ==> #[trigger] final(self).is_cached(k) == old(self).is_cached(k),
            forall|k: u64|
                k != sector ==> #[trigger] final(self).is_dirty(k) == old(self).is_dirty(k),
            old(self).is_cached(sector) && at + bytes@.len() <= old(self).sector(sector).len()
                ==> r is Ok,
            match r {
                Ok(_) => {
                    &&& at + bytes@.len() <= old(self).sector(sector).len()
                    &&& final(self).sector(sector) == old(self).sector(sector).take(at as int)
                        + bytes@ + old(self).sector(sector).skip(at + bytes@.len())
                    &&& final(self).is_cached(sector)
                    &&& final(self).is_dirty(sector)
                },
                Err(e) => {
                    &&& final(self).sector(sector) == old(self).sector(sector)
                    &&& final(self).is_dirty(sector) == old(self).is_dirty(sector)
                    &&& (e is Io || e == Error::OutOfRange)
                    &&& e is Io ==> final(self).is_cached(sector) == old(self).is_cached(sector)
                    &&& e == Error::OutOfRange ==> old(self).physical(sector) is None || at
                        + bytes@.len() > old(self).sector(sector).len()
                },
            },
    {
        broadcast use vstd::std_specs::hash::group_hash_axioms;

        let fits: bool = match self.get(sector) {
            Ok(held) => at <= held.len() && bytes.len() <= held.len() - at,
            Err(e) => {
                return Err(e);
            },
        };
        assert(self.is_cached(sector));
        assert(self.sector(sector) == old(self).sector(sector));
        if !fits {
            return Err(Error::OutOfRange);
        }
        let ghost loaded = *self;
        let entry = match self.cache.remove(&sector) {
            Some(entry) => entry,
            None => vstd::pervasive::unreached(),
        };
        let mut data: Vec<u8> = entry.data;
        let copied: usize = crate::bytes::copy_into(data.as_mut_slice(), at, bytes, 0);
        proof {
            assert(bytes@.subrange(0, copied as int) =~= bytes@);
        }
        self.cache.insert(sector, CacheEntry { data, dirty: true });
        proof {
            assert forall|k: u64| #[trigger] self.stored(k) == old(self).stored(k) by {
                assert(loaded.stored(k) == old(self).stored(k));
            }
            assert forall|k: u64| k != sector implies #[trigger] self.sector(k) == old(
                self,
            ).sector(k) by {
                assert(loaded.sector(k) == old(self).sector(k));
                assert(loaded.is_cached(k) == self.is_cached(k));
            }
            assert forall|k: u64| k != sector implies #[trigger] self.is_cached(k) == old(
                self,
            ).is_cached(k) by {
                assert(loaded.is_cached(k) == old(self).is_cached(k));
            }
            assert forall|k: u64| k != sector implies #[trigger] self.is_dirty(k) == old(
                self,
            ).is_dirty(k) by {
                assert(loaded.is_dirty(k) == old(self).is_dirty(k));
            }
        }
        Ok(())
    }

    /// Hands back the device. Sectors that are still dirty are not
    /// written: sync them first.
    pub fn into_device(self) -> (device: D)
        ensures
            device.sector_len() == self.device_sector_len(),
            forall|k: u64|
                #[trigger] crate::cache::on_device(device, self.partition(), k) == self.stored(k),
    {
        self.device
    }

    /// Where a device changed only under one sector, every other sector
    /// is stored as before.
    proof fn lemma_stored_frame(&self, other: Self, sector: u64)
        requires
            self.partition == other.partition,
            self.device.sector_len() == other.device.sector_len(),
            self.partition.spec_physical(self.device.sector_len(), sector) is Some,
            ({
                let (first, count) = self.partition.spec_physical(
                    self.device.sector_len(),
                    sector,
                ).unwrap();
                forall|k: u64|
                    !(first <= k < first + count) ==> #[trigger] other.device.sector(k)
                        == self.device.sector(k)
            }),
        ensures
            forall|k: u64|
                k != sector ==> on_device(other.device, other.partition, k) == on_device(
                    self.device,
                    self.partition,
                    k,
                ),
    {
        assert forall|k: u64| k != sector implies on_device(other.device, other.partition, k)
            == on_device(self.device, self.partition, k) by {
            match self.partition.spec_physical(self.device.sector_len(), k) {
                Some((first, count)) => {
                    self.partition.lemma_apart(self.device.sector_len(), sector, k);
                    crate::device::lemma_gather_agree(self.device, other.device, first, count as nat);
                },
                None => {},
            }
        }
    }

    /// Two caches over one partition whose devices agree on every sector
    /// store the same bytes for every sector.
    proof fn lemma_stored_same(&self, other: Self)
        requires
            self.partition == other.partition,
            self.device.sector_len() == other.device.sector_len(),
            forall|k: u64| #[trigger] other.device.sector(k) == self.device.sector(k),
        ensures
            forall|k: u64|
                on_device(other.device, other.partition, k) == on_device(
                    self.device,
                    self.partition,
                    k,
                ),
    {
        assert forall|k: u64|
            on_device(other.device, other.partition, k) == on_device(
                self.device,
                self.partition,
                k,
            ) by {
            match self.partition.spec_physical(self.device.sector_len(), k) {
                Some((first, count)) => {
                    crate::device::lemma_gather_agree(self.device, other.device, first, count as nat);
                },
                None => {},
            }
        }
    }
}

} // verus!
