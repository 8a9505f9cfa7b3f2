//! The block device below the driver, and a device held in memory.

use vstd::prelude::*;
use crate::error::IoError;

verus! {

/// A device that is read and written one whole sector at a time.
///
/// A device is modelled by the bytes of each of its sectors. Reading never
/// changes them, and a successful transfer moves exactly the bytes of the
/// one sector named. When a transfer fails is up to the device.
pub trait BlockDevice {
    /// The number of bytes in a sector; fixed for the device's lifetime.
    ///
    /// This and `byte` are the model that the contracts below speak of.
    /// They have bodies so that a device can be written where no model can
    /// be stated; nothing is ever proved from these bodies, and a device
    /// with a model of its own replaces them.
    closed spec fn sector_len(&self) -> nat {
        512
    }

    /// The byte at index `i` of sector `n`.
    closed spec fn byte(&self, n: u64, i: int) -> u8 {
        0
    }

    /// The number of bytes in a sector.
    fn sector_size(&self) -> (size: u64)
        ensures
            size == self.sector_len(),
    ;

    /// Reads sector `n` into the front of `buf`: as many bytes as the
    /// shorter of the two holds. Returns how many bytes were read.
    fn read_sector(&mut self, n: u64, buf: &mut [u8]) -> (r: Result<usize, IoError>)
        ensures
            final(self).sector_len() == old(self).sector_len(),
            forall|k: u64, i: int| #[trigger] final(self).byte(k, i) == old(self).byte(k, i),
            final(buf)@.len() == old(buf)@.len(),
            r matches Ok(count) ==> {
                &&& count == spec_min(old(buf)@.len(), old(self).sector_len())
                &&& forall|i: int|
                    0 <= i < count ==> #[trigger] final(buf)@[i] == old(self).byte(n, i)
                &&& forall|i: int|
                    count <= i < old(buf)@.len() ==> #[trigger] final(buf)@[i] == old(buf)@[i]
            },
    ;

    /// Writes the front of `buf` over the front of sector `n`: as many
    /// bytes as the shorter of the two holds. Returns how many bytes were
    /// written. After a failure the sector may hold anything.
    fn write_sector(&mut self, n: u64, buf: &[u8]) -> (r: Result<usize, IoError>)
        ensures
            final(self).sector_len() == old(self).sector_len(),
            forall|k: u64, i: int|
                k != n ==> #[trigger] final(self).byte(k, i) == old(self).byte(k, i),
            r matches Ok(count) ==> {
                &&& count == spec_min(buf@.len(), old(self).sector_len())
                &&& forall|i: int| 0 <= i < count ==> #[trigger] final(self).byte(n, i) == buf@[i]
                &&& forall|i: int|
                    count <= i ==> #[trigger] final(self).byte(n, i) == old(self).byte(n, i)
            },
    ;
}

/// What a device holds, sector by sector.
pub trait Sectors {
    /// The bytes that sector `n` holds: exactly `sector_len` of them.
    spec fn sector(&self, n: u64) -> Seq<u8>;
}

impl<D: BlockDevice + ?Sized> Sectors for D {
    open spec fn sector(&self, n: u64) -> Seq<u8> {
        Seq::new(self.sector_len(), |i: int| self.byte(n, i))
    }
}

/// The smaller of two lengths.
pub open spec fn spec_min(a: nat, b: nat) -> nat {
    if a <= b {
        a
    } else {
        b
    }
}

/// The code of the error that a `MemoryDevice` reports for a sector that
/// lies outside its image.
pub const OUT_OF_BOUNDS: u32 = 1;

/// A block device whose sectors are consecutive pieces of a byte vector.
///
/// Sector `n` is the bytes from `n * sector_size` up to, and without,
/// `(n + 1) * sector_size`. A sector that does not lie wholly inside the image cannot be
/// read or written.
#[derive(Debug, Clone)]
pub struct MemoryDevice {
    /// The number of bytes in a sector.
    pub sector_size: usize,
    /// The image.
    pub data: Vec<u8>,
}

impl MemoryDevice {
    /// Whether sector `n` lies wholly inside the image.
    pub open spec fn has_sector(&self, n: u64) -> bool {
        (n + 1) * self.sector_size <= self.data@.len()
    }

    /// A device over `data`, cut into sectors of `sector_size` bytes.
    pub fn new(sector_size: usize, data: Vec<u8>) -> (device: MemoryDevice)
        ensures
            device.sector_size == sector_size,
            device.data == data,
    {
        MemoryDevice { sector_size, data }
    }

    /// Where sector `n` starts in the image, if it lies inside.
    fn locate(&self, n: u64) -> (start: Option<usize>)
        ensures
            match start {
                Some(at) => self.has_sector(n) && at == n * self.sector_size,
                None => !self.has_sector(n),
            },
    {
        let size: u128 = self.sector_size as u128;
        assert(n * size <= 0xFFFF_FFFF_FFFF_FFFF * 0xFFFF_FFFF_FFFF_FFFF) by (nonlinear_arith)
            requires
                0 <= n <= 0xFFFF_FFFF_FFFF_FFFF,
                0 <= size <= 0xFFFF_FFFF_FFFF_FFFF,
        ;
        let start: u128 = (n as u128) * size;
        assert((n + 1) * self.sector_size == start + size) by (nonlinear_arith)
            requires
                start == n * size,
                size == self.sector_size,
        ;
        if start + size <= self.data.len() as u128 {
            Some(start as usize)
        } else {
            None
        }
    }
}

impl BlockDevice for MemoryDevice {
    open spec fn sector_len(&self) -> nat {
        self.sector_size as nat
    }

    open spec fn byte(&self, n: u64, i: int) -> u8 {
        if self.has_sector(n) && 0 <= i < self.sector_size {
            self.data@[n * self.sector_size + i]
        } else {
            0
        }
    }

    fn sector_size(&self) -> (size: u64) {
        self.sector_size as u64
    }

    /// Succeeds exactly for the sectors inside the image, and leaves the
    /// device as it was.
    fn read_sector(&mut self, n: u64, buf: &mut [u8]) -> (r: Result<usize, IoError>)
        ensures
            *final(self) == *old(self),
            r is Ok <==> old(self).has_sector(n),
            r is Err ==> r == Err::<usize, IoError>(IoError { code: OUT_OF_BOUNDS }) && final(buf)@
                == old(buf)@,
    {
        let start: usize = match self.locate(n) {
            Some(at) => at,
            None => {
                return Err(IoError { code: OUT_OF_BOUNDS });
            },
        };
        proof {
            assert(n * self.sector_size + self.sector_size == (n + 1) * self.sector_size)
                by (nonlinear_arith);
        }
        let count: usize = if buf.len() <= self.sector_size {
            buf.len()
        } else {
            self.sector_size
        };
        let total: usize = self.data.len();
        let mut i: usize = 0;
        while i < count
            invariant
                i <= count <= self.sector_size,
                count <= buf@.len(),
                buf@.len() == old(buf)@.len(),
                start + self.sector_size <= self.data@.len() == total,
                *self == *old(self),
                forall|j: int| 0 <= j < i ==> buf@[j] == self.data@[start + j],
                forall|j: int| i <= j < buf@.len() ==> buf@[j] == old(buf)@[j],
            decreases count - i,
        {
            buf[i] = self.data[start + i];
            i += 1;
        }
        Ok(count)
    }

    /// Succeeds exactly for the sectors inside the image.
    fn write_sector(&mut self, n: u64, buf: &[u8]) -> (r: Result<usize, IoError>)
        ensures
            r is Ok <==> old(self).has_sector(n),
            r is Err ==> r == Err::<usize, IoError>(IoError { code: OUT_OF_BOUNDS }) && *final(self)
                == *old(self),
            final(self).data@.len() == old(self).data@.len(),
    {
        let start: usize = match self.locate(n) {
            Some(at) => at,
            None => {
                return Err(IoError { code: OUT_OF_BOUNDS });
            },
        };
        proof {
            assert(n * self.sector_size + self.sector_size == (n + 1) * self.sector_size)
                by (nonlinear_arith);
        }
        let count: usize = if buf.len() <= self.sector_size {
            buf.len()
        } else {
            self.sector_size
        };
        let total: usize = self.data.len();
        let mut i: usize = 0;
        while i < count
            invariant
                i <= count <= self.sector_size,
                count <= buf@.len(),
                self.sector_size == old(self).sector_size,
                self.data@.len() == old(self).data@.len(),
                start == n * self.sector_size,
                start + self.sector_size == (n + 1) * self.sector_size,
                start + self.sector_size <= self.data@.len() == total,
                forall|j: int| 0 <= j < i ==> self.data@[start + j] == buf@[j],
                forall|j: int|
                    0 <= j < self.data@.len() && !(start <= j < start + i) ==> self.data@[j] == old(
                        self,
                    ).data@[j],
            decreases count - i,
        {
            self.data[start + i] = buf[i];
            i += 1;
        }
        proof {
            assert forall|k: u64, i: int| k != n implies #[trigger] self.byte(k, i) == old(
                self,
            ).byte(k, i) by {
                lemma_sectors_apart(n, k, self.sector_size as nat);
                assert(self.has_sector(k) == old(self).has_sector(k));
                if self.has_sector(k) && 0 <= i < self.sector_size {
                    assert(k * self.sector_size + self.sector_size == (k + 1) * self.sector_size)
                        by (nonlinear_arith);
                    assert(0 <= k * self.sector_size) by (nonlinear_arith);
                }
            }
        }
        Ok(count)
    }
}

/// Two different sectors of one size share no byte.
pub proof fn lemma_sectors_apart(a: u64, b: u64, size: nat)
    requires
        a != b,
    ensures
        (a + 1) * size <= b * size || (b + 1) * size <= a * size,
{
    if a < b {
        assert((a + 1) * size <= b * size) by (nonlinear_arith)
            requires
                a + 1 <= b,
        ;
    } else {
        assert((b + 1) * size <= a * size) by (nonlinear_arith)
            requires
                b + 1 <= a,
        ;
    }
}

/// The bytes of `count` consecutive device sectors, the first being
/// `first`.
pub open spec fn gather<D: BlockDevice>(device: D, first: u64, count: nat) -> Seq<u8>
    decreases count,
{
    if count == 0 {
        Seq::empty()
    } else {
        gather(device, first, (count - 1) as nat) + device.sector((first + count - 1) as u64)
    }
}

/// `count` sectors hold `count` times the bytes of one.
pub proof fn lemma_gather_len<D: BlockDevice>(device: D, first: u64, count: nat)
    ensures
        gather(device, first, count).len() == count * device.sector_len(),
    decreases count,
{
    if count > 0 {
        let front = gather(device, first, (count - 1) as nat);
        let last = device.sector((first + count - 1) as u64);
        lemma_gather_len(device, first, (count - 1) as nat);
        assert(gather(device, first, count) == front + last);
        assert((front + last).len() == front.len() + last.len());
        let len = device.sector_len() as int;
        assert((count - 1) * len + len == count * len) by (nonlinear_arith);
    } else {
        assert(gather(device, first, count).len() == 0);
        assert(count * device.sector_len() == 0) by (nonlinear_arith)
            requires
                count == 0,
        ;
    }
}

/// A run of one sector is that sector.
pub proof fn lemma_gather_one<D: BlockDevice>(device: D, first: u64)
    ensures
        gather(device, first, 1) == device.sector(first),
{
    assert(gather(device, first, 0) == Seq::<u8>::empty());
    assert(gather(device, first, 1) == gather(device, first, 0) + device.sector(first));
    assert(Seq::<u8>::empty() + device.sector(first) =~= device.sector(first));
}

/// Devices that agree on a run of sectors agree on the bytes gathered
/// from it.
pub proof fn lemma_gather_agree<D: BlockDevice>(a: D, b: D, first: u64, count: nat)
    requires
        first + count <= u64::MAX + 1,
        forall|k: u64| first <= k < first + count ==> #[trigger] a.sector(k) == b.sector(k),
    ensures
        gather(a, first, count) == gather(b, first, count),
    decreases count,
{
    if count > 0 {
        lemma_gather_agree(a, b, first, (count - 1) as nat);
    }
}

/// A vector of `len` zero bytes.
fn zeroed(len: usize) -> (v: Vec<u8>)
    ensures
        v@.len() == len,
{
    let mut v: Vec<u8> = Vec::new();
    let mut i: usize = 0;
    while i < len
        invariant
            i <= len,
            v@.len() == i,
        decreases len - i,
    {
        v.push(0u8);
        i += 1;
    }
    v
}

/// Appends `src` to `dst`.
pub fn append(dst: &mut Vec<u8>, src: &[u8])
    ensures
        final(dst)@ == old(dst)@ + src@,
{
    let mut i: usize = 0;
    while i < src.len()
        invariant
            i <= src@.len(),
            dst@ == old(dst)@ + src@.take(i as int),
        decreases src@.len() - i,
    {
        dst.push(src[i]);
        i += 1;
        assert(dst@ =~= old(dst)@ + src@.take(i as int));
    }
    assert(src@.take(src@.len() as int) =~= src@);
}

/// Reads `count` consecutive device sectors, the first being `first`,
/// and returns their bytes, one sector after the other.
///
/// The device is asked once for each sector, in order, and the first
/// failure ends the call with the device's error. A run of no sectors
/// asks nothing and succeeds with no bytes.
pub fn read_sectors<D: BlockDevice>(device: &mut D, first: u64, count: u64) -> (r: Result<
    Vec<u8>,
    IoError,
>)
    requires
        first + count <= u64::MAX + 1,
        old(device).sector_len() <= usize::MAX,
    ensures
        final(device).sector_len() == old(device).sector_len(),
        forall|k: u64| #[trigger] final(device).sector(k) == old(device).sector(k),
        count == 0 ==> r is Ok,
        r matches Ok(data) ==> {
            &&& data@ == gather(*old(device), first, count as nat)
            &&& data@.len() == count * old(device).sector_len()
        },
{
    proof {
        lemma_gather_len(*old(device), first, count as nat);
    }
    let len: usize = device.sector_size() as usize;
    let mut data: Vec<u8> = Vec::new();
    let mut i: u64 = 0;
    while i < count
        invariant
            i <= count,
            first + count <= u64::MAX + 1,
            device.sector_len() == old(device).sector_len() == len,
            forall|k: u64| #[trigger] device.sector(k) == old(device).sector(k),
            data@ == gather(*old(device), first, i as nat),
        decreases count - i,
    {
        let mut piece: Vec<u8> = zeroed(len);
        let ghost before = *device;
        let done = device.read_sector(first + i, piece.as_mut_slice());
        proof {
            assert forall|k: u64| #[trigger] device.sector(k) == old(device).sector(k) by {
                assert(device.sector(k) =~= before.sector(k));
            }
        }
        match done {
            Ok(_) => {},
            Err(e) => {
                return Err(e);
            },
        }
        proof {
            assert(before.sector((first + i) as u64) == old(device).sector((first + i) as u64));
            assert(piece@ =~= before.sector((first + i) as u64));
        }
        append(&mut data, piece.as_slice());
        i += 1;
    }
    Ok(data)
}

/// Writes `data` over `count` consecutive device sectors, the first being
/// `first`: each sector gets its piece of `data`.
///
/// The device is asked once for each sector, in order, and the first
/// failure ends the call with the device's error; sectors outside the run
/// are as they were either way. A run of no sectors asks nothing and
/// succeeds.
pub fn write_sectors<D: BlockDevice>(device: &mut D, first: u64, count: u64, data: &[u8]) -> (r: Result<
    (),
    IoError,
>)
    requires
        first + count <= u64::MAX + 1,
        0 < old(device).sector_len() <= usize::MAX,
        data@.len() == count * old(device).sector_len(),
    ensures
        final(device).sector_len() == old(device).sector_len(),
        forall|k: u64|
            !(first <= k < first + count) ==> #[trigger] final(device).sector(k) == old(
                device,
            ).sector(k),
        count == 0 ==> r is Ok,
        r is Ok ==> gather(*final(device), first, count as nat) == data@,
{
    let len: usize = device.sector_size() as usize;
    let total: usize = data.len();
    let mut i: u64 = 0;
    let mut at: usize = 0;
    while i < count
        invariant
            i <= count,
            at == i * len,
            total == data@.len(),
            first + count <= u64::MAX + 1,
            0 < len,
            device.sector_len() == old(device).sector_len() == len,
            data@.len() == count * len,
            forall|k: u64|
                !(first <= k < first + i) ==> #[trigger] device.sector(k) == old(device).sector(k),
            gather(*device, first, i as nat) == data@.take(at as int),
        decreases count - i,
    {
        proof {
            assert((i + 1) * len <= count * len) by (nonlinear_arith)
                requires
                    i + 1 <= count,
                    0 < len,
            ;
            assert((i + 1) * len == i * len + len) by (nonlinear_arith);
        }
        let ghost before = *device;
        let piece: &[u8] = vstd::slice::slice_subrange(data, at, at + len);
        let done = device.write_sector(first + i, piece);
        proof {
            assert forall|k: u64| !(first <= k < first + i + 1) implies #[trigger] device.sector(k)
                == old(device).sector(k) by {
                assert(device.sector(k) =~= before.sector(k));
            }
            assert forall|k: u64| first <= k < first + i implies #[trigger] before.sector(k)
                == device.sector(k) by {
                assert(device.sector(k) =~= before.sector(k));
            }
        }
        match done {
            Ok(_) => {},
            Err(e) => {
                return Err(e);
            },
        }
        proof {
            assert(device.sector((first + i) as u64) =~= piece@);
            lemma_gather_agree(before, *device, first, i as nat);
            assert(gather(*device, first, (i + 1) as nat) =~= data@.take(at + len));
        }
        i += 1;
        at += len;
    }
    proof {
        assert(data@.take(at as int) =~= data@);
    }
    Ok(())
}

} // verus!
