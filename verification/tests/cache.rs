use fat32::cache::CachedDevice;
use fat32::device::{BlockDevice, MemoryDevice, OUT_OF_BOUNDS};
use fat32::error::{Error, IoError};
use fat32::partition::Partition;

/// A device of 16-byte sectors that counts what is asked of it.
struct Counting {
    inner: MemoryDevice,
    reads: Vec<u64>,
    writes: Vec<u64>,
}

impl BlockDevice for Counting {
    fn sector_size(&self) -> u64 {
        self.inner.sector_size()
    }

    fn read_sector(&mut self, n: u64, buf: &mut [u8]) -> Result<usize, IoError> {
        self.reads.push(n);
        self.inner.read_sector(n, buf)
    }

    fn write_sector(&mut self, n: u64, buf: &[u8]) -> Result<usize, IoError> {
        self.writes.push(n);
        self.inner.write_sector(n, buf)
    }
}

fn counting(sectors: usize) -> Counting {
    let data: Vec<u8> = (0..sectors * 16).map(|i| (i / 16) as u8).collect();
    Counting { inner: MemoryDevice::new(16, data), reads: Vec::new(), writes: Vec::new() }
}

fn same_size() -> CachedDevice<Counting> {
    CachedDevice::new(counting(8), Partition { start: 2, sector_size: 16 })
}

fn scaled() -> CachedDevice<Counting> {
    CachedDevice::new(counting(12), Partition { start: 2, sector_size: 32 })
}

#[test]
fn get_reads_a_sector_once() {
    let mut cache = same_size();
    assert_eq!(cache.get(3).unwrap(), &[3u8; 16][..]);
    assert_eq!(cache.get(3).unwrap(), &[3u8; 16][..]);
    assert_eq!(cache.get(0).unwrap(), &[0u8; 16][..]);
    let device = cache.into_device();
    assert_eq!(device.reads, vec![3, 0]);
    assert!(device.writes.is_empty());
}

#[test]
fn get_gathers_the_device_sectors_of_a_logical_sector() {
    let mut cache = scaled();
    assert_eq!(cache.sector_size(), 32);
    let mut expected = vec![4u8; 16];
    expected.extend_from_slice(&[5u8; 16]);
    assert_eq!(cache.get(3).unwrap(), &expected[..]);
    assert_eq!(cache.get(1).unwrap(), &[1u8; 16][..]);
    let device = cache.into_device();
    assert_eq!(device.reads, vec![4, 5, 1]);
}

#[test]
fn a_failed_read_is_not_cached() {
    let mut cache = scaled();
    assert_eq!(cache.get(7).err(), Some(Error::Io(IoError { code: OUT_OF_BOUNDS })));
    assert_eq!(cache.get(7).err(), Some(Error::Io(IoError { code: OUT_OF_BOUNDS })));
    let device = cache.into_device();
    assert_eq!(device.reads, vec![12, 12]);
}

#[test]
fn a_sector_beyond_64_bits_is_out_of_range() {
    let mut cache = scaled();
    assert_eq!(cache.get(u64::MAX).err(), Some(Error::OutOfRange));
    let mut out = vec![1u8];
    assert_eq!(cache.read_all_sector(u64::MAX, &mut out), Err(Error::OutOfRange));
    assert_eq!(out, vec![1u8]);
    assert!(cache.into_device().reads.is_empty());
}

#[test]
fn read_all_sector_appends() {
    let mut cache = same_size();
    let mut out = vec![0xEEu8];
    assert_eq!(cache.read_all_sector(2, &mut out), Ok(16));
    assert_eq!(cache.read_all_sector(5, &mut out), Ok(16));
    assert_eq!(out.len(), 33);
    assert_eq!(out[0], 0xEE);
    assert_eq!(&out[1..17], &[2u8; 16]);
    assert_eq!(&out[17..], &[5u8; 16]);
    assert_eq!(cache.read_all_sector(8, &mut out), Err(Error::Io(IoError { code: OUT_OF_BOUNDS })));
    assert_eq!(out.len(), 33);
}

#[test]
fn sync_of_a_clean_sector_writes_nothing() {
    let mut cache = same_size();
    cache.get(1).unwrap();
    assert_eq!(cache.sync_sector(1, false), Ok(()));
    assert_eq!(cache.sync_sector(4, true), Ok(()));
    cache.get(1).unwrap();
    let device = cache.into_device();
    assert!(device.writes.is_empty());
    assert_eq!(device.reads, vec![1]);
}

#[test]
fn sync_with_remove_evicts() {
    let mut cache = same_size();
    cache.get(1).unwrap();
    assert_eq!(cache.sync_sector(1, true), Ok(()));
    cache.get(1).unwrap();
    assert_eq!(cache.into_device().reads, vec![1, 1]);
}

#[test]
fn update_is_written_back_by_sync() {
    let mut cache = scaled();
    assert_eq!(cache.update(3, 14, &[0xAA, 0xBB, 0xCC, 0xDD]), Ok(()));
    let mut expected = vec![4u8; 14];
    expected.extend_from_slice(&[0xAA, 0xBB, 0xCC, 0xDD]);
    expected.extend_from_slice(&[5u8; 14]);
    assert_eq!(cache.get(3).unwrap(), &expected[..]);
    assert_eq!(cache.sync_sector(3, false), Ok(()));
    assert_eq!(cache.sync_sector(3, false), Ok(()));
    assert_eq!(cache.get(3).unwrap(), &expected[..]);
    let device = cache.into_device();
    assert_eq!(device.writes, vec![4, 5]);
    assert_eq!(device.reads, vec![4, 5]);
    assert_eq!(&device.inner.data[4 * 16..6 * 16], &expected[..]);
    assert_eq!(&device.inner.data[3 * 16..4 * 16], &[3u8; 16]);
    assert_eq!(&device.inner.data[6 * 16..7 * 16], &[6u8; 16]);
}

#[test]
fn update_without_sync_leaves_the_device_alone() {
    let mut cache = same_size();
    assert_eq!(cache.update(2, 0, &[7, 7]), Ok(()));
    assert_eq!(&cache.get(2).unwrap()[..3], &[7, 7, 2]);
    let device = cache.into_device();
    assert!(device.writes.is_empty());
    assert_eq!(&device.inner.data[32..35], &[2, 2, 2]);
}

#[test]
fn update_that_does_not_fit_changes_nothing() {
    let mut cache = same_size();
    assert_eq!(cache.update(2, 15, &[7, 7]), Err(Error::OutOfRange));
    assert_eq!(cache.update(2, 17, &[]), Err(Error::OutOfRange));
    assert_eq!(cache.update(u64::MAX / 2, 0, &[1]).err(), Some(Error::Io(IoError { code: OUT_OF_BOUNDS })));
    assert_eq!(cache.get(2).unwrap(), &[2u8; 16][..]);
    assert_eq!(cache.sync_sector(2, false), Ok(()));
    assert!(cache.into_device().writes.is_empty());
}

#[test]
fn a_failed_write_back_keeps_the_sector_dirty() {
    let mut cache = same_size();
    cache.update(1, 0, &[9]).unwrap();
    let mut device = cache.into_device();
    device.inner.data.truncate(16);
    let mut cache = CachedDevice::new(device, Partition { start: 2, sector_size: 16 });
    cache.update(0, 0, &[9]).unwrap();
    assert_eq!(cache.sync_sector(0, true), Ok(()));
    assert_eq!(cache.get(0).unwrap()[0], 9);
    assert_eq!(cache.get(1).err(), Some(Error::Io(IoError { code: OUT_OF_BOUNDS })));
}
