use fat32::cluster::Cluster;
use fat32::device::{BlockDevice, MemoryDevice};
use fat32::error::{Error, IoError};
use fat32::vfat::VFat;
use std::cell::RefCell;
use std::rc::Rc;

const SECTOR: usize = 512;

/// A device that records the sectors read and written, and fails on the
/// sectors named in `broken`.
struct Recording {
    inner: MemoryDevice,
    reads: Rc<RefCell<Vec<u64>>>,
    writes: Rc<RefCell<Vec<u64>>>,
    broken: Rc<RefCell<Vec<u64>>>,
}

impl BlockDevice for Recording {
    fn sector_size(&self) -> u64 {
        self.inner.sector_size()
    }

    fn read_sector(&mut self, n: u64, buf: &mut [u8]) -> Result<usize, IoError> {
        self.reads.borrow_mut().push(n);
        if self.broken.borrow().contains(&n) {
            return Err(IoError { code: 5 });
        }
        self.inner.read_sector(n, buf)
    }

    fn write_sector(&mut self, n: u64, buf: &[u8]) -> Result<usize, IoError> {
        self.writes.borrow_mut().push(n);
        self.inner.write_sector(n, buf)
    }
}

struct Fixture {
    fs: VFat<Recording>,
    reads: Rc<RefCell<Vec<u64>>>,
    writes: Rc<RefCell<Vec<u64>>>,
    broken: Rc<RefCell<Vec<u64>>>,
}

impl Fixture {
    fn reads(&self) -> Vec<u64> {
        self.reads.borrow_mut().drain(..).collect()
    }
}

/// The partition starts at sector 1, the table is sector 2, clusters have
/// two sectors, cluster 2 is sectors 3 and 4. The chain is 2, 4, 3.
fn fixture() -> Fixture {
    let mut image = vec![0u8; 11 * SECTOR];
    image[446 + 8] = 1;
    image[510] = 0x55;
    image[511] = 0xAA;
    let bpb = SECTOR;
    image[bpb + 11..bpb + 13].copy_from_slice(&(SECTOR as u16).to_le_bytes());
    image[bpb + 13] = 2;
    image[bpb + 14] = 1;
    image[bpb + 16] = 1;
    image[bpb + 36] = 1;
    image[bpb + 44] = 2;
    image[bpb + 510] = 0x55;
    image[bpb + 511] = 0xAA;
    let table = 2 * SECTOR;
    for (cluster, entry) in [(2usize, 4u32), (4, 3), (3, 0x0FFF_FFFF)] {
        image[table + 4 * cluster..table + 4 * cluster + 4].copy_from_slice(&entry.to_le_bytes());
    }
    for s in 3..11 {
        for b in &mut image[s * SECTOR..(s + 1) * SECTOR] {
            *b = s as u8;
        }
    }
    let reads = Rc::new(RefCell::new(Vec::new()));
    let writes = Rc::new(RefCell::new(Vec::new()));
    let broken = Rc::new(RefCell::new(Vec::new()));
    let device = Recording {
        inner: MemoryDevice::new(SECTOR, image),
        reads: reads.clone(),
        writes: writes.clone(),
        broken: broken.clone(),
    };
    let fs = VFat::from(device).unwrap();
    let fixture = Fixture { fs, reads, writes, broken };
    assert_eq!(fixture.reads(), vec![0, 1]);
    fixture
}

#[test]
fn read_chain_reads_each_sector_once() {
    let mut f = fixture();
    let mut out = Vec::new();
    assert_eq!(f.fs.read_chain(Cluster::from(2), &mut out), Ok(6 * SECTOR));
    assert_eq!(f.reads(), vec![3, 4, 2, 7, 8, 5, 6]);
    let mut again = Vec::new();
    assert_eq!(f.fs.read_chain(Cluster::from(2), &mut again), Ok(6 * SECTOR));
    assert_eq!(again, out);
    assert_eq!(f.reads(), Vec::<u64>::new());
    assert_eq!(out[0], 3);
    assert_eq!(out[SECTOR], 4);
    assert_eq!(out[2 * SECTOR], 7);
    assert_eq!(out[5 * SECTOR], 6);
}

#[test]
fn read_cluster_passes_over_sectors_before_the_offset() {
    let mut f = fixture();
    let mut buf = [0u8; 4];
    assert_eq!(f.fs.read_cluster(Cluster::from(2), 3 * SECTOR + 510, &mut buf), Ok(4));
    assert_eq!(buf, [8, 8, 5, 5]);
    assert_eq!(f.reads(), vec![2, 8, 5]);
}

#[test]
fn read_cluster_stops_when_the_buffer_is_full() {
    let mut f = fixture();
    let mut buf = [0u8; SECTOR];
    assert_eq!(f.fs.read_cluster(Cluster::from(2), 0, &mut buf), Ok(SECTOR));
    assert_eq!(f.reads(), vec![3]);
    assert_eq!(f.fs.read_cluster(Cluster::from(2), 0, &mut []), Ok(0));
    assert_eq!(f.reads(), Vec::<u64>::new());
}

#[test]
fn sync_chain_without_remove_keeps_the_cache() {
    let mut f = fixture();
    let mut out = Vec::new();
    f.fs.read_chain(Cluster::from(2), &mut out).unwrap();
    f.reads();
    assert_eq!(f.fs.sync_chain(Cluster::from(2), false), Ok(()));
    f.fs.read_chain(Cluster::from(2), &mut out).unwrap();
    assert_eq!(f.reads(), Vec::<u64>::new());
    assert!(f.writes.borrow().is_empty());
}

#[test]
fn sync_chain_with_remove_evicts_the_chain() {
    let mut f = fixture();
    let mut out = Vec::new();
    f.fs.read_chain(Cluster::from(2), &mut out).unwrap();
    f.reads();
    assert_eq!(f.fs.sync_chain(Cluster::from(2), true), Ok(()));
    assert_eq!(f.reads(), Vec::<u64>::new());
    f.fs.read_chain(Cluster::from(2), &mut out).unwrap();
    assert_eq!(f.reads(), vec![3, 4, 7, 8, 5, 6]);
    assert!(f.writes.borrow().is_empty());
}

#[test]
fn sync_chain_reads_only_the_table() {
    let mut f = fixture();
    assert_eq!(f.fs.sync_chain(Cluster::from(2), true), Ok(()));
    assert_eq!(f.reads(), vec![2]);
    assert!(f.writes.borrow().is_empty());
}

#[test]
fn device_errors_are_handed_on_unchanged() {
    let mut f = fixture();
    f.broken.borrow_mut().push(7);
    let mut out = vec![0xEEu8];
    assert_eq!(f.fs.read_chain(Cluster::from(2), &mut out), Err(Error::Io(IoError { code: 5 })));
    assert_eq!(out.len(), 1 + 2 * SECTOR);
    assert_eq!(out[0], 0xEE);
    assert_eq!(f.reads(), vec![3, 4, 2, 7]);
    let mut buf = [0u8; 8];
    assert_eq!(
        f.fs.read_cluster(Cluster::from(2), 2 * SECTOR, &mut buf),
        Err(Error::Io(IoError { code: 5 }))
    );
    assert_eq!(f.reads(), vec![7]);
    assert_eq!(f.fs.read_cluster(Cluster::from(2), 3 * SECTOR, &mut buf), Ok(8));
    assert_eq!(f.fs.sync_chain(Cluster::from(2), true), Ok(()));
    f.broken.borrow_mut().clear();
    f.reads();
    assert_eq!(f.fs.read_cluster(Cluster::from(2), 2 * SECTOR, &mut buf), Ok(8));
    assert_eq!(buf, [7u8; 8]);
    assert_eq!(f.reads(), vec![7]);
}

#[test]
fn a_failing_table_sector_fails_the_walk() {
    let mut f = fixture();
    f.broken.borrow_mut().push(2);
    let mut out = Vec::new();
    assert_eq!(f.fs.read_chain(Cluster::from(2), &mut out), Err(Error::Io(IoError { code: 5 })));
    assert_eq!(out.len(), 2 * SECTOR);
    assert_eq!(f.fs.sync_chain(Cluster::from(2), false), Err(Error::Io(IoError { code: 5 })));
    assert_eq!(f.fs.fat_entry(Cluster::from(2)).err(), Some(Error::Io(IoError { code: 5 })));
    assert_eq!(f.fs.open(""), Ok(fat32::entry::Entry::Dir(fat32::entry::Dir::root(&f.fs))));
    assert_eq!(f.fs.open("a"), Err(Error::Io(IoError { code: 5 })));
}
