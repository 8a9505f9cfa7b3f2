use fat32::cluster::Cluster;
use fat32::device::MemoryDevice;
use fat32::error::Error;
use fat32::vfat::{Chain, VFat};
use fat32::volume::ChainEnd;

const SECTOR: usize = 512;

fn put16(image: &mut [u8], at: usize, v: u16) {
    image[at..at + 2].copy_from_slice(&v.to_le_bytes());
}

fn put32(image: &mut [u8], at: usize, v: u32) {
    image[at..at + 4].copy_from_slice(&v.to_le_bytes());
}

/// An image with the partition at sector 1, one reserved sector, one table
/// of one sector, clusters of `spc` sectors, and `clusters` data clusters
/// whose bytes are their cluster number.
fn image(spc: u8, clusters: u32, fat: &[(u32, u32)]) -> Vec<u8> {
    let data_start = 3usize;
    let total = data_start + spc as usize * clusters as usize;
    let mut image = vec![0u8; total * SECTOR];
    image[446] = 0x80;
    image[446 + 4] = 0x0C;
    put32(&mut image, 446 + 8, 1);
    put32(&mut image, 446 + 12, (total - 1) as u32);
    image[510] = 0x55;
    image[511] = 0xAA;
    let bpb = SECTOR;
    put16(&mut image, bpb + 11, SECTOR as u16);
    image[bpb + 13] = spc;
    put16(&mut image, bpb + 14, 1);
    image[bpb + 16] = 1;
    put32(&mut image, bpb + 36, 1);
    put32(&mut image, bpb + 44, 2);
    image[bpb + 510] = 0x55;
    image[bpb + 511] = 0xAA;
    let table = 2 * SECTOR;
    put32(&mut image, table, 0x0FFF_FFF8);
    put32(&mut image, table + 4, 0x0FFF_FFFF);
    for &(cluster, entry) in fat {
        put32(&mut image, table + 4 * cluster as usize, entry);
    }
    for c in 0..clusters {
        let from = (data_start + spc as usize * c as usize) * SECTOR;
        for b in &mut image[from..from + spc as usize * SECTOR] {
            *b = (c + 2) as u8;
        }
    }
    image
}

fn mount(spc: u8, clusters: u32, fat: &[(u32, u32)]) -> VFat<MemoryDevice> {
    VFat::from(MemoryDevice::new(SECTOR, image(spc, clusters, fat))).unwrap()
}

#[test]
fn read_chain_of_one_cluster_reads_one_cluster() {
    let mut fs = mount(2, 4, &[(2, 0x0FFF_FFFF)]);
    let mut out = Vec::new();
    let n = fs.read_chain(Cluster::from(2), &mut out).unwrap();
    assert_eq!(n, 2 * SECTOR);
    assert_eq!(out, vec![2u8; 2 * SECTOR]);
}

#[test]
fn read_chain_follows_the_table() {
    let mut fs = mount(1, 4, &[(2, 4), (4, 3), (3, 0x0FFF_FFF8)]);
    let mut out = vec![9u8];
    let n = fs.read_chain(Cluster::from(2), &mut out).unwrap();
    assert_eq!(n, 1 + 3 * SECTOR);
    assert_eq!(out[0], 9);
    assert_eq!(&out[1..1 + SECTOR], &vec![2u8; SECTOR][..]);
    assert_eq!(&out[1 + SECTOR..1 + 2 * SECTOR], &vec![4u8; SECTOR][..]);
    assert_eq!(&out[1 + 2 * SECTOR..], &vec![3u8; SECTOR][..]);
}

#[test]
fn cyclic_chain_ends_after_the_cluster_limit() {
    let mut fs = mount(1, 4, &[(2, 3), (3, 2)]);
    assert_eq!(fs.cluster_limit(), 128);
    let mut out = Vec::new();
    let n = fs.read_chain(Cluster::from(2), &mut out).unwrap();
    assert_eq!(n, 128 * SECTOR);
    assert_eq!(out[0], 2);
    assert_eq!(out[SECTOR], 3);
    assert_eq!(out[127 * SECTOR], 3);
}

#[test]
fn read_cluster_past_the_end_reads_nothing() {
    let mut fs = mount(1, 4, &[(2, 3), (3, 0x0FFF_FFFF)]);
    let mut buf = [7u8; 16];
    assert_eq!(fs.read_cluster(Cluster::from(2), 2 * SECTOR, &mut buf), Ok(0));
    assert_eq!(fs.read_cluster(Cluster::from(2), 5 * SECTOR, &mut buf), Ok(0));
    assert_eq!(buf, [7u8; 16]);
}

#[test]
fn read_cluster_crosses_clusters() {
    let mut fs = mount(1, 4, &[(2, 3), (3, 0x0FFF_FFFF)]);
    let mut buf = [7u8; 8];
    assert_eq!(fs.read_cluster(Cluster::from(2), SECTOR - 3, &mut buf), Ok(8));
    assert_eq!(buf, [2, 2, 2, 3, 3, 3, 3, 3]);
    let mut buf = [7u8; 8];
    assert_eq!(fs.read_cluster(Cluster::from(2), 2 * SECTOR - 3, &mut buf), Ok(3));
    assert_eq!(buf, [3, 3, 3, 7, 7, 7, 7, 7]);
}

#[test]
fn chain_into_a_missing_sector_is_an_io_error() {
    let mut fs = mount(1, 2, &[(2, 100)]);
    let mut out = Vec::new();
    let r = fs.read_chain(Cluster::from(2), &mut out);
    assert!(matches!(r, Err(Error::Io(_))));
}

#[test]
fn layout_follows_the_parameter_block() {
    let fs = mount(4, 3, &[]);
    assert_eq!(fs.bytes_per_sector(), 512);
    assert_eq!(fs.sectors_per_cluster(), 4);
    assert_eq!(fs.sectors_per_fat(), 1);
    assert_eq!(fs.fat_start_sector(), 2);
    assert_eq!(fs.data_start_sector(), 3);
    assert_eq!(fs.root(), Cluster::from(2));
    assert_eq!(fs.root_dir_cluster, Cluster::from(2));
    assert_eq!(fs.cluster_limit(), 128);
}

#[test]
fn clusters_start_a_cluster_apart() {
    let fs = mount(4, 3, &[]);
    assert_eq!(fs.sector(Cluster::from(2)), 3);
    assert_eq!(fs.sector(Cluster::from(3)), 7);
    assert_eq!(fs.sector(Cluster::from(4)), 11);
    let mut last = fs.sector(Cluster::from(2));
    for c in 3..200u32 {
        let s = fs.sector(Cluster::from(c));
        assert_eq!(s - last, 4);
        last = s;
    }
    assert_eq!(fs.sector(Cluster::from(0x0FFF_FFFF)), 3 + (0x0FFF_FFFFu64 - 2) * 4);
}

#[test]
fn fat_entry_is_read_by_value() {
    let mut fs = mount(1, 4, &[(2, 4), (3, 0x0FFF_FFF7), (5, 0xF000_0003)]);
    assert_eq!(fs.fat_entry(Cluster::from(0)).unwrap().0, 0x0FFF_FFF8);
    assert_eq!(fs.fat_entry(Cluster::from(2)).unwrap().0, 4);
    assert_eq!(fs.fat_entry(Cluster::from(3)).unwrap().0, 0x0FFF_FFF7);
    assert_eq!(fs.fat_entry(Cluster::from(4)).unwrap().0, 0);
    assert_eq!(fs.fat_entry(Cluster::from(5)).unwrap().0, 0xF000_0003);
    assert_eq!(fs.fat_entry(Cluster::from(127)).unwrap().0, 0);
    assert_eq!(fs.next_cluster(Cluster::from(2)), Ok(Some(Cluster::from(4))));
    assert_eq!(fs.next_cluster(Cluster::from(3)), Ok(None));
    assert_eq!(fs.next_cluster(Cluster::from(4)), Ok(None));
    assert_eq!(fs.next_cluster(Cluster::from(5)), Ok(Some(Cluster::from(3))));
    assert_eq!(fs.next_cluster(Cluster::from(1)), Ok(None));
}

#[test]
fn fat_entry_beyond_the_device_is_an_io_error() {
    let mut fs = mount(1, 1, &[]);
    assert!(matches!(fs.fat_entry(Cluster::from(128 * 3)), Err(Error::Io(_))));
    assert!(matches!(fs.fat_entry(Cluster::from(0x0FFF_FFFF)), Err(Error::Io(_))));
}

#[test]
fn bad_and_reserved_entries_end_a_chain() {
    for entry in [0u32, 1, 0x0FFF_FFF0, 0x0FFF_FFF6, 0x0FFF_FFF7, 0x0FFF_FFF8] {
        let mut fs = mount(1, 4, &[(2, 3), (3, entry)]);
        let mut out = Vec::new();
        assert_eq!(fs.read_chain(Cluster::from(2), &mut out), Ok(2 * SECTOR));
    }
}

#[test]
fn a_start_that_is_no_data_cluster_has_an_empty_chain() {
    let mut fs = mount(1, 4, &[(2, 3)]);
    let mut out = vec![1u8, 2];
    assert_eq!(fs.read_chain(Cluster::from(0), &mut out), Ok(2));
    assert_eq!(fs.read_chain(Cluster::from(1), &mut out), Ok(2));
    assert_eq!(out, vec![1u8, 2]);
    let mut buf = [5u8; 4];
    assert_eq!(fs.read_cluster(Cluster::from(1), 0, &mut buf), Ok(0));
    assert_eq!(buf, [5u8; 4]);
    assert_eq!(fs.sync_chain(Cluster::from(0), true), Ok(()));
}

#[test]
fn read_cluster_fills_the_buffer_and_no_more() {
    let mut fs = mount(2, 4, &[(2, 5), (5, 3), (3, 0x0FFF_FFFF)]);
    let mut buf = vec![0u8; 6 * SECTOR + 10];
    assert_eq!(fs.read_cluster(Cluster::from(2), 0, &mut buf), Ok(6 * SECTOR));
    assert_eq!(&buf[..2 * SECTOR], &vec![2u8; 2 * SECTOR][..]);
    assert_eq!(&buf[2 * SECTOR..4 * SECTOR], &vec![5u8; 2 * SECTOR][..]);
    assert_eq!(&buf[4 * SECTOR..6 * SECTOR], &vec![3u8; 2 * SECTOR][..]);
    assert_eq!(&buf[6 * SECTOR..], &[0u8; 10]);
    let mut buf = vec![0u8; SECTOR];
    assert_eq!(fs.read_cluster(Cluster::from(2), 2 * SECTOR - 1, &mut buf), Ok(SECTOR));
    assert_eq!(buf[0], 2);
    assert_eq!(&buf[1..], &vec![5u8; SECTOR - 1][..]);
    assert_eq!(fs.read_cluster(Cluster::from(2), 6 * SECTOR - 1, &mut buf), Ok(1));
    assert_eq!(buf[0], 3);
    assert_eq!(fs.read_cluster(Cluster::from(2), 6 * SECTOR, &mut buf), Ok(0));
    assert_eq!(fs.read_cluster(Cluster::from(2), usize::MAX, &mut buf), Ok(0));
    assert_eq!(fs.read_cluster(Cluster::from(2), 0, &mut []), Ok(0));
}

#[test]
fn read_cluster_on_a_cycle_ends() {
    let mut fs = mount(1, 4, &[(2, 3), (3, 2)]);
    let mut buf = [0u8; 4];
    assert_eq!(fs.read_cluster(Cluster::from(2), 127 * SECTOR + 510, &mut buf), Ok(2));
    assert_eq!(buf, [3, 3, 0, 0]);
    assert_eq!(fs.read_cluster(Cluster::from(2), 128 * SECTOR, &mut buf), Ok(0));
    assert_eq!(fs.sync_chain(Cluster::from(2), false), Ok(()));
}

#[test]
fn read_root_dir_cluster_reads_the_root_chain() {
    let mut fs = mount(1, 4, &[(2, 4), (4, 0x0FFF_FFFF)]);
    let mut buf = vec![0u8; 3 * SECTOR];
    assert_eq!(fs.read_root_dir_cluster(&mut buf), Ok(2 * SECTOR));
    assert_eq!(&buf[..SECTOR], &vec![2u8; SECTOR][..]);
    assert_eq!(&buf[SECTOR..2 * SECTOR], &vec![4u8; SECTOR][..]);
    assert_eq!(&buf[2 * SECTOR..], &vec![0u8; SECTOR][..]);
    let mut few = [0u8; 3];
    assert_eq!(fs.read_root_dir_cluster(&mut few), Ok(3));
    assert_eq!(few, [2, 2, 2]);
}

#[test]
fn mount_refuses_boot_sectors_that_do_not_parse() {
    let good = image(1, 2, &[]);
    let mut no_mbr = good.clone();
    no_mbr[511] = 0;
    assert_eq!(VFat::from(MemoryDevice::new(SECTOR, no_mbr)).err(), Some(Error::BadSignature));
    let mut indicator = good.clone();
    indicator[446 + 16] = 0x42;
    assert_eq!(
        VFat::from(MemoryDevice::new(SECTOR, indicator)).err(),
        Some(Error::UnknownBootIndicator(1))
    );
    let mut no_bpb = good.clone();
    no_bpb[SECTOR + 510] = 0;
    assert_eq!(VFat::from(MemoryDevice::new(SECTOR, no_bpb)).err(), Some(Error::BadSignature));
    assert!(matches!(VFat::from(MemoryDevice::new(SECTOR, Vec::new())), Err(Error::Io(_))));
    let mut far = good.clone();
    put32(&mut far, 446 + 8, 1000);
    assert!(matches!(VFat::from(MemoryDevice::new(SECTOR, far)), Err(Error::Io(_))));
}

#[test]
fn mount_refuses_an_inconsistent_layout() {
    let good = image(1, 2, &[]);
    let broken = |at: usize, bytes: &[u8]| {
        let mut image = good.clone();
        image[SECTOR + at..SECTOR + at + bytes.len()].copy_from_slice(bytes);
        VFat::from(MemoryDevice::new(SECTOR, image)).err()
    };
    assert_eq!(broken(13, &[0]), Some(Error::BadGeometry));
    assert_eq!(broken(11, &[0, 0]), Some(Error::BadGeometry));
    assert_eq!(broken(11, &[0x01, 0x02]), Some(Error::BadGeometry));
    assert_eq!(broken(11, &[0x00, 0x01]), Some(Error::BadGeometry));
    assert_eq!(broken(16, &[0]), Some(Error::BadGeometry));
    assert_eq!(broken(36, &[0, 0, 0, 0]), Some(Error::BadGeometry));
    assert_eq!(broken(44, &[1, 0, 0, 0]), Some(Error::BadGeometry));
    assert_eq!(broken(44, &[0, 0, 0, 0x10]), Some(Error::BadGeometry));
    assert_eq!(broken(11, &[0x00, 0x02]), None);
}

#[test]
fn logical_sectors_may_span_device_sectors() {
    // 1024-byte sectors on a device of 512-byte sectors: the partition starts at
    // device sector 1, logical sector 1 + k is device sectors 1 + 2k and 2 + 2k.
    let mut image = vec![0u8; 512 + 6 * 1024];
    image[446 + 8] = 1;
    image[510] = 0x55;
    image[511] = 0xAA;
    let bpb = 512;
    put16(&mut image, bpb + 11, 1024);
    image[bpb + 13] = 2;
    put16(&mut image, bpb + 14, 1);
    image[bpb + 16] = 2;
    put32(&mut image, bpb + 36, 1);
    put32(&mut image, bpb + 44, 2);
    image[bpb + 510] = 0x55;
    image[bpb + 511] = 0xAA;
    let table = 512 + 1024;
    put32(&mut image, table + 8, 0x0FFF_FFFF);
    let data = 512 + 3 * 1024;
    for i in 0..2048 {
        image[data + i] = (i / 512) as u8 + 1;
    }
    let mut fs = VFat::from(MemoryDevice::new(512, image)).unwrap();
    assert_eq!(fs.fat_start_sector(), 2);
    assert_eq!(fs.data_start_sector(), 4);
    assert_eq!(fs.cluster_limit(), 256);
    let mut out = Vec::new();
    assert_eq!(fs.read_chain(Cluster::from(2), &mut out), Ok(2048));
    for i in 0..2048 {
        assert_eq!(out[i], (i / 512) as u8 + 1);
    }
    let mut buf = [0u8; 4];
    assert_eq!(fs.read_cluster(Cluster::from(2), 1022, &mut buf), Ok(4));
    assert_eq!(buf, [2, 2, 3, 3]);
}

fn clusters(numbers: &[u32]) -> Vec<Cluster> {
    numbers.iter().map(|&n| Cluster::from(n)).collect()
}

#[test]
fn chain_lists_the_clusters_up_to_the_marker() {
    let mut fs = mount(1, 4, &[(2, 4), (4, 3), (3, 0x0FFF_FFF8)]);
    assert_eq!(
        fs.chain(Cluster::from(2)),
        Ok(Chain { clusters: clusters(&[2, 4, 3]), end: ChainEnd::Marker })
    );
    assert_eq!(
        fs.chain(Cluster::from(3)),
        Ok(Chain { clusters: clusters(&[3]), end: ChainEnd::Marker })
    );
}

#[test]
fn chain_tells_a_damaged_chain_from_a_whole_one() {
    for entry in [0u32, 1, 0x0FFF_FFF0, 0x0FFF_FFF7] {
        let mut fs = mount(1, 4, &[(2, 3), (3, entry)]);
        assert_eq!(
            fs.chain(Cluster::from(2)),
            Ok(Chain { clusters: clusters(&[2, 3]), end: ChainEnd::Broken })
        );
    }
}

#[test]
fn chain_on_a_cycle_is_cut_off_at_the_limit() {
    let mut fs = mount(1, 4, &[(2, 3), (3, 2)]);
    let chain = fs.chain(Cluster::from(2)).unwrap();
    assert_eq!(chain.end, ChainEnd::Limit);
    assert_eq!(chain.clusters.len(), 128);
    assert_eq!(chain.clusters.len() as u64, fs.cluster_limit());
    for (i, cluster) in chain.clusters.iter().enumerate() {
        assert_eq!(cluster.number(), 2 + (i as u32 % 2));
    }
    let mut own = mount(1, 4, &[(5, 5)]);
    assert_eq!(own.chain(Cluster::from(5)).unwrap().clusters, clusters(&[5; 128]));
}

#[test]
fn chain_of_no_data_cluster_is_empty() {
    let mut fs = mount(1, 4, &[(2, 3)]);
    assert_eq!(fs.chain(Cluster::from(0)), Ok(Chain { clusters: Vec::new(), end: ChainEnd::Empty }));
    assert_eq!(fs.chain(Cluster::from(1)), Ok(Chain { clusters: Vec::new(), end: ChainEnd::Empty }));
}
