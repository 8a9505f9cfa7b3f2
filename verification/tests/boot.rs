use fat32::bpb::BiosParameterBlock;
use fat32::bytes::{copy_into, read_le16, read_le32};
use fat32::device::{read_sectors, write_sectors, BlockDevice, MemoryDevice, OUT_OF_BOUNDS};
use fat32::error::{Error, IoError};
use fat32::mbr::{check_boot_signature, MasterBootRecord, PartitionEntry};
use fat32::partition::Partition;

fn boot_sector() -> Vec<u8> {
    let mut s = vec![0u8; 512];
    s[510] = 0x55;
    s[511] = 0xAA;
    s
}

fn bpb_sector(bps: u16, spc: u8, reserved: u16, fats: u8, spf: u32, root: u32) -> Vec<u8> {
    let mut s = boot_sector();
    s[11..13].copy_from_slice(&bps.to_le_bytes());
    s[13] = spc;
    s[14..16].copy_from_slice(&reserved.to_le_bytes());
    s[16] = fats;
    s[36..40].copy_from_slice(&spf.to_le_bytes());
    s[44..48].copy_from_slice(&root.to_le_bytes());
    s
}

#[test]
fn little_endian_numbers() {
    let bytes = [0x78u8, 0x56, 0x34, 0x12, 0xFF, 0xFF, 0xFF, 0xFF];
    assert_eq!(read_le16(&bytes, 0), 0x5678);
    assert_eq!(read_le16(&bytes, 2), 0x1234);
    assert_eq!(read_le32(&bytes, 0), 0x1234_5678);
    assert_eq!(read_le32(&bytes, 4), 0xFFFF_FFFF);
    assert_eq!(read_le16(&bytes, 6), 0xFFFF);
}

#[test]
fn copy_into_copies_what_fits() {
    let mut dst = [0u8; 5];
    assert_eq!(copy_into(&mut dst, 1, &[1, 2, 3, 4, 5, 6], 2), 4);
    assert_eq!(dst, [0, 3, 4, 5, 6]);
    let mut dst = [9u8; 5];
    assert_eq!(copy_into(&mut dst, 2, &[1, 2, 3], 1), 2);
    assert_eq!(dst, [9, 9, 2, 3, 9]);
    assert_eq!(copy_into(&mut dst, 5, &[1, 2, 3], 0), 0);
    assert_eq!(copy_into(&mut dst, 0, &[1, 2, 3], 3), 0);
    assert_eq!(dst, [9, 9, 2, 3, 9]);
}

#[test]
fn boot_signature_needs_a_whole_sector() {
    assert!(check_boot_signature(&boot_sector()));
    assert!(!check_boot_signature(&boot_sector()[..511]));
    let mut s = boot_sector();
    s[511] = 0xAB;
    assert!(!check_boot_signature(&s));
    let mut s = boot_sector();
    s[510] = 0;
    assert!(!check_boot_signature(&s));
}

#[test]
fn mbr_parses_the_four_entries() {
    let mut s = boot_sector();
    s[446] = 0x80;
    s[446 + 4] = 0x0C;
    s[446 + 8..446 + 12].copy_from_slice(&2048u32.to_le_bytes());
    s[446 + 12..446 + 16].copy_from_slice(&100_000u32.to_le_bytes());
    s[446 + 16 + 4] = 0x83;
    s[446 + 16 + 8..446 + 16 + 12].copy_from_slice(&0xDEAD_BEEFu32.to_le_bytes());
    let mbr = MasterBootRecord::parse(&s).unwrap();
    assert_eq!(
        mbr.table[0],
        PartitionEntry {
            boot_indicator: 0x80,
            partition_type: 0x0C,
            relative_sector: 2048,
            total_sectors: 100_000,
        }
    );
    assert_eq!(mbr.table[1].partition_type, 0x83);
    assert_eq!(mbr.table[1].relative_sector, 0xDEAD_BEEF);
    assert_eq!(mbr.table[2].relative_sector, 0);
    assert_eq!(mbr.table[3].boot_indicator, 0);
}

#[test]
fn mbr_without_signature_is_refused() {
    let mut s = boot_sector();
    s[510] = 0;
    assert_eq!(MasterBootRecord::parse(&s).err(), Some(Error::BadSignature));
    assert_eq!(MasterBootRecord::parse(&[]).err(), Some(Error::BadSignature));
}

#[test]
fn mbr_names_the_first_entry_with_an_unknown_boot_indicator() {
    let mut s = boot_sector();
    s[446 + 32] = 0x01;
    s[446 + 48] = 0x7F;
    assert_eq!(MasterBootRecord::parse(&s).err(), Some(Error::UnknownBootIndicator(2)));
    s[446] = 0x81;
    assert_eq!(MasterBootRecord::parse(&s).err(), Some(Error::UnknownBootIndicator(0)));
    s[510] = 0;
    assert_eq!(MasterBootRecord::parse(&s).err(), Some(Error::BadSignature));
}

#[test]
fn mbr_from_reads_sector_zero() {
    let mut image = boot_sector();
    image[446 + 8] = 7;
    image.extend_from_slice(&[0u8; 512]);
    let mut device = MemoryDevice::new(512, image);
    let mbr = MasterBootRecord::from(&mut device).unwrap();
    assert_eq!(mbr.table[0].relative_sector, 7);
    let mut empty = MemoryDevice::new(512, Vec::new());
    assert_eq!(
        MasterBootRecord::from(&mut empty).err(),
        Some(Error::Io(IoError { code: OUT_OF_BOUNDS }))
    );
}

#[test]
fn bpb_parses_its_fields() {
    let s = bpb_sector(512, 8, 32, 2, 1000, 2);
    assert_eq!(
        BiosParameterBlock::parse(&s),
        Ok(BiosParameterBlock {
            bytes_per_sector: 512,
            sectors_per_cluster: 8,
            num_reserved_sectors: 32,
            num_of_fats: 2,
            sectors_per_fat: 1000,
            root_dir_cluster: 2,
        })
    );
    let mut bad = s.clone();
    bad[511] = 0;
    assert_eq!(BiosParameterBlock::parse(&bad), Err(Error::BadSignature));
    assert_eq!(BiosParameterBlock::parse(&s[..100]), Err(Error::BadSignature));
}

#[test]
fn bpb_round_trip_for_512_byte_sectors() {
    let bpb = BiosParameterBlock::parse(&bpb_sector(512, 8, 32, 2, 1000, 2)).unwrap();
    assert!(bpb.is_consistent());
    assert_eq!(bpb.fat_start_sector(2048), 2080);
    assert_eq!(bpb.data_start_sector(2048), 4080);
}

#[test]
fn bpb_round_trip_for_4096_byte_sectors() {
    let bpb = BiosParameterBlock::parse(&bpb_sector(4096, 1, 6, 1, 77, 5)).unwrap();
    assert!(bpb.is_consistent());
    assert_eq!(bpb.bytes_per_sector, 4096);
    assert_eq!(bpb.sectors_per_cluster, 1);
    assert_eq!(bpb.fat_start_sector(63), 69);
    assert_eq!(bpb.data_start_sector(63), 146);
}

#[test]
fn bpb_start_sectors_never_overflow() {
    let bpb = BiosParameterBlock::parse(&bpb_sector(512, 1, 0xFFFF, 0xFF, 0xFFFF_FFFF, 2)).unwrap();
    assert_eq!(bpb.fat_start_sector(0xFFFF_FFFF), 0xFFFF_FFFF + 0xFFFF);
    assert_eq!(
        bpb.data_start_sector(0xFFFF_FFFF),
        0xFFFF_FFFFu64 + 0xFFFF + 0xFF * 0xFFFF_FFFFu64
    );
}

#[test]
fn bpb_consistency() {
    let ok = BiosParameterBlock {
        bytes_per_sector: 512,
        sectors_per_cluster: 1,
        num_reserved_sectors: 0,
        num_of_fats: 1,
        sectors_per_fat: 1,
        root_dir_cluster: 2,
    };
    assert!(ok.is_consistent());
    assert!(!BiosParameterBlock { sectors_per_cluster: 0, ..ok }.is_consistent());
    assert!(!BiosParameterBlock { bytes_per_sector: 0, ..ok }.is_consistent());
    assert!(!BiosParameterBlock { bytes_per_sector: 510, ..ok }.is_consistent());
    assert!(!BiosParameterBlock { num_of_fats: 0, ..ok }.is_consistent());
    assert!(!BiosParameterBlock { sectors_per_fat: 0, ..ok }.is_consistent());
    assert!(!BiosParameterBlock { root_dir_cluster: 1, ..ok }.is_consistent());
    assert!(!BiosParameterBlock { root_dir_cluster: 0x1000_0000, ..ok }.is_consistent());
}

#[test]
fn bpb_from_reads_the_sector_named() {
    let mut image = vec![0u8; 512];
    image.extend_from_slice(&bpb_sector(1024, 4, 3, 2, 9, 2));
    let mut device = MemoryDevice::new(512, image);
    let bpb = BiosParameterBlock::from(&mut device, 1).unwrap();
    assert_eq!(bpb.bytes_per_sector, 1024);
    assert_eq!(BiosParameterBlock::from(&mut device, 0), Err(Error::BadSignature));
    assert_eq!(
        BiosParameterBlock::from(&mut device, 2),
        Err(Error::Io(IoError { code: OUT_OF_BOUNDS }))
    );
}

#[test]
fn partition_maps_sectors_of_one_size_to_themselves() {
    let p = Partition { start: 100, sector_size: 512 };
    assert_eq!(p.physical(512, 0), Some((0, 1)));
    assert_eq!(p.physical(512, 100), Some((100, 1)));
    assert_eq!(p.physical(512, 12345), Some((12345, 1)));
    assert_eq!(p.physical(512, u64::MAX), Some((u64::MAX, 1)));
}

#[test]
fn partition_scales_logical_sectors() {
    let p = Partition { start: 100, sector_size: 2048 };
    assert_eq!(p.physical(512, 99), Some((99, 1)));
    assert_eq!(p.physical(512, 100), Some((100, 4)));
    assert_eq!(p.physical(512, 101), Some((104, 4)));
    assert_eq!(p.physical(512, 110), Some((140, 4)));
    assert_eq!(p.physical(512, u64::MAX), None);
    assert_eq!(p.physical(512, u64::MAX / 4), Some((u64::MAX - 303, 4)));
    assert_eq!(p.physical(512, u64::MAX / 4 + 100), None);
    assert_eq!(p.physical(512, u64::MAX / 2), None);
}

#[test]
fn memory_device_reads_and_writes_whole_sectors() {
    let mut device = MemoryDevice::new(4, vec![1, 2, 3, 4, 5, 6, 7, 8, 9]);
    assert_eq!(device.sector_size(), 4);
    let mut buf = [0u8; 6];
    assert_eq!(device.read_sector(1, &mut buf), Ok(4));
    assert_eq!(buf, [5, 6, 7, 8, 0, 0]);
    let mut small = [0u8; 2];
    assert_eq!(device.read_sector(0, &mut small), Ok(2));
    assert_eq!(small, [1, 2]);
    assert_eq!(device.read_sector(2, &mut buf), Err(IoError { code: OUT_OF_BOUNDS }));
    assert_eq!(device.write_sector(0, &[9, 9]), Ok(2));
    assert_eq!(device.write_sector(1, &[7, 7, 7, 7, 7]), Ok(4));
    assert_eq!(device.write_sector(2, &[0; 4]), Err(IoError { code: OUT_OF_BOUNDS }));
    assert_eq!(device.data, vec![9, 9, 3, 4, 7, 7, 7, 7, 9]);
}

#[test]
fn a_run_of_no_sectors_asks_nothing_of_the_device() {
    let mut empty = MemoryDevice::new(4, Vec::new());
    assert_eq!(read_sectors(&mut empty, 0, 0), Ok(Vec::new()));
    assert_eq!(read_sectors(&mut empty, u64::MAX, 0), Ok(Vec::new()));
    assert_eq!(write_sectors(&mut empty, 9, 0, &[]), Ok(()));
    assert_eq!(empty.data, Vec::<u8>::new());
}

#[test]
fn read_sectors_gathers_a_run() {
    let mut device = MemoryDevice::new(2, vec![1, 2, 3, 4, 5, 6, 7]);
    assert_eq!(read_sectors(&mut device, 0, 1), Ok(vec![1, 2]));
    assert_eq!(read_sectors(&mut device, 1, 2), Ok(vec![3, 4, 5, 6]));
    assert_eq!(read_sectors(&mut device, 0, 3), Ok(vec![1, 2, 3, 4, 5, 6]));
    assert_eq!(read_sectors(&mut device, 2, 2), Err(IoError { code: OUT_OF_BOUNDS }));
    assert_eq!(read_sectors(&mut device, 3, 1), Err(IoError { code: OUT_OF_BOUNDS }));
    assert_eq!(device.data, vec![1, 2, 3, 4, 5, 6, 7]);
}

#[test]
fn write_sectors_writes_a_run_and_nothing_else() {
    let mut device = MemoryDevice::new(2, vec![1, 2, 3, 4, 5, 6, 7]);
    assert_eq!(write_sectors(&mut device, 1, 2, &[9, 8, 7, 6]), Ok(()));
    assert_eq!(device.data, vec![1, 2, 9, 8, 7, 6, 7]);
    assert_eq!(write_sectors(&mut device, 2, 2, &[0, 0, 5, 5]), Err(IoError { code: OUT_OF_BOUNDS }));
    assert_eq!(device.data, vec![1, 2, 9, 8, 0, 0, 7]);
}
