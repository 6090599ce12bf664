use winiso::disk::crc::crc32;
use winiso::disk::fat32::{
    checked_total, fat_error, copy_iso_to_fat32, split_wim_to_fat32, FatFailure, VOLUME_LABEL,
};
use winiso::disk::gpt::{build_gpt, build_protective_mbr, MIN_SECTORS};
use winiso::disk::mbr::{build_mbr, partition_sectors};
use winiso::disk::partition::{
    check_device_size, create_gpt, create_mbr, create_partition_table, PartitionInfo,
    PartitionScheme,
};
use winiso::disk::raw_write::{raw_device_path, BLOCK_SIZE};
use winiso::iso::entry::IsoEntry;
use winiso::platform::Platform;
use winiso::wim::header::WimHeader;
use winiso::wim::plan::plan_parts;

fn u32_at(d: &[u8], i: usize) -> u32 {
    u32::from_le_bytes(d[i..i + 4].try_into().unwrap())
}

fn u64_at(d: &[u8], i: usize) -> u64 {
    u64::from_le_bytes(d[i..i + 8].try_into().unwrap())
}

fn entry(path: &str, size: u64, is_dir: bool) -> IsoEntry {
    IsoEntry {
        path: path.to_string(),
        size,
        is_dir,
        extent_lba: 0,
        data_length: size,
        alloc_descs: Vec::new(),
    }
}

#[test]
fn crc_of_the_check_string() {
    assert_eq!(crc32(b"123456789"), 0xCBF4_3926);
    assert_eq!(crc32(b""), 0);
    assert_eq!(crc32(&[0u8; 32]), 0x190A_55AD);
}

#[test]
fn master_boot_record() {
    let size = 16_000_000_000u64;
    let sectors = (size / 512 - 2048) as u32;
    assert_eq!(partition_sectors(size), sectors);
    let b = build_mbr(size);
    assert_eq!(b.len(), 512);
    assert_eq!(&b[..440], &[0u8; 440][..]);
    assert_eq!(&b[440..444], &[0xAA, 0xBB, 0xCC, 0xDD]);
    assert_eq!(b[446], 0x80);
    assert_eq!(b[450], 0x0C);
    assert_eq!(u32_at(&b, 454), 2048);
    assert_eq!(u32_at(&b, 458), sectors);
    assert_eq!(&b[462..510], &[0u8; 48][..]);
    assert_eq!(&b[510..], &[0x55, 0xAA]);
    let t = create_mbr(size);
    assert_eq!(t.info, PartitionInfo { offset: 1_048_576, size: sectors as u64 * 512 });
    assert_eq!(t.writes.len(), 1);
    assert_eq!(t.writes[0], (0, b));
}

#[test]
fn sectors_are_counted_in_32_bits() {
    assert_eq!(partition_sectors(0), 0);
    assert_eq!(partition_sectors(2048 * 512), 0);
    assert_eq!(partition_sectors(2049 * 512), 1);
    assert_eq!(partition_sectors((0x1_0000_0000 + 5000) * 512), 2952);
    assert_eq!(partition_sectors(0x1_0000_0000 * 512), 0);
}

#[test]
fn protective_record() {
    let b = build_protective_mbr(100_000);
    assert_eq!(b.len(), 512);
    assert_eq!(&b[446..454], &[0x00, 0x00, 0x02, 0x00, 0xEE, 0xFF, 0xFF, 0xFF]);
    assert_eq!(u32_at(&b, 454), 1);
    assert_eq!(u32_at(&b, 458), 99_999);
    assert_eq!(&b[510..], &[0x55, 0xAA]);
    assert_eq!(u32_at(&build_protective_mbr(u64::MAX), 458), u32::MAX);
}

#[test]
fn guid_partition_table() {
    let total = 100_000u64;
    let disk = vec![1u8; 16];
    let part = vec![2u8; 16];
    let writes = build_gpt(total, &disk, &part);
    let mut drive = vec![0u8; total as usize * 512];
    for (at, bytes) in &writes {
        let at = *at as usize;
        drive[at..at + bytes.len()].copy_from_slice(bytes);
    }
    assert_eq!(&drive[..512], &build_protective_mbr(total)[..]);
    for (here, other, entries) in
        [(1u64, total - 1, 2u64), (total - 1, 1, total - 33)]
    {
        let h = &drive[here as usize * 512..here as usize * 512 + 512];
        assert_eq!(&h[..8], b"EFI PART");
        assert_eq!(u32_at(h, 8), 0x0001_0000);
        assert_eq!(u32_at(h, 12), 92);
        let mut zeroed = h[..92].to_vec();
        zeroed[16..20].copy_from_slice(&[0; 4]);
        assert_eq!(u32_at(h, 16), crc32(&zeroed));
        assert_eq!(u64_at(h, 24), here);
        assert_eq!(u64_at(h, 32), other);
        assert_eq!(u64_at(h, 40), 34);
        assert_eq!(u64_at(h, 48), total - 34);
        assert_eq!(&h[56..72], &disk[..]);
        assert_eq!(u64_at(h, 72), entries);
        assert_eq!(u32_at(h, 80), 128);
        assert_eq!(u32_at(h, 84), 128);
        let at = entries as usize * 512;
        let array = &drive[at..at + 128 * 128];
        assert_eq!(u32_at(h, 88), crc32(array));
        assert_eq!(&array[16..32], &part[..]);
        assert_eq!(u64_at(array, 32), 2048);
        assert_eq!(u64_at(array, 40), total - 34);
        let name: Vec<u8> =
            "EFI System Partition".encode_utf16().flat_map(|u| u.to_le_bytes()).collect();
        assert_eq!(&array[56..56 + name.len()], &name[..]);
    }
    let t = create_gpt(total * 512, &disk, &part);
    assert_eq!(t.info.offset, 2048 * 512);
    assert_eq!(t.info.size, (total - 34 - 2048 + 1) * 512);
}

#[test]
fn identifiers_are_random() {
    let size = 64u64 * 1024 * 1024;
    let mut seen: Vec<Vec<u8>> = Vec::new();
    for _ in 0..3 {
        let t = create_partition_table(PartitionScheme::Gpt, size);
        let header = t.writes.iter().find(|w| w.1.starts_with(b"EFI PART")).unwrap();
        let id = header.1[56..72].to_vec();
        assert!(!seen.contains(&id));
        seen.push(id);
    }
}

#[test]
fn small_drives_have_no_guid_table() {
    assert!(check_device_size(PartitionScheme::Mbr, 0));
    assert!(!check_device_size(PartitionScheme::Gpt, MIN_SECTORS * 512 - 1));
    assert!(check_device_size(PartitionScheme::Gpt, MIN_SECTORS * 512));
    let t = create_partition_table(PartitionScheme::Gpt, MIN_SECTORS * 512);
    assert_eq!(t.info.size, 512);
    let t = create_partition_table(PartitionScheme::Mbr, 4096 * 512);
    assert_eq!(t.info.size, 2048 * 512);
}

#[test]
fn directories_are_made_before_what_they_hold() {
    let entries = vec![
        entry("a/b", 0, true),
        entry("setup.exe", 10, false),
        entry("sources", 0, true),
        entry("a", 0, true),
        entry("a/b/c", 0, true),
        entry("sources/install.wim", 4_294_967_296, false),
        entry("sources/boot.wim", 4_294_967_295, false),
    ];
    let plan = copy_iso_to_fat32(&entries);
    assert_eq!(plan.dirs, vec![2, 3, 0, 4]);
    assert_eq!(plan.files, vec![1, 6]);
    assert_eq!(plan.total_size, 10 + 4_294_967_296 + 4_294_967_295);
    assert_eq!(checked_total(&entries), Some(plan.total_size));
    let huge = vec![entry("x", u64::MAX, false), entry("y", 1, false)];
    assert_eq!(checked_total(&huge), None);
    assert_eq!(VOLUME_LABEL.len(), 11);
}

#[test]
fn parts_are_written_one_after_another() {
    let mut header = vec![0u8; 208];
    header[..8].copy_from_slice(b"MSWIM\x00\x00\x00");
    header[48..56].copy_from_slice(&150u64.to_le_bytes());
    let mut table = Vec::new();
    for i in 0..3u64 {
        table.extend_from_slice(&1000u64.to_le_bytes());
        table.extend_from_slice(&(i * 1000).to_le_bytes());
        table.extend_from_slice(&[0u8; 34]);
    }
    let header = WimHeader::parse(&header).unwrap();
    let plan = plan_parts(header, &table, Vec::new(), 1500).unwrap();
    let steps = split_wim_to_fat32(&plan);
    assert_eq!(steps.len(), 3);
    assert_eq!(steps[0].fat_path, "sources/install.swm");
    assert_eq!(steps[2].filename, "install3.swm");
    assert_eq!(steps[2].fat_path, "sources/install3.swm");
    assert_eq!((steps[0].base, steps[1].base, steps[2].base), (0, 1000, 2000));
}

#[test]
fn failures_on_the_file_system() {
    let e = fat_error(FatFailure::CreateDir, "a/b", "full");
    assert_eq!(e.message(), "Failed to create dir 'a/b': full");
    let e = fat_error(FatFailure::CreateFile, "x", "full");
    assert_eq!(e.message(), "Failed to create 'x': full");
    let e = fat_error(FatFailure::Flush, "x", "gone");
    assert_eq!(e.message(), "Failed to flush 'x': gone");
}

#[test]
fn raw_devices() {
    assert_eq!(BLOCK_SIZE, 4 * 1024 * 1024);
    assert_eq!(raw_device_path(Platform::MacOs, "/dev/disk2"), "/dev/rdisk2");
    assert_eq!(raw_device_path(Platform::Linux, "/dev/sdb"), "/dev/sdb");
}
