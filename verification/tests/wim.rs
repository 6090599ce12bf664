use winiso::iso::reader::{IsoFileReader, IsoReader, SeekTo, FAT32_MAX_FILE_SIZE};
use winiso::wim::entry::{LookupEntry, LOOKUP_ENTRY_SIZE};
use winiso::wim::header::{WimHeader, HEADER_SIZE};
use winiso::wim::plan::{check_sizes, plan_parts, SplitPlan, DEFAULT_MAX_PART_SIZE};
use winiso::wim::split::{part_layout, plan_split, write_part};

const METADATA: u8 = 0x02;

/// A resource of a test image: flags, bytes in the image, and the size that the table claims.
struct Resource {
    flags: u8,
    bytes: Vec<u8>,
    claimed: u64,
}

fn resource(flags: u8, fill: u8, len: usize) -> Resource {
    Resource { flags, bytes: vec![fill; len], claimed: len as u64 }
}

fn put(buf: &mut [u8], at: usize, bytes: &[u8]) {
    buf[at..at + bytes.len()].copy_from_slice(bytes);
}

/// A WIM file whose resources lie one after another behind the header.
fn wim(resources: &[Resource], xml: &[u8], boot: Option<usize>) -> Vec<u8> {
    let mut data = vec![0u8; HEADER_SIZE];
    let mut table: Vec<u8> = Vec::new();
    let mut boot_at = (0u64, 0u64);
    for (i, r) in resources.iter().enumerate() {
        let offset = data.len() as u64;
        data.extend_from_slice(&r.bytes);
        table.extend_from_slice(&(r.claimed | (r.flags as u64) << 56).to_le_bytes());
        table.extend_from_slice(&offset.to_le_bytes());
        table.extend_from_slice(&(r.claimed * 2).to_le_bytes());
        table.extend_from_slice(&1u16.to_le_bytes());
        table.extend_from_slice(&(i as u32 + 1).to_le_bytes());
        table.extend_from_slice(&[i as u8; 20]);
        if boot == Some(i) {
            boot_at = (r.claimed, offset);
        }
    }
    let table_at = data.len() as u64;
    data.extend_from_slice(&table);
    let xml_at = data.len() as u64;
    data.extend_from_slice(xml);
    put(&mut data, 0, b"MSWIM\x00\x00\x00");
    put(&mut data, 8, &208u32.to_le_bytes());
    put(&mut data, 12, &0x10d00u32.to_le_bytes());
    put(&mut data, 16, &0x20082u32.to_le_bytes());
    put(&mut data, 40, &1u16.to_le_bytes());
    put(&mut data, 42, &1u16.to_le_bytes());
    put(&mut data, 44, &2u32.to_le_bytes());
    put(&mut data, 48, &(table.len() as u64 | 0x02u64 << 56).to_le_bytes());
    put(&mut data, 56, &table_at.to_le_bytes());
    put(&mut data, 64, &(table.len() as u64).to_le_bytes());
    put(&mut data, 72, &(xml.len() as u64 | 0x02u64 << 56).to_le_bytes());
    put(&mut data, 80, &xml_at.to_le_bytes());
    put(&mut data, 88, &(xml.len() as u64).to_le_bytes());
    put(&mut data, 96, &(boot_at.0 | 0x06u64 << 56).to_le_bytes());
    put(&mut data, 104, &boot_at.1.to_le_bytes());
    put(&mut data, 112, &(boot_at.0 * 2).to_le_bytes());
    put(&mut data, 120, &1u32.to_le_bytes());
    put(&mut data, 124, &[0xAA; 24]);
    data
}

const SECTOR: usize = 2048;

fn record(lba: u32, len: u32, flags: u8, name: &[u8]) -> Vec<u8> {
    let mut size = 33 + name.len();
    size += size % 2;
    let mut r = vec![0u8; size];
    r[0] = size as u8;
    put(&mut r, 2, &lba.to_le_bytes());
    put(&mut r, 10, &len.to_le_bytes());
    r[25] = flags;
    r[32] = name.len() as u8;
    put(&mut r, 33, name);
    r
}

/// An ISO 9660 image with the one file `sources/install.wim`.
fn iso_with_wim(wim: &[u8]) -> Vec<u8> {
    let sectors = (wim.len() + SECTOR - 1) / SECTOR;
    let mut img = vec![0u8; (20 + sectors) * SECTOR];
    put(&mut img, 16 * SECTOR, &[1]);
    put(&mut img, 16 * SECTOR + 1, b"CD001");
    let root = record(18, SECTOR as u32, 2, &[0]);
    put(&mut img, 16 * SECTOR + 156, &root);
    put(&mut img, 17 * SECTOR, &[255]);
    put(&mut img, 17 * SECTOR + 1, b"CD001");
    let dir = record(19, SECTOR as u32, 2, b"sources");
    put(&mut img, 18 * SECTOR, &dir);
    let file = record(20, wim.len() as u32, 0, b"install.wim;1");
    put(&mut img, 19 * SECTOR, &file);
    put(&mut img, 20 * SECTOR, wim);
    img
}

/// The WIM file of an image, read through the image.
fn wim_of(img: &[u8]) -> Vec<u8> {
    let iso = IsoReader::open(img).unwrap();
    let entries = iso.list_files().unwrap();
    let entry = entries
        .iter()
        .find(|e| e.path.to_lowercase().ends_with("install.wim"))
        .expect("install.wim not found");
    let mut reader = IsoFileReader::new(&iso, entry);
    let mut all: Vec<u8> = Vec::new();
    loop {
        let mut buf = vec![0u8; 1000];
        let n = reader.read(&mut buf).unwrap();
        if n == 0 {
            break;
        }
        all.extend_from_slice(&buf[..n]);
    }
    all
}

/// An installation image that takes two parts at the default limit, where the second one is not
/// there but in the lookup table.
fn large_wim() -> Vec<u8> {
    wim(
        &[
            resource(0, 0x11, 700),
            resource(METADATA, 0x22, 300),
            Resource { flags: 4, bytes: vec![0x33; 10], claimed: 3_990_000_000 },
            resource(4, 0x44, 500),
            Resource { flags: 4, bytes: vec![0x55; 10], claimed: 3_000_000_000 },
        ],
        b"<WIM></WIM>",
        Some(1),
    )
}

fn u16_at(d: &[u8], i: usize) -> u16 {
    u16::from_le_bytes(d[i..i + 2].try_into().unwrap())
}

fn u64_at(d: &[u8], i: usize) -> u64 {
    u64::from_le_bytes(d[i..i + 8].try_into().unwrap())
}

#[test]
fn test_wim_split_plan() {
    let wim = wim_of(&iso_with_wim(&large_wim()));
    let plan = plan_split(&wim, 0).expect("plan_split failed");

    assert!(plan.total_parts() >= 2, "Should split into at least 2 parts");
    for (i, &(part, _offset)) in plan.assignments().iter().enumerate() {
        assert!(part >= 1 && part <= plan.total_parts(), "Entry {i} has invalid part {part}");
    }

    let mut test_header = plan.header().duplicate();
    test_header.set_part_info(1, plan.total_parts());
    assert_eq!(&test_header.as_bytes()[0..8], b"MSWIM\x00\x00\x00");
}

#[test]
fn test_wim_write_part1_header() {
    let wim = wim_of(&iso_with_wim(&large_wim()));
    let plan = plan_split(&wim, 0).unwrap();

    let mut hdr = plan.header().duplicate();
    hdr.set_part_info(1, plan.total_parts());
    let resources_size: u64 =
        plan.parts()[0].iter().map(|&i| plan.entries()[i].compressed_size).sum();
    let part1_lt_size = (plan.parts()[0].len() * LOOKUP_ENTRY_SIZE) as u64;
    hdr.set_lookup_table(HEADER_SIZE as u64 + resources_size, part1_lt_size);
    hdr.set_xml_data(
        HEADER_SIZE as u64 + resources_size + part1_lt_size,
        plan.xml_data().len() as u64,
    );
    hdr.clear_integrity();

    assert_eq!(&hdr.as_bytes()[0..8], b"MSWIM\x00\x00\x00");
    let part_num = u16_at(hdr.as_bytes(), 40);
    let total = u16_at(hdr.as_bytes(), 42);
    assert_eq!(part_num, 1);
    assert_eq!(total, plan.total_parts());
}

#[test]
fn test_wim_write_verify() {
    let wim = wim_of(&iso_with_wim(&large_wim()));
    let plan = plan_split(&wim, 0).unwrap();

    let test_part: u16 = 1;
    let test_resources_size: u64 = plan.parts()[(test_part - 1) as usize]
        .iter()
        .map(|&i| plan.entries()[i].compressed_size)
        .sum();
    let mut data: Vec<u8> = Vec::new();
    let mut progress = Vec::new();
    write_part(&plan, test_part, &wim, &mut data, &mut progress).unwrap();

    assert_eq!(&data[0..8], b"MSWIM\x00\x00\x00", "Bad magic");
    let part_num = u16_at(&data, 40);
    let total = u16_at(&data, 42);
    assert_eq!(part_num, test_part);
    assert_eq!(total, plan.total_parts());

    let lt_offset = u64_at(&data, 56);
    let lt_size = u64_at(&data, 48) & 0x00FF_FFFF_FFFF_FFFF;
    assert_eq!(lt_offset, HEADER_SIZE as u64 + test_resources_size);
    let expected_lt_size =
        (plan.parts()[(test_part - 1) as usize].len() * LOOKUP_ENTRY_SIZE) as u64;
    assert_eq!(lt_size, expected_lt_size, "LT size should only include entries for this part");

    let lt_start = lt_offset as usize;
    let lt_end = lt_start + lt_size as usize;
    assert!(lt_end <= data.len(), "LT extends past file end");

    let num_lt_entries = plan.parts()[(test_part - 1) as usize].len();
    for i in 0..num_lt_entries {
        let off = lt_start + i * LOOKUP_ENTRY_SIZE;
        let entry_part = u16_at(&data, off + 24);
        assert_eq!(
            entry_part, test_part,
            "Entry {i} should have part_number={test_part}, got {entry_part}"
        );
    }

    let test_idx = (test_part - 1) as usize;
    for &idx in &plan.parts()[test_idx][..3.min(plan.parts()[test_idx].len())] {
        let (assigned_part, assigned_offset) = plan.assignments()[idx];
        assert_eq!(assigned_part, test_part);
        let res_start = assigned_offset as usize;
        if res_start + 4 <= data.len() {
            let first_bytes = &data[res_start..res_start + 4];
            let from = plan.entries()[idx].source_offset as usize;
            assert_eq!(
                first_bytes,
                &wim[from..from + 4],
                "Resource {idx} data mismatch at offset {assigned_offset}"
            );
        }
    }

    let xml_offset = u64_at(&data, 80) as usize;
    assert_eq!(&data[xml_offset..xml_offset + 4], &plan.xml_data()[..4], "XML data mismatch");
    assert_eq!(progress.last(), Some(&(test_resources_size, test_resources_size)));
}

#[test]
fn test_dump_wim_header() {
    let wim = wim_of(&iso_with_wim(&large_wim()));
    let plan = plan_split(&wim, 0).unwrap();
    let h = plan.header().as_bytes();

    assert_eq!(h.len(), 208);
    assert_eq!(&h[0..8], b"MSWIM\x00\x00\x00");
    assert_eq!(u16_at(h, 40), 1);
    assert_eq!(u16_at(h, 42), 1);
    let lt_size_flags = u64_at(h, 48);
    assert_eq!((lt_size_flags >> 56) as u8, 2);
    assert_eq!(lt_size_flags & 0x00FF_FFFF_FFFF_FFFF, plan.header().lookup_table_size());
    assert_eq!(plan.header().lookup_table_size() / 50, 5);
    assert_eq!(u64_at(h, 56), plan.header().lookup_table_offset());
    assert_eq!(u64_at(h, 80), plan.header().xml_offset());
    assert_eq!(plan.header().xml_size(), 11);
    assert_eq!(plan.header().boot_metadata_compressed_size(), 300);
    assert_eq!(u64_at(h, 104), plan.header().boot_metadata_offset());
    for b in &h[124..148] {
        assert_eq!(*b, 0xAA);
    }
}

#[test]
fn default_limit_is_used_for_zero() {
    assert_eq!(DEFAULT_MAX_PART_SIZE, 3800 * 1024 * 1024);
    let plan = plan_split(&large_wim(), 0).unwrap();
    let same = plan_split(&large_wim(), DEFAULT_MAX_PART_SIZE).unwrap();
    assert_eq!(plan.parts(), same.parts());
    assert_eq!(plan.parts(), &vec![vec![0, 1], vec![2], vec![3, 4]]);
}

#[test]
fn parts_fit_fat32() {
    let mut resources = vec![resource(METADATA, 0x22, 300)];
    for _ in 0..9 {
        resources.push(Resource { flags: 4, bytes: vec![1; 4], claimed: 1_300_000_000 });
    }
    let file = wim(&resources, b"<WIM></WIM>", None);
    let plan = plan_split(&file, 0).unwrap();
    assert_eq!(plan.total_parts(), 3);
    for part in 1..=plan.total_parts() {
        let entries = plan.parts()[part as usize - 1].len() as u64;
        let size = 208 + plan.part_resources_size(part) + 50 * entries + 11;
        assert!(size <= DEFAULT_MAX_PART_SIZE);
        assert!(size < FAT32_MAX_FILE_SIZE);
    }
}

fn small_plan(max: u64) -> (Vec<u8>, SplitPlan) {
    let file = wim(
        &[
            resource(0, 1, 600),
            resource(METADATA, 2, 100),
            resource(4, 3, 500),
            resource(0, 4, 0),
            resource(METADATA | 4, 5, 50),
            resource(0, 6, 900),
        ],
        b"<XML/>",
        Some(4),
    );
    let plan = plan_split(&file, max).unwrap();
    (file, plan)
}

#[test]
fn metadata_stands_in_the_first_part() {
    // 208 bytes of header, 300 of table and 6 of XML data count for each part.
    let (_, plan) = small_plan(1400);
    assert_eq!(plan.parts(), &vec![vec![0, 1, 4], vec![2], vec![5]]);
    assert_eq!(plan.total_parts(), 3);
    assert_eq!(plan.boot_metadata_idx(), Some(4));
    assert_eq!(plan.part_resources_size(1), 750);
    assert_eq!(plan.part_resources_size(2), 500);
    assert_eq!(plan.part_resources_size(3), 900);
    assert_eq!(plan.total_resources_size(), 2150);
    assert_eq!(plan.checked_resources_size(), Some(2150));
    // The one without bytes is in no part.
    assert_eq!(plan.assignments()[3], (1, 0));
}

#[test]
fn a_part_is_filled_up_to_the_limit() {
    // 750 and 500 bytes with 514 bytes of overhead are exactly the limit.
    let (_, plan) = small_plan(1764);
    assert_eq!(plan.parts(), &vec![vec![0, 1, 2, 4], vec![5]]);
    let (_, plan) = small_plan(1763);
    assert_eq!(plan.parts(), &vec![vec![0, 1, 4], vec![2], vec![5]]);
}

#[test]
fn resources_lie_one_after_another() {
    let (_, plan) = small_plan(1764);
    assert_eq!(
        plan.assignments(),
        &vec![(1, 208), (1, 808), (1, 908), (1, 0), (1, 1408), (2, 208)]
    );
}

#[test]
fn part_names() {
    let (_, plan) = small_plan(1400);
    assert_eq!(plan.part_filename(1), "install.swm");
    assert_eq!(plan.part_filename(2), "install2.swm");
    assert_eq!(plan.part_filename(17), "install17.swm");
}

#[test]
fn parts_hold_all_resources() {
    let (file, plan) = small_plan(1400);
    for part in 1..=plan.total_parts() {
        let mut data = Vec::new();
        let mut progress = Vec::new();
        write_part(&plan, part, &file, &mut data, &mut progress).unwrap();
        let size = plan.part_resources_size(part);
        let n = plan.parts()[part as usize - 1].len();
        assert_eq!(data.len(), 208 + size as usize + 50 * n + 6);
        // It is marked as one of several parts, and has no integrity table.
        assert_eq!(u32::from_le_bytes(data[16..20].try_into().unwrap()), 0x2008A);
        assert_eq!(u16_at(&data, 40), part);
        assert_eq!(u16_at(&data, 42), 3);
        assert_eq!(&data[124..148], &[0; 24]);
        let table = u64_at(&data, 56) as usize;
        assert_eq!(data[55], 2);
        for (k, &i) in plan.parts()[part as usize - 1].iter().enumerate() {
            let e = &plan.entries()[i];
            let (p, at) = plan.assignments()[i];
            assert_eq!(p, part);
            let from = e.source_offset as usize;
            let len = e.compressed_size as usize;
            assert_eq!(&data[at as usize..at as usize + len], &file[from..from + len]);
            let back = LookupEntry::parse(&data[table + 50 * k..]);
            assert_eq!(back.source_offset, at);
            assert_eq!(back.compressed_size, e.compressed_size);
            assert_eq!(back.original_size, e.original_size);
            assert_eq!(back.flags, e.flags);
            assert_eq!(back.ref_count, e.ref_count);
            assert_eq!(back.sha1, e.sha1);
        }
        let xml = u64_at(&data, 80) as usize;
        assert_eq!(&data[xml..], b"<XML/>");
        assert_eq!(progress.last(), Some(&(size, size)));
    }
}

#[test]
fn boot_metadata_is_told_where_it_lies() {
    let (_, plan) = small_plan(1400);
    let first = part_layout(&plan, 1);
    assert_eq!(u64_at(&first.header, 104), 208 + 600 + 100);
    assert_eq!(u64_at(&first.header, 96) & 0x00FF_FFFF_FFFF_FFFF, 50);
    let second = part_layout(&plan, 2);
    assert_eq!(&second.header[96..120], &[0; 24]);
    assert_eq!(second.copies, vec![(908, 500, 500)]);
    assert_eq!(second.resources_size, 500);
    assert_eq!(second.tail.len(), 56);
}

#[test]
fn what_fits_in_one_part_is_not_split() {
    let file = wim(&[resource(METADATA, 1, 10), resource(0, 2, 20)], b"x", None);
    let e = plan_split(&file, 0).err().unwrap();
    assert_eq!(e.message(), "WIM does not need splitting (fits in one part)");
}

#[test]
fn no_wim_is_refused() {
    let mut file = large_wim();
    file[0] = b'X';
    let e = plan_split(&file, 0).err().unwrap();
    assert_eq!(e.message(), "Not a valid WIM file");
    assert!(WimHeader::parse(&file).is_err());
}

#[test]
fn truncated_wim_is_refused() {
    let file = large_wim();
    for n in [0, 100, 207, 208, 1500, file.len() - 1] {
        let e = plan_split(&file[..n], 0).err().unwrap();
        assert_eq!(e.message(), "I/O error: failed to fill whole buffer");
    }
}

#[test]
fn truncated_resource_stops_the_writing() {
    let (file, plan) = small_plan(1400);
    let mut data = Vec::new();
    let mut progress = Vec::new();
    let r = write_part(&plan, 1, &file[..700], &mut data, &mut progress);
    assert!(r.is_err());
    // The header and the first resource.
    assert_eq!(data.len(), 208);
    assert!(progress.is_empty());
}

#[test]
fn planning_from_pieces() {
    let (file, plan) = small_plan(1400);
    let header = WimHeader::parse(&file[..208]).unwrap();
    let at = header.lookup_table_offset() as usize;
    let n = header.lookup_table_size() as usize;
    let table = &file[at..at + n];
    assert!(check_sizes(table, 6, 1400));
    let again = plan_parts(header, table, b"<XML/>".to_vec(), 1400).unwrap();
    assert_eq!(again.parts(), plan.parts());
    assert_eq!(again.assignments(), plan.assignments());
}

#[test]
fn lookup_entries_read_back() {
    let e = LookupEntry {
        compressed_size: 0x0012_3456_789A_BCDE,
        source_offset: 77,
        original_size: u64::MAX,
        flags: 0x86,
        ref_count: 9,
        sha1: vec![7; 20],
    };
    assert!(e.is_metadata());
    let bytes = e.serialize(3, 0x1122_3344_5566);
    assert_eq!(bytes.len(), 50);
    assert_eq!(bytes[7], 0x86);
    assert_eq!(u16_at(&bytes, 24), 3);
    let back = LookupEntry::parse(&bytes);
    assert_eq!(back.compressed_size, e.compressed_size);
    assert_eq!(back.source_offset, 0x1122_3344_5566);
    assert_eq!(back.original_size, e.original_size);
    assert_eq!(back.flags, 0x86);
    assert_eq!(back.ref_count, 9);
    assert_eq!(back.sha1, vec![7; 20]);
}

#[test]
fn wim_can_be_read_from_the_middle() {
    let img = iso_with_wim(&large_wim());
    let iso = IsoReader::open(&img).unwrap();
    let entries = iso.list_files().unwrap();
    let entry = entries.iter().find(|e| !e.is_dir).unwrap();
    let mut reader = IsoFileReader::new(&iso, entry);
    assert_eq!(reader.seek(SeekTo::Start(208)).unwrap(), 208);
    let mut buf = vec![0u8; 3];
    assert_eq!(reader.read(&mut buf).unwrap(), 3);
    assert_eq!(buf, vec![0x11; 3]);
    assert_eq!(reader.position(), 211);
}
