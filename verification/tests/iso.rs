use winiso::iso::entry::IsoEntry;
use winiso::iso::iso9660::read_directory;
use winiso::iso::names::{
    decode_plain, decode_ucs2_be, decode_udf_name, from_utf16_lossy, join_path, strip_version,
};
use winiso::iso::reader::{
    any_oversized_wim, check_place, oversized_wim, plan_read, seek_target, IsoFileReader,
    IsoReader, SeekTo, FAT32_MAX_FILE_SIZE,
};
use winiso::iso::udf::parse_short_ads;
use winiso::iso::volume::{detect, IsoFormat, Probe, ProbeOutcome};
use winiso::iso::walk::{list_image, list_image_within, Supplied, Walker};

const SECTOR: usize = 2048;

fn put(buf: &mut [u8], at: usize, bytes: &[u8]) {
    buf[at..at + bytes.len()].copy_from_slice(bytes);
}

fn record(lba: u32, len: u32, flags: u8, name: &[u8]) -> Vec<u8> {
    let mut size = 33 + name.len();
    size += size % 2;
    let mut r = vec![0u8; size];
    r[0] = size as u8;
    put(&mut r, 2, &lba.to_le_bytes());
    put(&mut r, 10, &len.to_le_bytes());
    r[25] = flags;
    r[32] = name.len() as u8;
    put(&mut r, 33, name);
    r
}

fn ucs2(s: &str) -> Vec<u8> {
    s.encode_utf16().flat_map(|u| u.to_be_bytes()).collect()
}

fn records(parts: &[Vec<u8>]) -> Vec<u8> {
    parts.iter().flatten().copied().collect()
}

fn descriptor(img: &mut [u8], sector: usize, kind: u8, root: (u32, u32)) {
    let at = sector * SECTOR;
    img[at] = kind;
    put(img, at + 1, b"CD001");
    let r = record(root.0, root.1, 2, &[0]);
    put(img, at + 156, &r);
}

/// An image with `a.txt` and `dir/b.txt`, with plain names and with Joliet names.
fn plain_image() -> Vec<u8> {
    let mut img = vec![0u8; 40 * SECTOR];
    descriptor(&mut img, 16, 1, (20, SECTOR as u32));
    descriptor(&mut img, 17, 255, (0, 0));
    let root = records(&[
        record(20, SECTOR as u32, 2, &[0]),
        record(20, SECTOR as u32, 2, &[1]),
        record(21, SECTOR as u32, 2, b"DIR"),
        record(30, 5, 0, b"A.TXT;1"),
    ]);
    put(&mut img, 20 * SECTOR, &root);
    let dir = records(&[record(31, 3000, 0, b"B.TXT;1")]);
    put(&mut img, 21 * SECTOR, &dir);
    put(&mut img, 30 * SECTOR, b"hello");
    for i in 0..3000 {
        img[31 * SECTOR + i] = (i % 251) as u8;
    }
    img
}

fn joliet_image() -> Vec<u8> {
    let mut img = plain_image();
    descriptor(&mut img, 17, 2, (22, SECTOR as u32));
    put(&mut img, 17 * SECTOR + 88, b"%/E");
    descriptor(&mut img, 18, 255, (0, 0));
    let root = records(&[
        record(22, SECTOR as u32, 2, &[0]),
        record(22, SECTOR as u32, 2, &[1]),
        record(30, 5, 0, &ucs2("a größe.txt;1")),
        record(23, SECTOR as u32, 2, &ucs2("dir")),
    ]);
    put(&mut img, 22 * SECTOR, &root);
    let dir = records(&[record(31, 3000, 0, &ucs2("b.txt;1"))]);
    put(&mut img, 23 * SECTOR, &dir);
    img
}

fn fid(tag: u16, flags: u8, lba: u32, name: &[u8]) -> Vec<u8> {
    let size = (38 + name.len() + 3) / 4 * 4;
    let mut r = vec![0u8; size];
    put(&mut r, 0, &tag.to_le_bytes());
    r[18] = flags;
    r[19] = name.len() as u8;
    put(&mut r, 24, &lba.to_le_bytes());
    put(&mut r, 38, name);
    r
}

fn file_entry(img: &mut [u8], sector: usize, size: u64, ads: &[(u32, u32)]) {
    let at = sector * SECTOR;
    put(img, at, &261u16.to_le_bytes());
    put(img, at + 56, &size.to_le_bytes());
    put(img, at + 172, &(ads.len() as u32 * 8).to_le_bytes());
    for (i, &(pos, len)) in ads.iter().enumerate() {
        put(img, at + 176 + 8 * i, &len.to_le_bytes());
        put(img, at + 180 + 8 * i, &pos.to_le_bytes());
    }
}

/// A UDF image whose partition begins at sector 258, with `sources/big.bin` in two extents.
fn udf_image() -> Vec<u8> {
    let mut img = vec![0u8; 290 * SECTOR];
    put(&mut img, 256 * SECTOR, &2u16.to_le_bytes());
    put(&mut img, 256 * SECTOR + 16, &(4 * SECTOR as u32).to_le_bytes());
    put(&mut img, 256 * SECTOR + 20, &32u32.to_le_bytes());
    put(&mut img, 32 * SECTOR, &1u16.to_le_bytes());
    put(&mut img, 33 * SECTOR, &5u16.to_le_bytes());
    put(&mut img, 33 * SECTOR + 188, &258u32.to_le_bytes());
    put(&mut img, 34 * SECTOR, &6u16.to_le_bytes());
    put(&mut img, 34 * SECTOR + 252, &1u32.to_le_bytes());
    put(&mut img, 35 * SECTOR, &8u16.to_le_bytes());
    put(&mut img, 259 * SECTOR, &256u16.to_le_bytes());
    put(&mut img, 259 * SECTOR + 404, &2u32.to_le_bytes());
    let root = records(&[
        fid(257, 0x0A, 2, &[]),
        fid(257, 0x02, 5, b"\x08sources"),
        fid(257, 0x00, 7, b"\x10\x00r\x00e\x00a\x00d\x20\xac"),
    ]);
    file_entry(&mut img, 260, root.len() as u64, &[(4, root.len() as u32)]);
    put(&mut img, 262 * SECTOR, &root);
    let dir = records(&[fid(257, 0x00, 6, b"\x08big.bin"), fid(0, 0, 0, &[])]);
    file_entry(&mut img, 263, dir.len() as u64, &[(9, dir.len() as u32)]);
    put(&mut img, 267 * SECTOR, &dir);
    file_entry(&mut img, 264, 3000, &[(12, 2048), (15, 952)]);
    file_entry(&mut img, 265, 4, &[(20, 4)]);
    for i in 0..2048 {
        img[270 * SECTOR + i] = (i % 7) as u8;
    }
    for i in 0..952 {
        img[273 * SECTOR + i] = 100 + (i % 9) as u8;
    }
    put(&mut img, 278 * SECTOR, b"text");
    img
}

fn paths(entries: &[IsoEntry]) -> Vec<&str> {
    entries.iter().map(|e| e.path.as_str()).collect()
}

#[test]
fn test_read_real_iso() {
    let img = udf_image();
    let reader = IsoReader::open(&img).expect("Failed to open ISO");
    let entries = reader.list_files().expect("Failed to list files");
    assert!(!entries.is_empty(), "ISO should have files");
    let format = match reader.format() {
        IsoFormat::Udf { .. } => "UDF",
        IsoFormat::Iso9660 { joliet, .. } => {
            if joliet {
                "ISO9660+Joliet"
            } else {
                "ISO9660"
            }
        }
    };
    assert_eq!(format, "UDF");
    let total: u64 = entries.iter().map(|e| e.size).sum();
    assert_eq!(total, 3004);
    let has_big_wim = reader.has_oversized_wim().expect("wim check");
    assert!(!has_big_wim);
}

#[test]
fn formats_are_told_apart() {
    assert_eq!(
        detect(&plain_image()).unwrap(),
        IsoFormat::Iso9660 { root_extent_lba: 20, root_extent_len: 2048, joliet: false }
    );
    assert_eq!(
        detect(&joliet_image()).unwrap(),
        IsoFormat::Iso9660 { root_extent_lba: 22, root_extent_len: 2048, joliet: true }
    );
    assert_eq!(
        detect(&udf_image()).unwrap(),
        IsoFormat::Udf { partition_start: 258, root_icb_lba: 2 }
    );
}

#[test]
fn other_supplementary_descriptors_are_passed_over() {
    let mut img = joliet_image();
    put(&mut img, 17 * SECTOR + 88, b"%/X");
    assert_eq!(
        detect(&img).unwrap(),
        IsoFormat::Iso9660 { root_extent_lba: 20, root_extent_len: 2048, joliet: false }
    );
}

#[test]
fn udf_without_a_partition_falls_back() {
    let mut img = udf_image();
    put(&mut img, 33 * SECTOR, &9u16.to_le_bytes());
    descriptor(&mut img, 16, 1, (20, 2048));
    assert_eq!(
        detect(&img).unwrap(),
        IsoFormat::Iso9660 { root_extent_lba: 20, root_extent_len: 2048, joliet: false }
    );
}

#[test]
fn no_file_system_is_refused() {
    let img = vec![0u8; 300 * SECTOR];
    assert_eq!(detect(&img).err().unwrap().message(), "No volume descriptor found in ISO");
    let short = vec![0u8; 16 * SECTOR + 5];
    assert_eq!(
        detect(&short).err().unwrap().message(),
        "I/O error: failed to fill whole buffer"
    );
}

#[test]
fn probing_by_sectors_finds_the_same() {
    for img in [plain_image(), joliet_image(), udf_image()] {
        let mut probe = Probe::start(img.len() as u64);
        let found = loop {
            let at = probe.sector() as usize * SECTOR;
            match probe.advance(&img[at..at + SECTOR]) {
                ProbeOutcome::Continue(p) => probe = p,
                ProbeOutcome::Found(f) => break f,
                ProbeOutcome::Failed(e) => panic!("{}", e.message()),
            }
        };
        assert_eq!(found, detect(&img).unwrap());
    }
}

#[test]
fn plain_files_are_listed() {
    let img = plain_image();
    let entries = IsoReader::open(&img).unwrap().list_files().unwrap();
    assert_eq!(paths(&entries), vec!["DIR", "A.TXT", "DIR/B.TXT"]);
    assert!(entries[0].is_dir);
    assert_eq!(entries[0].size, 0);
    assert_eq!(entries[0].data_length, 2048);
    assert_eq!(entries[1].size, 5);
    assert_eq!(entries[2].extent_lba, 31);
}

#[test]
fn joliet_files_are_listed() {
    let img = joliet_image();
    let entries = IsoReader::open(&img).unwrap().list_files().unwrap();
    assert_eq!(paths(&entries), vec!["a größe.txt", "dir", "dir/b.txt"]);
}

#[test]
fn udf_files_are_listed() {
    let img = udf_image();
    let entries = IsoReader::open(&img).unwrap().list_files().unwrap();
    assert_eq!(paths(&entries), vec!["sources", "read€", "sources/big.bin"]);
    assert_eq!(entries[2].alloc_descs, vec![(12, 2048), (15, 952)]);
    assert_eq!(entries[2].extent_lba, 12);
}

#[test]
fn walking_by_reads_lists_the_same() {
    for img in [plain_image(), joliet_image(), udf_image()] {
        let format = detect(&img).unwrap();
        let mut walker = Walker::new(format);
        while let Some((at, n)) = walker.next_read() {
            let piece = &img[at as usize..(at + n) as usize];
            match walker.supply(piece) {
                Supplied::Continue => {}
                Supplied::Failed(e) => panic!("{}", e.message()),
                Supplied::Malformed => panic!("malformed"),
            }
        }
        let walked = walker.into_entries();
        let listed = list_image(&img, format).unwrap();
        assert_eq!(paths(&walked), paths(&listed));
    }
}

#[test]
fn listing_within_a_limit() {
    let img = plain_image();
    let format = detect(&img).unwrap();
    assert!(list_image_within(&img, format, 0).is_none());
    assert!(list_image_within(&img, format, 1).is_none());
    let listed = list_image_within(&img, format, 2).unwrap().unwrap();
    assert_eq!(paths(&listed), vec!["DIR", "A.TXT", "DIR/B.TXT"]);
    // A directory that holds itself has no end.
    let mut img = plain_image();
    let dir = records(&[record(21, SECTOR as u32, 2, b"AGAIN")]);
    put(&mut img, 21 * SECTOR, &dir);
    assert!(list_image_within(&img, format, 1000).is_none());
    // A record that is too short for its fields.
    img[21 * SECTOR] = 20;
    assert!(list_image_within(&img, format, 1000).is_none());
}

#[test]
fn udf_directory_needs_a_file_entry() {
    let mut img = udf_image();
    put(&mut img, 260 * SECTOR, &262u16.to_le_bytes());
    let e = IsoReader::open(&img).unwrap().list_files().err().unwrap();
    assert_eq!(e.message(), "Expected File Entry (261) at LBA 260, got 262");
}

#[test]
fn truncated_directory_is_refused() {
    let mut img = plain_image();
    descriptor(&mut img, 16, 1, (39, 4096));
    let e = IsoReader::open(&img).unwrap().list_files().err().unwrap();
    assert_eq!(e.message(), "I/O error: failed to fill whole buffer");
}

#[test]
fn directory_records_are_checked() {
    let mut entries: Vec<IsoEntry> = Vec::new();
    let data = records(&[record(1, 2, 0, b"X")]);
    assert!(read_directory(&data, false, "p", &mut entries));
    assert_eq!(paths(&entries), vec!["p/X"]);
    // A record that is too short for its fields.
    let mut bad = vec![0u8; 64];
    bad[0] = 20;
    assert!(!read_directory(&bad, false, "", &mut entries));
    // One that runs over the end of the directory ends it.
    let mut cut = record(1, 2, 0, b"YY");
    cut.truncate(30);
    assert!(read_directory(&cut, false, "", &mut entries));
    assert_eq!(entries.len(), 1);
    // A zero byte goes to the next sector.
    let mut far = vec![0u8; 2048];
    far.extend_from_slice(&record(5, 6, 0, b"Z;2"));
    assert!(read_directory(&far, false, "", &mut entries));
    assert_eq!(entries[1].path, "Z");
}

#[test]
fn files_are_copied() {
    for img in [plain_image(), joliet_image()] {
        let iso = IsoReader::open(&img).unwrap();
        let entries = iso.list_files().unwrap();
        let b = entries.iter().find(|e| e.size == 3000).unwrap();
        let mut out = Vec::new();
        assert_eq!(iso.copy_file_to(b, &mut out).unwrap(), 3000);
        assert_eq!(out, img[31 * SECTOR..31 * SECTOR + 3000].to_vec());
    }
}

#[test]
fn extents_are_joined() {
    let img = udf_image();
    let iso = IsoReader::open(&img).unwrap();
    let entries = iso.list_files().unwrap();
    let big = entries.iter().find(|e| e.path == "sources/big.bin").unwrap();
    let mut out = Vec::new();
    assert_eq!(iso.copy_file_to(big, &mut out).unwrap(), 3000);
    let mut expected = img[270 * SECTOR..271 * SECTOR].to_vec();
    expected.extend_from_slice(&img[273 * SECTOR..273 * SECTOR + 952]);
    assert_eq!(out, expected);
    // Reading from any place gives the same bytes.
    for (offset, want) in [(0u64, 10usize), (2000, 100), (2048, 5), (2990, 100), (3000, 4)] {
        let mut buf = vec![0u8; want];
        let n = iso.read_file_at(big, offset, &mut buf).unwrap();
        assert_eq!(n, want.min(3000 - offset as usize));
        assert_eq!(&buf[..n], &expected[offset as usize..offset as usize + n]);
    }
    assert!(check_place(iso.format(), big, 2000));
    assert_eq!(
        plan_read(iso.format(), big, 2000, 100),
        vec![(270 * 2048 + 2000, 48), (273 * 2048, 52)]
    );
}

#[test]
fn a_file_can_be_sought_in() {
    let img = udf_image();
    let iso = IsoReader::open(&img).unwrap();
    let entries = iso.list_files().unwrap();
    let text = entries.iter().find(|e| e.path == "read€").unwrap();
    let mut r = IsoFileReader::new(&iso, text);
    let mut buf = vec![0u8; 10];
    assert_eq!(r.read(&mut buf).unwrap(), 4);
    assert_eq!(&buf[..4], b"text");
    assert_eq!(r.read(&mut buf).unwrap(), 0);
    assert_eq!(r.seek(SeekTo::End(-2)).unwrap(), 2);
    assert_eq!(r.read(&mut buf).unwrap(), 2);
    assert_eq!(&buf[..2], b"xt");
    assert_eq!(r.seek(SeekTo::Current(-4)).unwrap(), 0);
    assert_eq!(r.seek(SeekTo::Start(9)).unwrap(), 9);
    assert_eq!(r.read(&mut buf).unwrap(), 0);
    assert_eq!(
        seek_target(3, 4, SeekTo::Current(-4)).err().unwrap().message(),
        "I/O error: seek before start"
    );
}

#[test]
fn oversized_wims_are_found() {
    assert_eq!(FAT32_MAX_FILE_SIZE, 4 * 1024 * 1024 * 1024);
    assert!(oversized_wim("sources/install.wim", FAT32_MAX_FILE_SIZE));
    assert!(!oversized_wim("sources/install.wim", FAT32_MAX_FILE_SIZE - 1));
    assert!(!oversized_wim("sources/install.esd", FAT32_MAX_FILE_SIZE));
    let mut img = udf_image();
    put(&mut img, 263 * SECTOR + 56, &0u64.to_le_bytes());
    let dir = records(&[fid(257, 0, 6, b"\x08Install.WIM")]);
    put(&mut img, 263 * SECTOR + 176, &(dir.len() as u32).to_le_bytes());
    put(&mut img, 267 * SECTOR, &dir);
    put(&mut img, 264 * SECTOR + 56, &FAT32_MAX_FILE_SIZE.to_le_bytes());
    let iso = IsoReader::open(&img).unwrap();
    assert!(iso.has_oversized_wim().unwrap());
    assert!(any_oversized_wim(&iso.list_files().unwrap()));
}

#[test]
fn allocation_descriptors() {
    let mut fe = vec![0u8; 2048];
    file_entry(&mut fe, 0, 0, &[(7, 0x4000_0010), (8, 0), (9, 16), (10, 0x8000_0010)]);
    assert_eq!(parse_short_ads(&fe), vec![(9, 16)]);
    // Extended attributes come before them.
    put(&mut fe, 168, &16u32.to_le_bytes());
    put(&mut fe, 172, &8u32.to_le_bytes());
    assert_eq!(parse_short_ads(&fe), vec![(9, 16)]);
    // Long descriptors, or data in place.
    fe[34] = 1;
    assert_eq!(parse_short_ads(&fe), vec![]);
}

#[test]
fn names_are_decoded() {
    assert_eq!(decode_ucs2_be(&ucs2("Grün;1")), "Grün");
    assert_eq!(decode_ucs2_be(&[0xd8, 0x3d, 0xde, 0x00]), "😀");
    assert_eq!(decode_ucs2_be(&[0xd8, 0x3d, 0x00, 0x41]), "\u{FFFD}A");
    assert_eq!(decode_plain(b"FILE.TXT;1"), "FILE.TXT");
    assert_eq!(decode_plain(b"A\xffB"), "A\u{FFFD}B");
    assert_eq!(decode_udf_name(b"\x08name"), "name");
    assert_eq!(decode_udf_name(&[8, 0x61, 0x3b, 0x31]), "a;1");
    assert_eq!(decode_udf_name(&[16, 0x00, 0x41, 0x30, 0x42]), "A\u{3042}");
    assert_eq!(decode_udf_name(&[16, 0x00, 0x41, 0x42]), "AB");
    assert_eq!(decode_udf_name(b"\x10\x00n\x20\xac"), "n€");
    assert_eq!(decode_udf_name(b"\x10\x00nX"), "nX");
    assert_eq!(decode_udf_name(b"name"), "name");
    assert_eq!(decode_udf_name(b""), "");
    assert_eq!(from_utf16_lossy(&[0x41, 0xdc00, 0x42]), "A\u{FFFD}B");
    assert_eq!(strip_version("a;b;1"), "a;b");
    assert_eq!(strip_version("ab"), "ab");
    assert_eq!(join_path("", "x"), "x");
    assert_eq!(join_path("d", "x"), "d/x");
}
