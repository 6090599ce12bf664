//! A GUID partition table with one EFI system partition.

use crate::bytes;
use crate::disk::crc;
use vstd::prelude::*;

verus! {

/// The size of a sector of a drive.
pub const SECTOR_SIZE: u64 = 512;

/// The sector where the partition begins: one mebibyte into the drive.
pub const PARTITION_START_LBA: u64 = 2048;

/// How many sectors the array of partition entries takes.
pub const ENTRY_ARRAY_SECTORS: u64 = 32;

/// The least number of sectors of a drive that the table and a partition fit on.
pub const MIN_SECTORS: u64 = 2082;

/// The type of an EFI system partition, C12A7328-F81F-11D2-BA4B-00A0C93EC93B, with its first
/// three fields low byte first.
pub open spec fn efi_type() -> Seq<u8> {
    seq![
        0x28, 0x73, 0x2A, 0xC1, 0x1F, 0xF8, 0xD2, 0x11, 0xBA, 0x4B, 0x00, 0xA0, 0xC9, 0x3E, 0xC9,
        0x3B,
    ]
}

/// ASCII text in UTF-16, low byte first.
pub open spec fn wide(s: Seq<char>) -> Seq<u8> {
    Seq::new(
        2 * s.len(),
        |i: int|
            if i % 2 == 0 {
                s[i / 2] as u8
            } else {
                0
            },
    )
}

/// The entry of the partition from sector `first` to sector `last`.
pub open spec fn partition_entry(guid: Seq<u8>, first: u64, last: u64) -> Seq<u8> {
    efi_type() + guid + bytes::u64_le(first) + bytes::u64_le(last) + bytes::zeros(8) + wide(
        "EFI System Partition"@,
    ) + bytes::zeros(32)
}

/// The array of partition entries, of which only the first is used.
#[verifier::opaque]
pub open spec fn entry_array(guid: Seq<u8>, first: u64, last: u64) -> Seq<u8> {
    partition_entry(guid, first, last) + bytes::zeros(16256)
}

/// What a header says.
pub struct HeaderFields {
    /// The sector of the header.
    pub my_lba: u64,
    /// The sector of the other header.
    pub alt_lba: u64,
    /// The last sector that a partition may use.
    pub last_usable: u64,
    /// The identifier of the drive.
    pub disk_guid: Seq<u8>,
    /// Where the array of partition entries begins.
    pub entry_start: u64,
    /// The checksum of the array of partition entries.
    pub entries_crc: u32,
}

/// The 92 bytes of a header with this checksum.
#[verifier::opaque]
pub open spec fn header_bytes(f: HeaderFields, checksum: u32) -> Seq<u8> {
    seq![0x45u8, 0x46, 0x49, 0x20, 0x50, 0x41, 0x52, 0x54] + seq![0u8, 0, 1, 0] + bytes::u32_le(92)
        + bytes::u32_le(checksum) + bytes::zeros(4) + bytes::u64_le(f.my_lba) + bytes::u64_le(
        f.alt_lba,
    ) + bytes::u64_le(34) + bytes::u64_le(f.last_usable) + f.disk_guid + bytes::u64_le(
        f.entry_start,
    ) + bytes::u32_le(128) + bytes::u32_le(128) + bytes::u32_le(f.entries_crc)
}

/// The sector of a header: its checksum is that of its 92 bytes with a checksum of zero.
#[verifier::opaque]
pub open spec fn header_sector(f: HeaderFields) -> Seq<u8> {
    header_bytes(f, crc::crc_of(header_bytes(f, 0))) + bytes::zeros(420)
}

/// The number of sectors that the protective partition covers.
pub open spec fn protected_sectors(total_lbas: u64) -> u32 {
    if total_lbas - 1 < 0xFFFF_FFFF {
        (total_lbas - 1) as u32
    } else {
        0xFFFF_FFFF
    }
}

/// The first sector of a drive with a GUID partition table.
#[verifier::opaque]
pub open spec fn protective_mbr(total_lbas: u64) -> Seq<u8> {
    bytes::zeros(446) + seq![0u8, 0, 2, 0, 0xEE, 0xFF, 0xFF, 0xFF] + bytes::u32_le(1)
        + bytes::u32_le(protected_sectors(total_lbas)) + bytes::zeros(48) + seq![0x55u8, 0xAA]
}

/// What the first of the two headers says.
pub open spec fn primary_fields(
    total_lbas: u64,
    disk_guid: Seq<u8>,
    partition_guid: Seq<u8>,
) -> HeaderFields {
    HeaderFields {
        my_lba: 1,
        alt_lba: (total_lbas - 1) as u64,
        last_usable: (total_lbas - 34) as u64,
        disk_guid,
        entry_start: 2,
        entries_crc: crc::crc_of(
            entry_array(partition_guid, PARTITION_START_LBA, (total_lbas - 34) as u64),
        ),
    }
}

/// What the second of the two headers says.
pub open spec fn backup_fields(
    total_lbas: u64,
    disk_guid: Seq<u8>,
    partition_guid: Seq<u8>,
) -> HeaderFields {
    HeaderFields {
        my_lba: (total_lbas - 1) as u64,
        alt_lba: 1,
        entry_start: (total_lbas - 33) as u64,
        ..primary_fields(total_lbas, disk_guid, partition_guid)
    }
}

/// What is written onto a drive of `total_lbas` sectors, in order: where, and which bytes.
pub open spec fn gpt_writes(
    total_lbas: u64,
    disk_guid: Seq<u8>,
    partition_guid: Seq<u8>,
) -> Seq<(u64, Seq<u8>)> {
    let array = entry_array(partition_guid, PARTITION_START_LBA, (total_lbas - 34) as u64);
    seq![
        (0u64, protective_mbr(total_lbas)),
        (512u64, header_sector(primary_fields(total_lbas, disk_guid, partition_guid))),
        (1024u64, array),
        (((total_lbas - 33) * 512) as u64, array),
        (
            ((total_lbas - 1) * 512) as u64,
            header_sector(backup_fields(total_lbas, disk_guid, partition_guid)),
        ),
    ]
}

/// The type of an EFI system partition.
fn efi_type_bytes() -> (r: Vec<u8>)
    ensures
        r@ == efi_type(),
{
    let r: Vec<u8> = vec![
        0x28, 0x73, 0x2A, 0xC1, 0x1F, 0xF8, 0xD2, 0x11, 0xBA, 0x4B, 0x00, 0xA0, 0xC9, 0x3E, 0xC9,
        0x3B,
    ];
    assert(r@ =~= efi_type());
    r
}

/// Appends zeros.
fn append_zeros(buf: &mut Vec<u8>, n: usize)
    ensures
        final(buf)@ == old(buf)@ + bytes::zeros(n as nat),
{
    let z = bytes::zero_vec(n);
    bytes::push_all(buf, &z);
}

/// Appends ASCII text in UTF-16, low byte first.
fn append_wide(buf: &mut Vec<u8>, s: &str)
    requires
        forall|i: int| 0 <= i < s@.len() ==> (#[trigger] s@[i] as u32) < 128,
    ensures
        final(buf)@ == old(buf)@ + wide(s@),
{
    let c = crate::text::chars_of(s);
    let n: usize = c.len();
    let ghost start = buf@;
    let mut i: usize = 0;
    while i < n
        invariant
            i <= n,
            c@ == s@,
            n == c@.len(),
            buf@.len() == start.len() + 2 * i,
            forall|k: int| 0 <= k < start.len() ==> buf@[k] == start[k],
            forall|k: int| 0 <= k < 2 * i ==> #[trigger] buf@[start.len() + k] == wide(s@)[k],
        decreases n - i,
    {
        let ghost before = buf@;
        buf.push(c[i] as u8);
        buf.push(0);
        assert forall|k: int| 0 <= k < 2 * (i + 1) implies #[trigger] buf@[start.len() + k] == wide(
            s@,
        )[k] by {
            if k < 2 * i {
                assert(before[start.len() + k] == wide(s@)[k]);
            } else if k == 2 * i {
                assert(k / 2 == i);
            }
        }
        i += 1;
    }
    assert(buf@ =~= start + wide(s@)) by {
        assert forall|k: int| 0 <= k < buf@.len() implies buf@[k] == (start + wide(s@))[k] by {
            if k >= start.len() {
                assert(buf@[start.len() + (k - start.len())] == wide(s@)[k - start.len()]);
            }
        }
    }
}

/// The array of partition entries.
fn build_entry_array(guid: &Vec<u8>, first: u64, last: u64) -> (r: Vec<u8>)
    ensures
        r@ == entry_array(guid@, first, last),
{
    proof {
        reveal(entry_array);
    }
    let mut r = efi_type_bytes();
    bytes::push_all(&mut r, guid);
    bytes::append_u64_le(&mut r, first);
    bytes::append_u64_le(&mut r, last);
    append_zeros(&mut r, 8);
    proof {
        reveal_strlit("EFI System Partition");
    }
    append_wide(&mut r, "EFI System Partition");
    append_zeros(&mut r, 32);
    append_zeros(&mut r, 16256);
    r
}

/// The 92 bytes of a header with this checksum.
fn build_header_bytes(
    my_lba: u64,
    alt_lba: u64,
    last_usable: u64,
    disk_guid: &Vec<u8>,
    entry_start: u64,
    entries_crc: u32,
    checksum: u32,
) -> (r: Vec<u8>)
    ensures
        r@ == header_bytes(
            HeaderFields {
                my_lba,
                alt_lba,
                last_usable,
                disk_guid: disk_guid@,
                entry_start,
                entries_crc,
            },
            checksum,
        ),
{
    proof {
        reveal(header_bytes);
    }
    let mut r: Vec<u8> = vec![0x45, 0x46, 0x49, 0x20, 0x50, 0x41, 0x52, 0x54];
    let revision: Vec<u8> = vec![0, 0, 1, 0];
    assert(r@ =~= seq![0x45u8, 0x46, 0x49, 0x20, 0x50, 0x41, 0x52, 0x54]);
    assert(revision@ =~= seq![0u8, 0, 1, 0]);
    bytes::push_all(&mut r, &revision);
    bytes::append_u32_le(&mut r, 92);
    bytes::append_u32_le(&mut r, checksum);
    append_zeros(&mut r, 4);
    bytes::append_u64_le(&mut r, my_lba);
    bytes::append_u64_le(&mut r, alt_lba);
    bytes::append_u64_le(&mut r, 2 + ENTRY_ARRAY_SECTORS);
    bytes::append_u64_le(&mut r, last_usable);
    bytes::push_all(&mut r, disk_guid);
    bytes::append_u64_le(&mut r, entry_start);
    bytes::append_u32_le(&mut r, 128);
    bytes::append_u32_le(&mut r, 128);
    bytes::append_u32_le(&mut r, entries_crc);
    r
}

/// The sector of a header.
fn build_header(
    my_lba: u64,
    alt_lba: u64,
    last_usable: u64,
    disk_guid: &Vec<u8>,
    entry_start: u64,
    entries_crc: u32,
) -> (r: Vec<u8>)
    ensures
        r@ == header_sector(
            HeaderFields {
                my_lba,
                alt_lba,
                last_usable,
                disk_guid: disk_guid@,
                entry_start,
                entries_crc,
            },
        ),
{
    proof {
        reveal(header_sector);
    }
    let blank = build_header_bytes(
        my_lba,
        alt_lba,
        last_usable,
        disk_guid,
        entry_start,
        entries_crc,
        0,
    );
    let checksum = crc::crc32(&blank);
    let mut r = build_header_bytes(
        my_lba,
        alt_lba,
        last_usable,
        disk_guid,
        entry_start,
        entries_crc,
        checksum,
    );
    append_zeros(&mut r, 420);
    r
}

/// The first sector of a drive with a GUID partition table.
pub fn build_protective_mbr(total_lbas: u64) -> (r: Vec<u8>)
    requires
        total_lbas >= 1,
    ensures
        r@ == protective_mbr(total_lbas),
{
    proof {
        reveal(protective_mbr);
    }
    let mut r = bytes::zero_vec(446);
    let entry: Vec<u8> = vec![0, 0, 2, 0, 0xEE, 0xFF, 0xFF, 0xFF];
    assert(entry@ =~= seq![0u8, 0, 2, 0, 0xEE, 0xFF, 0xFF, 0xFF]);
    bytes::push_all(&mut r, &entry);
    let one = bytes::u32_bytes(1);
    bytes::push_all(&mut r, &one);
    let sectors: u32 = if total_lbas - 1 < 0xFFFF_FFFF {
        (total_lbas - 1) as u32
    } else {
        0xFFFF_FFFF
    };
    let count = bytes::u32_bytes(sectors);
    bytes::push_all(&mut r, &count);
    append_zeros(&mut r, 48);
    let signature: Vec<u8> = vec![0x55, 0xAA];
    assert(signature@ =~= seq![0x55u8, 0xAA]);
    bytes::push_all(&mut r, &signature);
    r
}

/// The writes of a list.
pub open spec fn write_views(v: Seq<(u64, Vec<u8>)>) -> Seq<(u64, Seq<u8>)> {
    v.map_values(|x: (u64, Vec<u8>)| (x.0, x.1@))
}

/// What is written onto a drive of `total_lbas` sectors, in order.
pub fn build_gpt(total_lbas: u64, disk_guid: &Vec<u8>, partition_guid: &Vec<u8>) -> (r: Vec<
    (u64, Vec<u8>),
>)
    requires
        MIN_SECTORS <= total_lbas <= u64::MAX / 512,
    ensures
        write_views(r@) == gpt_writes(total_lbas, disk_guid@, partition_guid@),
{
    let last_usable: u64 = total_lbas - 1 - ENTRY_ARRAY_SECTORS - 1;
    let array = build_entry_array(partition_guid, PARTITION_START_LBA, last_usable);
    let entries_crc = crc::crc32(&array);
    let backup_start: u64 = total_lbas - 1 - ENTRY_ARRAY_SECTORS;
    let primary = build_header(1, total_lbas - 1, last_usable, disk_guid, 2, entries_crc);
    let backup = build_header(
        total_lbas - 1,
        1,
        last_usable,
        disk_guid,
        backup_start,
        entries_crc,
    );
    let n: usize = array.len();
    let again = bytes::slice_vec(&array, 0, n);
    assert(again@ =~= array@);
    let mut r: Vec<(u64, Vec<u8>)> = Vec::new();
    r.push((0, build_protective_mbr(total_lbas)));
    r.push((SECTOR_SIZE, primary));
    r.push((2 * SECTOR_SIZE, array));
    r.push((backup_start * SECTOR_SIZE, again));
    r.push(((total_lbas - 1) * SECTOR_SIZE, backup));
    assert(write_views(r@) =~= gpt_writes(total_lbas, disk_guid@, partition_guid@));
    r
}

} // verus!
