//! What holds of a partitioned drive as a whole.

use crate::bytes;
use crate::disk::crc;
use crate::disk::gpt;
use crate::disk::mbr;
use crate::disk::partition;
use vstd::prelude::*;

verus! {

/// A drive after something was written onto it.
pub open spec fn after_writes(dev: Seq<u8>, writes: Seq<(u64, Seq<u8>)>) -> Seq<u8>
    decreases writes.len(),
{
    if writes.len() == 0 {
        dev
    } else {
        bytes::overwrite(
            after_writes(dev, writes.drop_last()),
            writes.last().0 as int,
            writes.last().1,
        )
    }
}

/// The byte at `i` is one that is written.
pub open spec fn covers(w: (u64, Seq<u8>), i: int) -> bool {
    w.0 <= i < w.0 + w.1.len()
}

/// No byte is written twice.
pub open spec fn disjoint(writes: Seq<(u64, Seq<u8>)>) -> bool {
    forall|a: int, b: int, i: int|
        0 <= a < b < writes.len() && #[trigger] covers(writes[a], i) ==> !#[trigger] covers(
            writes[b],
            i,
        )
}

/// What is written without overlaps is there afterwards, and all other bytes are as before.
pub proof fn law_writes_stay(dev: Seq<u8>, writes: Seq<(u64, Seq<u8>)>)
    requires
        disjoint(writes),
    ensures
        after_writes(dev, writes).len() == dev.len(),
        forall|a: int, i: int|
            0 <= a < writes.len() && 0 <= i < dev.len() && #[trigger] covers(writes[a], i)
                ==> after_writes(dev, writes)[i] == writes[a].1[i - writes[a].0],
        forall|i: int|
            0 <= i < dev.len() && (forall|a: int|
                0 <= a < writes.len() ==> !#[trigger] covers(writes[a], i)) ==> #[trigger] after_writes(
                dev,
                writes,
            )[i] == dev[i],
    decreases writes.len(),
{
    if writes.len() > 0 {
        let w = writes.drop_last();
        let last = writes.len() - 1;
        assert(disjoint(w)) by {
            assert forall|a: int, b: int, i: int|
                0 <= a < b < w.len() && #[trigger] covers(w[a], i) implies !#[trigger] covers(
                w[b],
                i,
            ) by {
                assert(covers(writes[a], i));
                assert(!covers(writes[b], i));
            }
        }
        law_writes_stay(dev, w);
        let x = after_writes(dev, writes);
        assert forall|a: int, i: int|
            0 <= a < writes.len() && 0 <= i < dev.len() && #[trigger] covers(
                writes[a],
                i,
            ) implies x[i] == writes[a].1[i - writes[a].0] by {
            if a < last {
                assert(!covers(writes[last], i));
                assert(covers(w[a], i));
            }
        }
        assert forall|i: int|
            0 <= i < dev.len() && (forall|a: int|
                0 <= a < writes.len() ==> !#[trigger] covers(writes[a], i)) implies #[trigger] x[i]
            == dev[i] by {
            assert(!covers(writes[last], i));
            assert forall|a: int| 0 <= a < w.len() implies !#[trigger] covers(w[a], i) by {
                assert(!covers(writes[a], i));
            }
        }
    }
}

// ---------------------------------------------------------------------------
// GUID partition tables
// ---------------------------------------------------------------------------
/// The lengths of the pieces of a table.
pub proof fn law_gpt_sizes(f: gpt::HeaderFields, total: u64, guid: Seq<u8>, first: u64, last: u64)
    requires
        f.disk_guid.len() == 16,
        guid.len() == 16,
    ensures
        gpt::header_sector(f).len() == 512,
        gpt::entry_array(guid, first, last).len() == 32 * 512,
        gpt::protective_mbr(total).len() == 512,
{
    reveal(gpt::header_sector);
    reveal(gpt::entry_array);
    reveal(gpt::protective_mbr);
    lemma_header_bytes(f, crc::crc_of(gpt::header_bytes(f, 0)));
    reveal_strlit("EFI System Partition");
}

/// Both checksums of a header are right: that of its own 92 bytes, taken with a checksum of zero,
/// and that of the partition entries, which it repeats.
pub proof fn law_gpt_checksums(f: gpt::HeaderFields)
    requires
        f.disk_guid.len() == 16,
    ensures
        ({
            let h = gpt::header_sector(f);
            &&& bytes::u32_at(h, 16) == crc::crc_of(
                bytes::overwrite(h.subrange(0, 92), 16, bytes::zeros(4)),
            )
            &&& bytes::u32_at(h, 88) == f.entries_crc
        }),
{
    reveal(gpt::header_sector);
    let h = gpt::header_sector(f);
    let sum = crc::crc_of(gpt::header_bytes(f, 0));
    let b = gpt::header_bytes(f, sum);
    lemma_header_bytes(f, sum);
    lemma_header_bytes(f, 0);
    assert(h.subrange(0, 92) =~= b);
    assert(h.subrange(16, 20) =~= b.subrange(16, 20));
    bytes::lemma_u32_roundtrip(h, 16, sum);
    assert(h.subrange(88, 92) =~= b.subrange(88, 92));
    bytes::lemma_u32_roundtrip(h, 88, f.entries_crc);
    let z = gpt::header_bytes(f, 0);
    assert(bytes::overwrite(b, 16, bytes::zeros(4)) =~= z) by {
        assert forall|i: int| 0 <= i < 92 implies bytes::overwrite(b, 16, bytes::zeros(4))[i]
            == z[i] by {
            if 16 <= i < 20 {
                assert(z.subrange(16, 20)[i - 16] == bytes::u32_le(0)[i - 16]);
            } else if i < 16 {
                assert(b.subrange(0, 16)[i] == z.subrange(0, 16)[i]);
            } else {
                assert(b.subrange(20, 92)[i - 20] == z.subrange(20, 92)[i - 20]);
            }
        }
    }
}

/// The fields of a header are read back from its sector.
pub proof fn law_gpt_header_fields(f: gpt::HeaderFields)
    requires
        f.disk_guid.len() == 16,
    ensures
        ({
            let h = gpt::header_sector(f);
            &&& h.subrange(0, 8) == seq![0x45u8, 0x46, 0x49, 0x20, 0x50, 0x41, 0x52, 0x54]
            &&& bytes::u32_at(h, 12) == 92
            &&& bytes::u64_at(h, 24) == f.my_lba
            &&& bytes::u64_at(h, 32) == f.alt_lba
            &&& bytes::u64_at(h, 40) == 34
            &&& bytes::u64_at(h, 48) == f.last_usable
            &&& h.subrange(56, 72) == f.disk_guid
            &&& bytes::u64_at(h, 72) == f.entry_start
            &&& bytes::u32_at(h, 80) == 128
            &&& bytes::u32_at(h, 84) == 128
        }),
{
    reveal(gpt::header_sector);
    let h = gpt::header_sector(f);
    let sum = crc::crc_of(gpt::header_bytes(f, 0));
    let b = gpt::header_bytes(f, sum);
    lemma_header_pieces(f, sum);
    lemma_header_bytes(f, sum);
    assert(h.subrange(0, 8) =~= b.subrange(0, 8));
    assert(h.subrange(12, 16) =~= b.subrange(12, 16));
    bytes::lemma_u32_roundtrip(h, 12, 92);
    assert(h.subrange(24, 32) =~= b.subrange(24, 32));
    bytes::lemma_u64_roundtrip(h, 24, f.my_lba);
    assert(h.subrange(32, 40) =~= b.subrange(32, 40));
    bytes::lemma_u64_roundtrip(h, 32, f.alt_lba);
    assert(h.subrange(40, 48) =~= b.subrange(40, 48));
    bytes::lemma_u64_roundtrip(h, 40, 34);
    assert(h.subrange(48, 56) =~= b.subrange(48, 56));
    bytes::lemma_u64_roundtrip(h, 48, f.last_usable);
    assert(h.subrange(56, 72) =~= b.subrange(56, 72));
    assert(h.subrange(72, 80) =~= b.subrange(72, 80));
    bytes::lemma_u64_roundtrip(h, 72, f.entry_start);
    assert(h.subrange(80, 84) =~= b.subrange(80, 84));
    bytes::lemma_u32_roundtrip(h, 80, 128);
    assert(h.subrange(84, 88) =~= b.subrange(84, 88));
    bytes::lemma_u32_roundtrip(h, 84, 128);
}

/// The pieces of the 92 bytes around the checksum.
#[verifier::rlimit(60)]
proof fn lemma_header_bytes(f: gpt::HeaderFields, sum: u32)
    requires
        f.disk_guid.len() == 16,
    ensures
        ({
            let b = gpt::header_bytes(f, sum);
            &&& b.len() == 92
            &&& b.subrange(0, 16) == gpt::header_bytes(f, 0).subrange(0, 16)
            &&& b.subrange(16, 20) == bytes::u32_le(sum)
            &&& b.subrange(20, 92) == gpt::header_bytes(f, 0).subrange(20, 92)
            &&& b.subrange(88, 92) == bytes::u32_le(f.entries_crc)
        }),
{
    reveal(gpt::header_bytes);
    let b = gpt::header_bytes(f, sum);
    let z = gpt::header_bytes(f, 0);
    assert(b.subrange(0, 16) =~= z.subrange(0, 16));
    assert(b.subrange(16, 20) =~= bytes::u32_le(sum));
    assert(b.subrange(20, 92) =~= z.subrange(20, 92));
    assert(b.subrange(88, 92) =~= bytes::u32_le(f.entries_crc));
}

/// The pieces of the 92 bytes.
#[verifier::rlimit(60)]
proof fn lemma_header_pieces(f: gpt::HeaderFields, sum: u32)
    requires
        f.disk_guid.len() == 16,
    ensures
        ({
            let b = gpt::header_bytes(f, sum);
            &&& b.subrange(0, 8) == seq![0x45u8, 0x46, 0x49, 0x20, 0x50, 0x41, 0x52, 0x54]
            &&& b.subrange(12, 16) == bytes::u32_le(92)
            &&& b.subrange(24, 32) == bytes::u64_le(f.my_lba)
            &&& b.subrange(32, 40) == bytes::u64_le(f.alt_lba)
            &&& b.subrange(40, 48) == bytes::u64_le(34)
            &&& b.subrange(48, 56) == bytes::u64_le(f.last_usable)
            &&& b.subrange(56, 72) == f.disk_guid
            &&& b.subrange(72, 80) == bytes::u64_le(f.entry_start)
            &&& b.subrange(80, 84) == bytes::u32_le(128)
            &&& b.subrange(84, 88) == bytes::u32_le(128)
        }),
{
    reveal(gpt::header_bytes);
    let b = gpt::header_bytes(f, sum);
    assert(b.subrange(0, 8) =~= seq![0x45u8, 0x46, 0x49, 0x20, 0x50, 0x41, 0x52, 0x54]);
    assert(b.subrange(12, 16) =~= bytes::u32_le(92));
    assert(b.subrange(24, 32) =~= bytes::u64_le(f.my_lba));
    assert(b.subrange(32, 40) =~= bytes::u64_le(f.alt_lba));
    assert(b.subrange(40, 48) =~= bytes::u64_le(34));
    assert(b.subrange(48, 56) =~= bytes::u64_le(f.last_usable));
    assert(b.subrange(56, 72) =~= f.disk_guid);
    assert(b.subrange(72, 80) =~= bytes::u64_le(f.entry_start));
    assert(b.subrange(80, 84) =~= bytes::u32_le(128));
    assert(b.subrange(84, 88) =~= bytes::u32_le(128));
}

/// The two headers point at each other and agree on everything else but where their copy of the
/// partition entries begins; the checksum that both give is that of the entries that are written.
pub proof fn law_gpt_mirrored(total: u64, disk: Seq<u8>, part: Seq<u8>)
    requires
        total >= gpt::MIN_SECTORS,
    ensures
        ({
            let a = gpt::primary_fields(total, disk, part);
            let b = gpt::backup_fields(total, disk, part);
            let w = gpt::gpt_writes(total, disk, part);
            &&& a.my_lba == b.alt_lba && a.alt_lba == b.my_lba
            &&& a.last_usable == b.last_usable && a.disk_guid == b.disk_guid && a.entries_crc
                == b.entries_crc
            &&& w[1] == ((a.my_lba * 512) as u64, gpt::header_sector(a))
            &&& w[4] == ((b.my_lba * 512) as u64, gpt::header_sector(b))
            &&& w[2].0 == a.entry_start * 512
            &&& w[3].0 == (b.entry_start * 512) as u64
            &&& w[2].1 == w[3].1
            &&& a.entries_crc == crc::crc_of(w[2].1)
        }),
{
}

/// What is written for a GUID partition table lies on the drive, without overlaps and outside the
/// partition; the partition lies in the area that the headers call usable.
pub proof fn law_gpt_layout(device_size: u64, disk: Seq<u8>, part: Seq<u8>)
    requires
        partition::fits_on(partition::PartitionScheme::Gpt, device_size),
        disk.len() == 16,
        part.len() == 16,
    ensures
        ({
            let total = (device_size / 512) as u64;
            let w = gpt::gpt_writes(total, disk, part);
            let first = gpt::PARTITION_START_LBA * 512;
            let end = (total - 33) * 512;
            &&& disjoint(w)
            &&& forall|a: int|
                0 <= a < w.len() ==> (#[trigger] w[a]).0 % 512 == 0 && w[a].0 + w[a].1.len()
                    <= device_size
            &&& forall|a: int, i: int|
                0 <= a < w.len() && #[trigger] covers(w[a], i) ==> !(first <= i < end)
            &&& 34 * 512 <= first < end
        }),
{
    let total = (device_size / 512) as u64;
    let w = gpt::gpt_writes(total, disk, part);
    law_gpt_sizes(
        gpt::primary_fields(total, disk, part),
        total,
        part,
        gpt::PARTITION_START_LBA,
        (total - 34) as u64,
    );
    law_gpt_sizes(
        gpt::backup_fields(total, disk, part),
        total,
        part,
        gpt::PARTITION_START_LBA,
        (total - 34) as u64,
    );
    assert(w.len() == 5);
    assert(w[0].0 == 0 && w[0].1.len() == 512);
    assert(w[1].0 == 512 && w[1].1.len() == 512);
    assert(w[2].0 == 1024 && w[2].1.len() == 16384);
    assert(w[3].0 == (total - 33) * 512 && w[3].1.len() == 16384);
    assert(w[4].0 == (total - 1) * 512 && w[4].1.len() == 512);
}

/// What is written for a GUID partition table, and where: the protective record in the first
/// sector, a header in the second, the partition entries behind it, and at the end of the drive the
/// entries again and, in the last sector, the other header. The partition begins at the first
/// mebibyte, and ends where the second copy of the entries begins.
pub proof fn law_gpt_places(
    t: partition::PartitionTable,
    device_size: u64,
    disk: Seq<u8>,
    part: Seq<u8>,
)
    requires
        partition::fits_on(partition::PartitionScheme::Gpt, device_size),
        partition::is_gpt(t, device_size, disk, part),
        disk.len() == 16,
        part.len() == 16,
    ensures
        ({
            let n = device_size / 512;
            let w = t.writes@;
            &&& w.len() == 5
            &&& w[0].0 == 0 && w[0].1@.len() == 512
            &&& w[1].0 == 512 && w[1].1@.len() == 512
            &&& w[2].0 == 1024 && w[2].1@.len() == 16384
            &&& w[3].0 == (n - 33) * 512 && w[3].1@.len() == 16384
            &&& w[4].0 == (n - 1) * 512 && w[4].1@.len() == 512
            &&& w[3].1@ == w[2].1@
            &&& t.info.offset == 1048576
            &&& t.info.offset + t.info.size == (n - 33) * 512
        }),
{
    let total = (device_size / 512) as u64;
    let v = gpt::gpt_writes(total, disk, part);
    let w = t.writes@;
    assert(gpt::write_views(w).len() == w.len());
    assert forall|k: int| 0 <= k < 5 implies v[k] == (#[trigger] w[k].0, w[k].1@) by {
        assert(gpt::write_views(w)[k] == (w[k].0, w[k].1@));
    }
    law_gpt_sizes(
        gpt::primary_fields(total, disk, part),
        total,
        part,
        gpt::PARTITION_START_LBA,
        (total - 34) as u64,
    );
    law_gpt_sizes(
        gpt::backup_fields(total, disk, part),
        total,
        part,
        gpt::PARTITION_START_LBA,
        (total - 34) as u64,
    );
    assert(w[0].1@ == v[0].1 && w[1].1@ == v[1].1 && w[2].1@ == v[2].1 && w[3].1@ == v[3].1
        && w[4].1@ == v[4].1);
    assert(w[0].0 == v[0].0 && w[1].0 == v[1].0 && w[2].0 == v[2].0 && w[3].0 == v[3].0 && w[4].0
        == v[4].0);
}

/// A GUID partition table goes onto a drive only where a partition has room on it: between the
/// first mebibyte and the 33 sectors at the end there is at least one sector.
pub proof fn law_gpt_needs_room(device_size: u64)
    ensures
        partition::fits_on(partition::PartitionScheme::Gpt, device_size) <==> device_size / 512 - 33
            > 2048,
        partition::fits_on(partition::PartitionScheme::Mbr, device_size),
{
}

/// The first of the partition entries that are written, in both places: the type
/// C12A7328-F81F-11D2-BA4B-00A0C93EC93B, the identifier of the partition, its first sector at the
/// first mebibyte and its last one before the second copy of the entries, no attributes, and its
/// name. Nothing else is in the array.
pub proof fn law_gpt_entry(
    t: partition::PartitionTable,
    device_size: u64,
    disk: Seq<u8>,
    part: Seq<u8>,
    k: int,
)
    requires
        partition::fits_on(partition::PartitionScheme::Gpt, device_size),
        partition::is_gpt(t, device_size, disk, part),
        disk.len() == 16,
        part.len() == 16,
        k == 2 || k == 3,
    ensures
        ({
            let a = t.writes@[k].1@;
            let name = "EFI System Partition"@;
            &&& a.len() == 16384
            &&& a.subrange(0, 16) == seq![
                0x28u8,
                0x73,
                0x2A,
                0xC1,
                0x1F,
                0xF8,
                0xD2,
                0x11,
                0xBA,
                0x4B,
                0x00,
                0xA0,
                0xC9,
                0x3E,
                0xC9,
                0x3B,
            ]
            &&& a.subrange(16, 32) == part
            &&& bytes::number(a, 32, 8) == 2048
            &&& bytes::number(a, 40, 8) == device_size / 512 - 34
            &&& forall|i: int| 48 <= i < 56 ==> #[trigger] a[i] == 0
            &&& forall|i: int|
                0 <= i < name.len() ==> a[56 + 2 * i] == #[trigger] name[i] as int && a[57 + 2 * i]
                    == 0
            &&& forall|i: int| 56 + 2 * name.len() <= i < 16384 ==> #[trigger] a[i] == 0
        }),
{
    let total = (device_size / 512) as u64;
    law_gpt_places(t, device_size, disk, part);
    assert(gpt::write_views(t.writes@)[2] == (t.writes@[2].0, t.writes@[2].1@));
    assert(gpt::gpt_writes(total, disk, part)[2].1 == gpt::entry_array(
        part,
        gpt::PARTITION_START_LBA,
        (total - 34) as u64,
    ));
    lemma_entry_array(part, gpt::PARTITION_START_LBA, (total - 34) as u64);
}

/// The pieces of the array of partition entries.
#[verifier::rlimit(60)]
proof fn lemma_entry_array(part: Seq<u8>, first: u64, last: u64)
    requires
        part.len() == 16,
    ensures
        ({
            let a = gpt::entry_array(part, first, last);
            let name = "EFI System Partition"@;
            &&& a.len() == 16384
            &&& a.subrange(0, 16) == seq![
                0x28u8,
                0x73,
                0x2A,
                0xC1,
                0x1F,
                0xF8,
                0xD2,
                0x11,
                0xBA,
                0x4B,
                0x00,
                0xA0,
                0xC9,
                0x3E,
                0xC9,
                0x3B,
            ]
            &&& a.subrange(16, 32) == part
            &&& bytes::number(a, 32, 8) == first
            &&& bytes::number(a, 40, 8) == last
            &&& forall|i: int| 48 <= i < 56 ==> #[trigger] a[i] == 0
            &&& forall|i: int|
                0 <= i < name.len() ==> a[56 + 2 * i] == #[trigger] name[i] as int && a[57 + 2 * i]
                    == 0
            &&& forall|i: int| 56 + 2 * name.len() <= i < 16384 ==> #[trigger] a[i] == 0
        }),
{
    reveal(gpt::entry_array);
    reveal_strlit("EFI System Partition");
    let a = gpt::entry_array(part, first, last);
    let name = "EFI System Partition"@;
    assert(a.subrange(0, 16) =~= gpt::efi_type());
    assert(a.subrange(16, 32) =~= part);
    assert(a.subrange(32, 40) =~= bytes::u64_le(first));
    assert(a.subrange(40, 48) =~= bytes::u64_le(last));
    bytes::law_numbers_are_written(0, 0, first);
    bytes::law_numbers_are_written(0, 0, last);
    bytes::lemma_number_in(a, 32, bytes::u64_le(first));
    bytes::lemma_number_in(a, 40, bytes::u64_le(last));
    assert(a.subrange(56, 96) =~= gpt::wide(name));
    assert forall|i: int| 0 <= i < name.len() implies a[56 + 2 * i] == #[trigger] name[i] as int && a[57
        + 2 * i] == 0 by {
        assert(a.subrange(56, 96)[2 * i] == gpt::wide(name)[2 * i]);
        assert(a.subrange(56, 96)[2 * i + 1] == gpt::wide(name)[2 * i + 1]);
        assert((2 * i) / 2 == i);
        assert((name[i] as u32) < 128);
    }
}

/// The two headers that are written, byte by byte: the letters `EFI PART`, the revision, the length,
/// the sectors of this header and of the other, the first sector that a partition may use and the
/// last, the identifier of the drive, where this copy of the entries begins, and that there are 128
/// of 128 bytes. What stands behind is zero.
pub proof fn law_gpt_header_bytes(
    t: partition::PartitionTable,
    device_size: u64,
    disk: Seq<u8>,
    part: Seq<u8>,
    k: int,
)
    requires
        partition::fits_on(partition::PartitionScheme::Gpt, device_size),
        partition::is_gpt(t, device_size, disk, part),
        disk.len() == 16,
        part.len() == 16,
        k == 1 || k == 4,
    ensures
        ({
            let n = device_size / 512;
            let h = t.writes@[k].1@;
            &&& h.subrange(0, 12) == seq![
                0x45u8,
                0x46,
                0x49,
                0x20,
                0x50,
                0x41,
                0x52,
                0x54,
                0,
                0,
                1,
                0,
            ]
            &&& bytes::number(h, 12, 4) == 92
            &&& bytes::number(h, 16, 4) == crc::crc_of(
                h.subrange(0, 16) + seq![0u8, 0, 0, 0] + h.subrange(20, 92),
            )
            &&& bytes::number(h, 20, 4) == 0
            &&& bytes::number(h, 24, 8) == if k == 1 {
                1
            } else {
                n - 1
            }
            &&& bytes::number(h, 32, 8) == if k == 1 {
                n - 1
            } else {
                1
            }
            &&& bytes::number(h, 40, 8) == 34
            &&& bytes::number(h, 48, 8) == n - 34
            &&& h.subrange(56, 72) == disk
            &&& bytes::number(h, 72, 8) == if k == 1 {
                2
            } else {
                n - 33
            }
            &&& bytes::number(h, 80, 4) == 128
            &&& bytes::number(h, 84, 4) == 128
            &&& bytes::number(h, 88, 4) == crc::crc_of(t.writes@[2].1@)
            &&& forall|i: int| 92 <= i < 512 ==> #[trigger] h[i] == 0
        }),
{
    let total = (device_size / 512) as u64;
    law_gpt_places(t, device_size, disk, part);
    let v = gpt::gpt_writes(total, disk, part);
    assert(gpt::write_views(t.writes@)[k] == (t.writes@[k].0, t.writes@[k].1@));
    assert(gpt::write_views(t.writes@)[2] == (t.writes@[2].0, t.writes@[2].1@));
    let f = if k == 1 {
        gpt::primary_fields(total, disk, part)
    } else {
        gpt::backup_fields(total, disk, part)
    };
    let h = t.writes@[k].1@;
    assert(h == gpt::header_sector(f));
    law_gpt_header_fields(f);
    law_gpt_checksums(f);
    law_gpt_sizes(f, total, part, gpt::PARTITION_START_LBA, (total - 34) as u64);
    lemma_header_rest(f);
    let z = h.subrange(0, 16) + seq![0u8, 0, 0, 0] + h.subrange(20, 92);
    assert(bytes::overwrite(h.subrange(0, 92), 16, bytes::zeros(4)) =~= z);
    bytes::law_fields_are_numbers(h, 12);
    bytes::law_fields_are_numbers(h, 16);
    bytes::law_fields_are_numbers(h, 24);
    bytes::law_fields_are_numbers(h, 32);
    bytes::law_fields_are_numbers(h, 40);
    bytes::law_fields_are_numbers(h, 48);
    bytes::law_fields_are_numbers(h, 72);
    bytes::law_fields_are_numbers(h, 80);
    bytes::law_fields_are_numbers(h, 84);
    bytes::law_fields_are_numbers(h, 88);
}

/// What stands between the fields of a header, and behind them.
#[verifier::rlimit(60)]
proof fn lemma_header_rest(f: gpt::HeaderFields)
    requires
        f.disk_guid.len() == 16,
    ensures
        ({
            let h = gpt::header_sector(f);
            &&& h.subrange(0, 12) == seq![
                0x45u8,
                0x46,
                0x49,
                0x20,
                0x50,
                0x41,
                0x52,
                0x54,
                0,
                0,
                1,
                0,
            ]
            &&& bytes::number(h, 20, 4) == 0
            &&& forall|i: int| 92 <= i < 512 ==> #[trigger] h[i] == 0
        }),
{
    reveal(gpt::header_sector);
    reveal(gpt::header_bytes);
    reveal_with_fuel(bytes::number, 5);
    let sum = crc::crc_of(gpt::header_bytes(f, 0));
    lemma_header_bytes(f, sum);
    let h = gpt::header_sector(f);
    assert(h.subrange(0, 12) =~= seq![0x45u8, 0x46, 0x49, 0x20, 0x50, 0x41, 0x52, 0x54, 0, 0, 1, 0]);
    assert(h[20] == 0 && h[21] == 0 && h[22] == 0 && h[23] == 0);
}

/// The protective record of a drive with a GUID partition table: its one partition, of the type for
/// this, begins at the second sector and covers the rest of the drive, or as much of it as can be
/// counted.
pub proof fn law_protective_record(
    t: partition::PartitionTable,
    device_size: u64,
    disk: Seq<u8>,
    part: Seq<u8>,
)
    requires
        partition::fits_on(partition::PartitionScheme::Gpt, device_size),
        partition::is_gpt(t, device_size, disk, part),
        disk.len() == 16,
        part.len() == 16,
    ensures
        ({
            let n = device_size / 512;
            let r = t.writes@[0].1@;
            &&& forall|i: int| 0 <= i < 446 ==> #[trigger] r[i] == 0
            &&& r.subrange(446, 454) == seq![0u8, 0, 2, 0, 0xEE, 0xFF, 0xFF, 0xFF]
            &&& bytes::number(r, 454, 4) == 1
            &&& bytes::number(r, 458, 4) == if n - 1 <= 0xFFFF_FFFF {
                n - 1
            } else {
                0xFFFF_FFFF
            }
            &&& forall|i: int| 462 <= i < 510 ==> #[trigger] r[i] == 0
            &&& r[510] == 0x55 && r[511] == 0xAA
        }),
{
    let total = (device_size / 512) as u64;
    law_gpt_places(t, device_size, disk, part);
    assert(gpt::write_views(t.writes@)[0] == (t.writes@[0].0, t.writes@[0].1@));
    assert(gpt::gpt_writes(total, disk, part)[0].1 == gpt::protective_mbr(total));
    reveal(gpt::protective_mbr);
    let r = gpt::protective_mbr(total);
    let count = gpt::protected_sectors(total);
    assert(r.subrange(446, 454) =~= seq![0u8, 0, 2, 0, 0xEE, 0xFF, 0xFF, 0xFF]);
    assert(r.subrange(454, 458) =~= bytes::u32_le(1));
    assert(r.subrange(458, 462) =~= bytes::u32_le(count));
    bytes::law_numbers_are_written(0, 1, 0);
    bytes::law_numbers_are_written(0, count, 0);
    bytes::lemma_number_in(r, 454, bytes::u32_le(1));
    bytes::lemma_number_in(r, 458, bytes::u32_le(count));
}

// ---------------------------------------------------------------------------
// Master boot records
// ---------------------------------------------------------------------------
/// A boot record is one sector that ends with the mark of a boot record; its first entry gives
/// the place and the length of the partition.
pub proof fn law_boot_record(signature: Seq<u8>, boot: u8, kind: u8, start: u32, sectors: u32)
    requires
        signature.len() == 4,
    ensures
        ({
            let r = mbr::boot_record(signature, boot, kind, start, sectors);
            &&& r.len() == 512
            &&& r.subrange(440, 444) == signature
            &&& r[446] == boot
            &&& r[450] == kind
            &&& bytes::u32_at(r, 454) == start
            &&& bytes::u32_at(r, 458) == sectors
            &&& r[510] == 0x55 && r[511] == 0xAA
        }),
{
    let r = mbr::boot_record(signature, boot, kind, start, sectors);
    assert(r.subrange(440, 444) =~= signature);
    assert(r.subrange(454, 458) =~= bytes::u32_le(start));
    assert(r.subrange(458, 462) =~= bytes::u32_le(sectors));
    bytes::lemma_u32_roundtrip(r, 454, start);
    bytes::lemma_u32_roundtrip(r, 458, sectors);
}

/// The record that is written for a master boot record, byte by byte: no boot code, a signature, one
/// partition to boot from, of the type for FAT32 by sector numbers, at the first mebibyte, three
/// empty entries, and the mark of a boot record. The number of sectors of a drive is taken modulo
/// two to the 32nd, and the first mebibyte is taken off where there is one.
pub proof fn law_mbr_bytes(t: partition::PartitionTable, device_size: u64)
    requires
        partition::is_mbr(t, device_size),
    ensures
        ({
            let n = device_size / 512 % 0x1_0000_0000;
            let sectors = if n < 2048 {
                0
            } else {
                n - 2048
            };
            let w = t.writes@;
            let r = w[0].1@;
            &&& w.len() == 1
            &&& w[0].0 == 0
            &&& r.len() == 512
            &&& forall|i: int| 0 <= i < 440 ==> #[trigger] r[i] == 0
            &&& r.subrange(440, 454) == seq![
                0xAAu8,
                0xBB,
                0xCC,
                0xDD,
                0,
                0,
                0x80,
                0,
                0,
                0,
                0x0C,
                0,
                0,
                0,
            ]
            &&& bytes::number(r, 454, 4) == 2048
            &&& bytes::number(r, 458, 4) == sectors
            &&& forall|i: int| 462 <= i < 510 ==> #[trigger] r[i] == 0
            &&& r[510] == 0x55 && r[511] == 0xAA
            &&& t.info.offset == 1048576
            &&& t.info.size == sectors * 512
        }),
{
    let w = t.writes@;
    assert(gpt::write_views(w).len() == w.len());
    assert(gpt::write_views(w)[0] == (w[0].0, w[0].1@));
    let r = w[0].1@;
    let sectors = mbr::mbr_sectors(device_size);
    assert(r == mbr::boot_record(mbr::drive_signature(), 0x80, 0x0C, 2048, sectors));
    assert(r.subrange(440, 454) =~= seq![
        0xAAu8,
        0xBB,
        0xCC,
        0xDD,
        0,
        0,
        0x80,
        0,
        0,
        0,
        0x0C,
        0,
        0,
        0,
    ]);
    assert(r.subrange(454, 458) =~= bytes::u32_le(2048));
    assert(r.subrange(458, 462) =~= bytes::u32_le(sectors));
    bytes::law_numbers_are_written(0, 2048, 0);
    bytes::law_numbers_are_written(0, sectors, 0);
    bytes::lemma_number_in(r, 454, bytes::u32_le(2048));
    bytes::lemma_number_in(r, 458, bytes::u32_le(sectors));
}

/// The partition of a master boot record takes the drive from its first mebibyte to its last
/// whole sector, where the drive has as many sectors as that takes and no more than a record can
/// count.
pub proof fn law_mbr_partition(t: partition::PartitionTable, device_size: u64)
    requires
        partition::is_mbr(t, device_size),
        2048 <= device_size / 512 <= 0xFFFF_FFFF,
    ensures
        t.info.offset + t.info.size == device_size / 512 * 512,
{
}

} // verus!
