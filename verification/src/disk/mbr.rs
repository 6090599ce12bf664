//! A master boot record with one FAT32 partition.

use crate::bytes;
use std::io::Cursor;
use vstd::prelude::*;

verus! {

/// The mark of the partition to boot from.
pub const BOOT_ACTIVE: u8 = 0x80;

/// The type of a FAT32 partition that is addressed by sector numbers.
pub const FAT32_LBA: u8 = 0x0C;

/// The entry of a partition without addresses by cylinder, head and sector.
pub open spec fn partition_entry(boot: u8, kind: u8, start: u32, sectors: u32) -> Seq<u8> {
    seq![boot, 0, 0, 0, kind, 0, 0, 0] + bytes::u32_le(start) + bytes::u32_le(sectors)
}

/// A boot record with one partition: no boot code, the signature of the drive, the entry, three
/// empty ones, and the mark of a boot record.
pub open spec fn boot_record(
    signature: Seq<u8>,
    boot: u8,
    kind: u8,
    start: u32,
    sectors: u32,
) -> Seq<u8> {
    bytes::zeros(440) + signature + bytes::zeros(2) + partition_entry(boot, kind, start, sectors)
        + bytes::zeros(48) + seq![0x55u8, 0xAA]
}

/// `MBR::new_from` and `MBR::write_into` of mbrman, on a sector in memory: what is written for a
/// new record whose first partition is set. Writing fails only for a boot mark that is neither
/// 0 nor 0x80.
#[verifier::external_body]
fn encode_boot_record(
    signature: [u8; 4],
    boot: u8,
    sys: u8,
    starting_lba: u32,
    sectors: u32,
) -> (r: Vec<u8>)
    requires
        boot == 0 || boot == 0x80,
    ensures
        r@ == boot_record(signature@, boot, sys, starting_lba, sectors),
{
    let mut cursor = Cursor::new(vec![0u8; 512]);
    let mut mbr = mbrman::MBR::new_from(&mut cursor, 512, signature).unwrap();
    let first_chs = mbrman::CHS::empty();
    let last_chs = mbrman::CHS::empty();
    mbr[1] = mbrman::MBRPartitionEntry { boot, first_chs, sys, last_chs, starting_lba, sectors };
    mbr.write_into(&mut cursor).unwrap();
    cursor.into_inner()
}

/// The signature that drives are given.
pub open spec fn drive_signature() -> Seq<u8> {
    seq![0xAA, 0xBB, 0xCC, 0xDD]
}

/// The number of sectors of the partition on a drive of this size. The number of sectors of the
/// drive is taken modulo two to the 32nd.
pub open spec fn mbr_sectors(device_size: u64) -> u32 {
    let total = device_size / 512 % 0x1_0000_0000;
    if total >= 2048 {
        (total - 2048) as u32
    } else {
        0
    }
}

/// The number of sectors of the partition on a drive of this size.
pub fn partition_sectors(device_size: u64) -> (r: u32)
    ensures
        r == mbr_sectors(device_size),
{
    let total: u64 = device_size / 512 % 0x1_0000_0000;
    if total >= 2048 {
        (total - 2048) as u32
    } else {
        0
    }
}

/// The boot record of a drive of this size.
pub fn build_mbr(device_size: u64) -> (r: Vec<u8>)
    ensures
        r@ == boot_record(
            drive_signature(),
            BOOT_ACTIVE,
            FAT32_LBA,
            2048,
            mbr_sectors(device_size),
        ),
{
    let signature: [u8; 4] = [0xAA, 0xBB, 0xCC, 0xDD];
    assert(signature@ =~= drive_signature());
    encode_boot_record(signature, BOOT_ACTIVE, FAT32_LBA, 2048, partition_sectors(device_size))
}

} // verus!
