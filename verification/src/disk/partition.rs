//! Partitioning a drive.

use crate::disk::gpt;
use crate::disk::mbr;
use vstd::prelude::*;

verus! {

/// The kinds of partition table.
#[derive(Debug, Clone, Copy, PartialEq, Eq, Structural)]
pub enum PartitionScheme {
    /// For BIOS boot.
    Mbr,
    /// For UEFI boot.
    Gpt,
}

/// Where the partition lies on the drive, in bytes.
#[derive(Debug, Clone, Copy, PartialEq, Eq, Structural)]
pub struct PartitionInfo {
    pub offset: u64,
    pub size: u64,
}

/// A partition table: the partition, and what is written onto the drive, in order.
#[derive(Debug)]
pub struct PartitionTable {
    pub info: PartitionInfo,
    pub writes: Vec<(u64, Vec<u8>)>,
}

/// The bytes are those of a random identifier: version 4, with the variant of RFC 9562.
pub open spec fn is_random_uuid(b: Seq<u8>) -> bool {
    b.len() == 16 && b[6] / 16 == 4 && b[8] / 64 == 2
}

/// `Uuid::new_v4` of uuid, as bytes: a random identifier. Which one is up to chance. It
/// panics on a machine that has no random numbers to give.
#[verifier::external_body]
pub(crate) fn random_uuid() -> (r: Vec<u8>)
    ensures
        is_random_uuid(r@),
{
    uuid::Uuid::new_v4().as_bytes().to_vec()
}

/// The drive is large enough for the partition table.
pub open spec fn fits_on(scheme: PartitionScheme, device_size: u64) -> bool {
    scheme == PartitionScheme::Gpt ==> device_size / 512 >= gpt::MIN_SECTORS
}

/// Whether the drive is large enough for the partition table.
pub fn check_device_size(scheme: PartitionScheme, device_size: u64) -> (r: bool)
    ensures
        r == fits_on(scheme, device_size),
{
    match scheme {
        PartitionScheme::Mbr => true,
        PartitionScheme::Gpt => device_size / 512 >= gpt::MIN_SECTORS,
    }
}

/// The table is a GUID partition table with these identifiers.
pub open spec fn is_gpt(t: PartitionTable, device_size: u64, disk: Seq<u8>, part: Seq<u8>) -> bool {
    let total = (device_size / 512) as u64;
    &&& t.info.offset == gpt::PARTITION_START_LBA * 512
    &&& t.info.size == (total - 34 - gpt::PARTITION_START_LBA + 1) * 512
    &&& gpt::write_views(t.writes@) == gpt::gpt_writes(total, disk, part)
}

/// The table is a master boot record.
pub open spec fn is_mbr(t: PartitionTable, device_size: u64) -> bool {
    &&& t.info.offset == 2048 * 512
    &&& t.info.size == mbr::mbr_sectors(device_size) * 512
    &&& gpt::write_views(t.writes@) == seq![
        (
            0u64,
            mbr::boot_record(
                mbr::drive_signature(),
                mbr::BOOT_ACTIVE,
                mbr::FAT32_LBA,
                2048,
                mbr::mbr_sectors(device_size),
            ),
        ),
    ]
}

/// A GUID partition table with these identifiers.
pub fn create_gpt(device_size: u64, disk_guid: &Vec<u8>, partition_guid: &Vec<u8>) -> (r:
    PartitionTable)
    requires
        fits_on(PartitionScheme::Gpt, device_size),
        disk_guid@.len() == 16,
        partition_guid@.len() == 16,
    ensures
        is_gpt(r, device_size, disk_guid@, partition_guid@),
{
    let total: u64 = device_size / gpt::SECTOR_SIZE;
    let writes = gpt::build_gpt(total, disk_guid, partition_guid);
    let last: u64 = total - 34;
    PartitionTable {
        info: PartitionInfo {
            offset: gpt::PARTITION_START_LBA * gpt::SECTOR_SIZE,
            size: (last - gpt::PARTITION_START_LBA + 1) * gpt::SECTOR_SIZE,
        },
        writes,
    }
}

/// A master boot record.
pub fn create_mbr(device_size: u64) -> (r: PartitionTable)
    ensures
        is_mbr(r, device_size),
{
    let mut writes: Vec<(u64, Vec<u8>)> = Vec::new();
    writes.push((0, mbr::build_mbr(device_size)));
    let r = PartitionTable {
        info: PartitionInfo {
            offset: gpt::PARTITION_START_LBA * gpt::SECTOR_SIZE,
            size: mbr::partition_sectors(device_size) as u64 * gpt::SECTOR_SIZE,
        },
        writes,
    };
    assert(gpt::write_views(r.writes@) =~= seq![
        (
            0u64,
            mbr::boot_record(
                mbr::drive_signature(),
                mbr::BOOT_ACTIVE,
                mbr::FAT32_LBA,
                2048,
                mbr::mbr_sectors(device_size),
            ),
        ),
    ]);
    r
}

/// The partition table for a drive of this size. The identifiers in a GUID partition table are
/// random.
pub fn create_partition_table(scheme: PartitionScheme, device_size: u64) -> (r: PartitionTable)
    requires
        fits_on(scheme, device_size),
    ensures
        match scheme {
            PartitionScheme::Mbr => is_mbr(r, device_size),
            PartitionScheme::Gpt => exists|disk: Seq<u8>, part: Seq<u8>|
                is_random_uuid(disk) && is_random_uuid(part) && #[trigger] is_gpt(
                    r,
                    device_size,
                    disk,
                    part,
                ),
        },
{
    match scheme {
        PartitionScheme::Mbr => create_mbr(device_size),
        PartitionScheme::Gpt => {
            let disk_guid = random_uuid();
            let partition_guid = random_uuid();
            create_gpt(device_size, &disk_guid, &partition_guid)
        },
    }
}

} // verus!
