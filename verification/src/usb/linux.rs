//! Drives on Linux, by what the kernel tells of its block devices.

use crate::models;
use crate::models::UsbDrive;
use crate::text;
use vstd::prelude::*;

verus! {

/// The name of a block device is that of a disk that could be a USB drive.
pub fn is_disk_name(name: &str) -> (r: bool)
    ensures
        r == text::begins_with(name@, "sd"@),
{
    text::starts_with(name, "sd")
}

/// Whether the content of the file `removable` says that a disk is removable.
pub fn is_removable(content: &str) -> (r: bool)
    ensures
        r == (text::trimmed(content@) == "1"@),
{
    let t = text::trim(content);
    text::text_eq(t.as_str(), "1")
}

/// Whether the link of a disk to its device leads through USB.
pub fn is_usb_link(link: &str) -> (r: bool)
    ensures
        r == text::has_text(link@, "/usb"@),
{
    text::contains_text(link, "/usb")
}

/// The number of sectors that the content of the file `size` gives; zero where it gives none.
pub open spec fn sectors_of(content: Seq<char>) -> u64 {
    match text::parsed_u64(text::trimmed(content)) {
        Some(n) => n,
        None => 0,
    }
}

/// The number of sectors that the content of the file `size` gives.
pub fn sector_count(content: &str) -> (r: u64)
    ensures
        r == sectors_of(content@),
{
    let t = text::trim(content);
    match text::parse_u64(t.as_str()) {
        Some(n) => n,
        None => 0,
    }
}

/// The name is that of a partition of the disk.
pub open spec fn is_partition(disk: Seq<char>, name: Seq<char>) -> bool {
    text::begins_with(name, disk) && name.len() > disk.len()
}

/// The partitions of a disk among these names.
pub open spec fn partitions_among(disk: Seq<char>, names: Seq<Seq<char>>) -> Seq<Seq<char>>
    decreases names.len(),
{
    if names.len() == 0 {
        Seq::empty()
    } else {
        let before = partitions_among(disk, names.drop_last());
        if is_partition(disk, names.last()) {
            before.push("/dev/"@ + names.last())
        } else {
            before
        }
    }
}

/// The partitions of a disk among the names in its directory.
pub fn list_partitions(disk: &str, names: &Vec<String>) -> (r: Vec<String>)
    ensures
        text::texts(r@) == partitions_among(disk@, text::texts(names@)),
{
    let n: usize = names.len();
    let disk_chars = text::chars_of(disk);
    let ghost all = text::texts(names@);
    let mut r: Vec<String> = Vec::new();
    let mut i: usize = 0;
    assert(all.take(0) =~= Seq::empty());
    assert(text::texts(r@) =~= Seq::empty());
    while i < n
        invariant
            i <= n,
            n == names@.len(),
            disk_chars@ == disk@,
            all == text::texts(names@),
            text::texts(r@) == partitions_among(disk@, all.take(i as int)),
        decreases n - i,
    {
        assert(all[i as int] == names@[i as int]@);
        assert(all.take(i + 1).drop_last() =~= all.take(i as int));
        assert(all.take(i + 1).last() == all[i as int]);
        let chars = text::chars_of(names[i].as_str());
        if text::starts_with(names[i].as_str(), disk) && chars.len() > disk_chars.len() {
            let ghost before = text::texts(r@);
            let one = text::concat("/dev/", names[i].as_str());
            r.push(one);
            assert(text::texts(r@) =~= before.push(one@));
        }
        i += 1;
    }
    assert(all.take(n as int) =~= all);
    r
}

/// The drive with this name, number of sectors, model and partitions; `model` is the content of the
/// file of that name, where there is one.
pub open spec fn drive_of(
    name: Seq<char>,
    sectors: u64,
    model: Option<Seq<char>>,
    partitions: Seq<Seq<char>>,
) -> models::UsbDriveView {
    models::UsbDriveView {
        device: "/dev/"@ + name,
        name: text::trimmed(
            match model {
                Some(m) => m,
                None => "USB Drive"@,
            },
        ),
        size: (sectors * 512) as u64,
        partitions,
    }
}

/// The drive with this name, number of sectors, model and partitions.
pub fn make_drive(
    name: &str,
    sectors: u64,
    model: Option<String>,
    partitions: Vec<String>,
) -> (r: UsbDrive)
    requires
        sectors * 512 <= u64::MAX,
    ensures
        r@ == drive_of(name@, sectors, text::opt_text(model), text::texts(partitions@)),
{
    let label = match model {
        Some(m) => text::trim(m.as_str()),
        None => text::trim("USB Drive"),
    };
    UsbDrive {
        device: text::concat("/dev/", name),
        name: label,
        size: sectors * 512,
        partitions,
    }
}

/// What the kernel tells of a disk: its name, the contents of its files `removable` and `size`, the
/// link to its device, the content of its file `model` where it has one, and the names in its
/// directory.
#[derive(Debug)]
pub struct SysDisk {
    pub name: String,
    pub removable: String,
    pub link: String,
    pub size: String,
    pub model: Option<String>,
    pub names: Vec<String>,
}

/// The disk is a removable USB drive.
pub open spec fn is_usb_drive(name: Seq<char>, removable: Seq<char>, link: Seq<char>) -> bool {
    &&& text::begins_with(name, "sd"@)
    &&& text::trimmed(removable) == "1"@
    &&& text::has_text(link, "/usb"@)
}

/// The size of a disk in bytes can be counted in 64 bits.
pub fn check_sectors(content: &str) -> (r: bool)
    ensures
        r == (sectors_of(content@) * 512 <= u64::MAX),
{
    sector_count(content) <= u64::MAX / 512
}

/// The drive that a disk is, where it is a removable USB drive.
pub open spec fn drive_told(d: SysDisk) -> Option<models::UsbDriveView> {
    if is_usb_drive(d.name@, d.removable@, d.link@) {
        Some(
            drive_of(
                d.name@,
                sectors_of(d.size@),
                text::opt_text(d.model),
                partitions_among(d.name@, text::texts(d.names@)),
            ),
        )
    } else {
        None
    }
}

/// The size of the disk can be counted in 64 bits, where it is a removable USB drive.
pub open spec fn size_fits(d: SysDisk) -> bool {
    is_usb_drive(d.name@, d.removable@, d.link@) ==> sectors_of(d.size@) * 512 <= u64::MAX
}

/// Whether the size of the disk can be counted in 64 bits, where it is a removable USB drive.
pub fn check_disk(d: &SysDisk) -> (r: bool)
    ensures
        r == size_fits(*d),
{
    !is_disk_name(d.name.as_str()) || !is_removable(d.removable.as_str()) || !is_usb_link(
        d.link.as_str(),
    ) || check_sectors(d.size.as_str())
}

/// The drive that a disk is, where it is a removable USB drive.
pub fn sys_drive(d: &SysDisk) -> (r: Option<UsbDrive>)
    requires
        size_fits(*d),
    ensures
        match r {
            Some(u) => drive_told(*d) == Some(u@),
            None => drive_told(*d) is None,
        },
{
    if !is_disk_name(d.name.as_str()) || !is_removable(d.removable.as_str()) || !is_usb_link(
        d.link.as_str(),
    ) {
        return None;
    }
    let sectors: u64 = sector_count(d.size.as_str());
    let partitions = list_partitions(d.name.as_str(), &d.names);
    let model = text::clone_opt(&d.model);
    Some(make_drive(d.name.as_str(), sectors, model, partitions))
}

/// The drives among these disks, in order.
pub open spec fn drives_among(disks: Seq<SysDisk>) -> Seq<models::UsbDriveView>
    decreases disks.len(),
{
    if disks.len() == 0 {
        Seq::empty()
    } else {
        let before = drives_among(disks.drop_last());
        match drive_told(disks.last()) {
            Some(u) => before.push(u),
            None => before,
        }
    }
}

/// The drives among the disks that the kernel tells of.
pub fn list_drives(disks: &Vec<SysDisk>) -> (r: Vec<UsbDrive>)
    requires
        forall|i: int| 0 <= i < disks@.len() ==> size_fits(#[trigger] disks@[i]),
    ensures
        models::drive_views(r@) == drives_among(disks@),
{
    let n: usize = disks.len();
    let mut r: Vec<UsbDrive> = Vec::new();
    let mut i: usize = 0;
    assert(disks@.take(0) =~= Seq::empty());
    assert(models::drive_views(r@) =~= Seq::empty());
    while i < n
        invariant
            i <= n,
            n == disks@.len(),
            forall|k: int| 0 <= k < disks@.len() ==> size_fits(#[trigger] disks@[k]),
            models::drive_views(r@) == drives_among(disks@.take(i as int)),
        decreases n - i,
    {
        assert(disks@.take(i + 1).drop_last() =~= disks@.take(i as int));
        assert(disks@.take(i + 1).last() == disks@[i as int]);
        match sys_drive(&disks[i]) {
            Some(u) => {
                let ghost before = models::drive_views(r@);
                r.push(u);
                assert(models::drive_views(r@) =~= before.push(u@));
            },
            None => {},
        }
        i += 1;
    }
    assert(disks@.take(n as int) =~= disks@);
    r
}

} // verus!
