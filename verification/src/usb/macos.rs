//! Drives on macOS, by what the `diskutil` program tells of them.

use crate::error;
use crate::error::{Error, Result};
use crate::models;
use crate::models::UsbDrive;
use crate::text;
use crate::tree;
use crate::tree::TreeNode;
use crate::usb::lists;
use vstd::prelude::*;

verus! {

// ---------------------------------------------------------------------------
// What is run
// ---------------------------------------------------------------------------
/// The arguments of `diskutil` that list the external disks.
pub fn list_args() -> (r: Vec<String>)
    ensures
        text::texts(r@) == seq!["list"@, "-plist"@, "external"@],
{
    let mut r: Vec<String> = Vec::new();
    r.push("list".to_owned());
    r.push("-plist".to_owned());
    r.push("external".to_owned());
    assert(text::texts(r@) =~= seq!["list"@, "-plist"@, "external"@]);
    r
}

/// The arguments of `diskutil` that describe a disk.
pub fn info_args(disk_id: &str) -> (r: Vec<String>)
    ensures
        text::texts(r@) == seq!["info"@, "-plist"@, "/dev/"@ + disk_id@],
{
    let mut r: Vec<String> = Vec::new();
    r.push("info".to_owned());
    r.push("-plist".to_owned());
    r.push(text::concat("/dev/", disk_id));
    assert(text::texts(r@) =~= seq!["info"@, "-plist"@, "/dev/"@ + disk_id@]);
    r
}

/// The arguments of `diskutil` that list the partitions of a disk.
pub fn partition_args(disk_id: &str) -> (r: Vec<String>)
    ensures
        text::texts(r@) == seq!["list"@, "-plist"@, "/dev/"@ + disk_id@],
{
    let mut r: Vec<String> = Vec::new();
    r.push("list".to_owned());
    r.push("-plist".to_owned());
    r.push(text::concat("/dev/", disk_id));
    assert(text::texts(r@) =~= seq!["list"@, "-plist"@, "/dev/"@ + disk_id@]);
    r
}

// ---------------------------------------------------------------------------
// What it says
// ---------------------------------------------------------------------------
/// The strings among the values `at`.
pub open spec fn strings_at(nodes: Seq<tree::TreeNodeView>, at: Seq<int>) -> Seq<Seq<char>>
    decreases at.len(),
{
    if at.len() == 0 {
        Seq::empty()
    } else {
        let before = strings_at(nodes, at.drop_last());
        match nodes[at.last()].string {
            Some(s) => before.push(s),
            None => before,
        }
    }
}

/// The strings in the array that is called `key`.
pub fn strings_in(nodes: &Vec<TreeNode>, key: &str) -> (r: Vec<String>)
    ensures
        text::texts(r@) == strings_at(
            tree::tree_views(nodes@),
            tree::elements(tree::tree_views(nodes@), 0, key@),
        ),
{
    let ghost all = tree::tree_views(nodes@);
    let at = tree::find_elements(nodes, 0, key);
    let ghost ps = tree::places(at@);
    let n: usize = at.len();
    let mut r: Vec<String> = Vec::new();
    let mut k: usize = 0;
    assert(ps.take(0) =~= Seq::empty());
    assert(text::texts(r@) =~= Seq::empty());
    while k < n
        invariant
            k <= n,
            n == at@.len(),
            all == tree::tree_views(nodes@),
            ps == tree::places(at@),
            forall|x: int| 0 <= x < at@.len() ==> #[trigger] at@[x] < nodes@.len(),
            text::texts(r@) == strings_at(all, ps.take(k as int)),
        decreases n - k,
    {
        let i: usize = at[k];
        assert(ps[k as int] == i);
        assert(ps.take(k + 1).drop_last() =~= ps.take(k as int));
        assert(ps.take(k + 1).last() == i);
        assert(all[i as int] == nodes@[i as int]@);
        match &nodes[i].string {
            Some(s) => {
                let ghost before = text::texts(r@);
                r.push(s.clone());
                assert(text::texts(r@) =~= before.push(s@));
            },
            None => {},
        }
        k += 1;
    }
    assert(ps.take(n as int) =~= ps);
    r
}

/// The error for a list that cannot be read.
pub open spec fn plist_error(e: Seq<char>) -> error::ErrorView {
    error::ErrorView::Other("plist parse: "@ + e)
}

/// The disks that the program lists which ran with or without success and printed this list.
pub open spec fn disks_told(
    success: bool,
    list: std::result::Result<Seq<tree::TreeNodeView>, Seq<char>>,
) -> std::result::Result<Seq<Seq<char>>, error::ErrorView> {
    if !success {
        Err(error::ErrorView::Other("diskutil list failed"@))
    } else {
        match list {
            Err(e) => Err(plist_error(e)),
            Ok(nodes) => Ok(strings_at(nodes, tree::elements(nodes, 0, "WholeDisks"@))),
        }
    }
}

/// The disks that the program lists which ran with or without success and printed this list.
pub fn disks_in(success: bool, list: std::result::Result<Vec<TreeNode>, String>) -> (r: Result<
    Vec<String>,
>)
    ensures
        match disks_told(success, lists::list_result(list)) {
            Ok(disks) => r is Ok && text::texts(r->Ok_0@) == disks,
            Err(e) => r is Err && r->Err_0@ == e,
        },
{
    if !success {
        return Err(error::other("diskutil list failed"));
    }
    match list {
        Err(e) => Err(Error::Other(text::concat("plist parse: ", e.as_str()))),
        Ok(nodes) => Ok(strings_in(&nodes, "WholeDisks")),
    }
}

/// The disks that the program lists which ran with or without success and printed `data`.
pub fn read_disks(success: bool, data: &[u8]) -> (r: Result<Vec<String>>)
    requires
        success ==> lists::is_tame(data@),
    ensures
        match disks_told(success, lists::plist_tree(data@)) {
            Ok(disks) => r is Ok && text::texts(r->Ok_0@) == disks,
            Err(e) => r is Err && r->Err_0@ == e,
        },
{
    disks_in(success, read_answer(success, data))
}

/// The list that a program printed; one that failed printed none.
pub fn read_answer(success: bool, data: &[u8]) -> (r: std::result::Result<Vec<TreeNode>, String>)
    requires
        success ==> lists::is_tame(data@),
    ensures
        if success {
            lists::list_result(r) == lists::plist_tree(data@)
        } else {
            r is Ok && r->Ok_0@.len() == 0
        },
{
    if success {
        lists::read_plist(data)
    } else {
        Ok(Vec::new())
    }
}

/// The disk that is described can be written to as a drive: it is removable or external, and no
/// virtual one.
pub open spec fn is_drive(nodes: Seq<tree::TreeNodeView>) -> bool {
    &&& match tree::member(nodes, 0, "RemovableMediaOrExternalDevice"@) {
        Some(j) => nodes[j].boolean == Some(true),
        None => false,
    }
    &&& tree::string_in(nodes, 0, "VirtualOrPhysical"@) != Some("Virtual"@)
}

/// The name and the size of the drive that is described.
pub open spec fn drive_info(nodes: Seq<tree::TreeNodeView>) -> Option<(Seq<char>, u64)> {
    if is_drive(nodes) {
        Some(
            (
                match tree::string_in(nodes, 0, "MediaName"@) {
                    Some(s) => s,
                    None => "USB Drive"@,
                },
                match tree::member(nodes, 0, "TotalSize"@) {
                    Some(j) => match nodes[j].number {
                        Some(n) => n,
                        None => 0,
                    },
                    None => 0,
                },
            ),
        )
    } else {
        None
    }
}

/// The name and the size of the drive that is described.
pub fn info_of(nodes: &Vec<TreeNode>) -> (r: Option<(String, u64)>)
    ensures
        match drive_info(tree::tree_views(nodes@)) {
            Some(x) => r is Some && (r->0).0@ == x.0 && (r->0).1 == x.1,
            None => r is None,
        },
{
    let ghost all = tree::tree_views(nodes@);
    let removable: bool = match tree::find_member(nodes, 0, "RemovableMediaOrExternalDevice") {
        Some(j) => {
            assert(all[j as int] == nodes@[j as int]@);
            match nodes[j].boolean {
                Some(b) => b,
                None => false,
            }
        },
        None => false,
    };
    let is_virtual: bool = match tree::find_string(nodes, 0, "VirtualOrPhysical") {
        Some(s) => text::text_eq(s.as_str(), "Virtual"),
        None => false,
    };
    if !removable || is_virtual {
        return None;
    }
    let name = match tree::find_string(nodes, 0, "MediaName") {
        Some(s) => s,
        None => "USB Drive".to_owned(),
    };
    let size: u64 = match tree::find_member(nodes, 0, "TotalSize") {
        Some(j) => {
            assert(all[j as int] == nodes@[j as int]@);
            match nodes[j].number {
                Some(n) => n,
                None => 0,
            }
        },
        None => 0,
    };
    Some((name, size))
}

/// The name and the size of the drive that the program describes which ran with or without success
/// and printed this list.
pub open spec fn info_told(
    success: bool,
    list: std::result::Result<Seq<tree::TreeNodeView>, Seq<char>>,
) -> std::result::Result<Option<(Seq<char>, u64)>, error::ErrorView> {
    if !success {
        Ok(None)
    } else {
        match list {
            Err(e) => Err(plist_error(e)),
            Ok(nodes) => Ok(drive_info(nodes)),
        }
    }
}

/// A drive's name and size, where there is one, or the error in their place.
pub open spec fn info_result(r: Result<Option<(String, u64)>>) -> std::result::Result<
    Option<(Seq<char>, u64)>,
    error::ErrorView,
> {
    match r {
        Ok(Some(x)) => Ok(Some((x.0@, x.1))),
        Ok(None) => Ok(None),
        Err(e) => Err(e@),
    }
}

/// The name and the size of the drive that the program describes which ran with or without success
/// and printed this list.
pub fn info_in(success: bool, list: std::result::Result<Vec<TreeNode>, String>) -> (r: Result<
    Option<(String, u64)>,
>)
    ensures
        info_result(r) == info_told(success, lists::list_result(list)),
{
    if !success {
        return Ok(None);
    }
    match list {
        Err(e) => Err(Error::Other(text::concat("plist parse: ", e.as_str()))),
        Ok(nodes) => Ok(info_of(&nodes)),
    }
}

/// The name and the size of the drive that the program describes which ran with or without success
/// and printed `data`.
pub fn read_info(success: bool, data: &[u8]) -> (r: Result<Option<(String, u64)>>)
    requires
        success ==> lists::is_tame(data@),
    ensures
        info_result(r) == info_told(success, lists::plist_tree(data@)),
{
    info_in(success, read_answer(success, data))
}

/// The paths of the disks other than `disk_id`.
pub open spec fn other_disks(disks: Seq<Seq<char>>, disk_id: Seq<char>) -> Seq<Seq<char>>
    decreases disks.len(),
{
    if disks.len() == 0 {
        Seq::empty()
    } else {
        let before = other_disks(disks.drop_last(), disk_id);
        if disks.last() != disk_id {
            before.push("/dev/"@ + disks.last())
        } else {
            before
        }
    }
}

/// The paths of the disks other than `disk_id`.
pub fn paths_of_others(disks: &Vec<String>, disk_id: &str) -> (r: Vec<String>)
    ensures
        text::texts(r@) == other_disks(text::texts(disks@), disk_id@),
{
    let n: usize = disks.len();
    let ghost all = text::texts(disks@);
    let mut r: Vec<String> = Vec::new();
    let mut i: usize = 0;
    assert(all.take(0) =~= Seq::empty());
    assert(text::texts(r@) =~= Seq::empty());
    while i < n
        invariant
            i <= n,
            n == disks@.len(),
            all == text::texts(disks@),
            text::texts(r@) == other_disks(all.take(i as int), disk_id@),
        decreases n - i,
    {
        assert(all[i as int] == disks@[i as int]@);
        assert(all.take(i + 1).drop_last() =~= all.take(i as int));
        assert(all.take(i + 1).last() == all[i as int]);
        if !text::text_eq(disks[i].as_str(), disk_id) {
            let ghost before = text::texts(r@);
            let one = text::concat("/dev/", disks[i].as_str());
            r.push(one);
            assert(text::texts(r@) =~= before.push(one@));
        }
        i += 1;
    }
    assert(all.take(n as int) =~= all);
    r
}

/// The partitions of a disk that the program lists which ran with or without success and printed
/// this list.
pub open spec fn partitions_told(
    success: bool,
    list: std::result::Result<Seq<tree::TreeNodeView>, Seq<char>>,
    disk_id: Seq<char>,
) -> std::result::Result<Seq<Seq<char>>, error::ErrorView> {
    if !success {
        Ok(Seq::empty())
    } else {
        match list {
            Err(e) => Err(plist_error(e)),
            Ok(nodes) => Ok(
                other_disks(strings_at(nodes, tree::elements(nodes, 0, "AllDisks"@)), disk_id),
            ),
        }
    }
}

/// The partitions of a disk that the program lists which ran with or without success and printed
/// this list.
pub fn partitions_in(
    success: bool,
    list: std::result::Result<Vec<TreeNode>, String>,
    disk_id: &str,
) -> (r: Result<Vec<String>>)
    ensures
        match partitions_told(success, lists::list_result(list), disk_id@) {
            Ok(parts) => r is Ok && text::texts(r->Ok_0@) == parts,
            Err(e) => r is Err && r->Err_0@ == e,
        },
{
    if !success {
        let none: Vec<String> = Vec::new();
        assert(text::texts(none@) =~= Seq::empty());
        return Ok(none);
    }
    match list {
        Err(e) => Err(Error::Other(text::concat("plist parse: ", e.as_str()))),
        Ok(nodes) => {
            let disks = strings_in(&nodes, "AllDisks");
            Ok(paths_of_others(&disks, disk_id))
        },
    }
}

/// The partitions of a disk that the program lists which ran with or without success and printed
/// `data`.
pub fn read_partitions(success: bool, data: &[u8], disk_id: &str) -> (r: Result<Vec<String>>)
    requires
        success ==> lists::is_tame(data@),
    ensures
        match partitions_told(success, lists::plist_tree(data@), disk_id@) {
            Ok(parts) => r is Ok && text::texts(r->Ok_0@) == parts,
            Err(e) => r is Err && r->Err_0@ == e,
        },
{
    partitions_in(success, read_answer(success, data), disk_id)
}

/// The drive with this identifier, name, size and partitions.
pub fn make_drive(disk_id: &str, name: String, size: u64, partitions: Vec<String>) -> (r: UsbDrive)
    ensures
        r@ == (models::UsbDriveView {
            device: "/dev/"@ + disk_id@,
            name: name@,
            size,
            partitions: text::texts(partitions@),
        }),
{
    UsbDrive { device: text::concat("/dev/", disk_id), name, size, partitions }
}

} // verus!
