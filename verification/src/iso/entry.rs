//! The files and directories of an image.

use crate::error;
use vstd::prelude::*;

verus! {

/// A file or directory in an image.
#[derive(Debug, Clone)]
pub struct IsoEntry {
    /// Its path, with slashes between the names.
    pub path: String,
    /// The size of a file; zero for a directory.
    pub size: u64,
    pub is_dir: bool,
    /// The block where it begins.
    pub extent_lba: u32,
    /// The length of its data.
    pub data_length: u64,
    /// The extents of its data, each a block and a length, where they are listed.
    pub alloc_descs: Vec<(u32, u32)>,
}

/// A file or directory in an image.
pub struct IsoEntryView {
    pub path: Seq<char>,
    pub size: u64,
    pub is_dir: bool,
    pub extent_lba: u32,
    pub data_length: u64,
    pub alloc_descs: Seq<(u32, u32)>,
}

impl View for IsoEntry {
    type V = IsoEntryView;

    open spec fn view(&self) -> IsoEntryView {
        IsoEntryView {
            path: self.path@,
            size: self.size,
            is_dir: self.is_dir,
            extent_lba: self.extent_lba,
            data_length: self.data_length,
            alloc_descs: self.alloc_descs@,
        }
    }
}

impl IsoEntryView {
    /// The extents are those that one file entry can list.
    pub open spec fn wf(self) -> bool {
        &&& self.alloc_descs.len() <= 256
        &&& forall|k: int|
            0 <= k < self.alloc_descs.len() ==> 0 < (#[trigger] self.alloc_descs[k]).1 < 0x4000_0000
    }
}

/// The entries of a list.
pub open spec fn views(v: Seq<IsoEntry>) -> Seq<IsoEntryView> {
    v.map_values(|x: IsoEntry| x@)
}

/// How much of `len` bytes follows `off`.
pub open spec fn bytes_left(len: nat, off: int) -> nat {
    if off < len {
        (len - off) as nat
    } else {
        0
    }
}

/// What comes of walking through directories.
pub enum Listing {
    /// Everything was read.
    Listed(Seq<IsoEntryView>),
    /// Reading failed.
    Failed(error::ErrorView),
    /// A record runs over its end, or the directories do not end.
    Stuck,
}

/// The listing that has `es` before it.
pub open spec fn after(es: Seq<IsoEntryView>, l: Listing) -> Listing {
    match l {
        Listing::Listed(rest) => Listing::Listed(es + rest),
        other => other,
    }
}

/// A directory that is still to be read.
pub struct DirView {
    pub lba: u32,
    pub length: u64,
    pub path: Seq<char>,
}

/// The directories among the entries, in order.
pub open spec fn subdirs(es: Seq<IsoEntryView>) -> Seq<DirView>
    decreases es.len(),
{
    if es.len() == 0 {
        Seq::empty()
    } else {
        let rest = subdirs(es.drop_first());
        if es[0].is_dir {
            seq![DirView { lba: es[0].extent_lba, length: es[0].data_length, path: es[0].path }]
                + rest
        } else {
            rest
        }
    }
}

/// Contracts speak of an entry by all that it holds.
pub proof fn law_view(v: Seq<IsoEntry>, i: int)
    ensures
        views(v).len() == v.len(),
        0 <= i < v.len() ==> {
            let e = views(v)[i];
            &&& e.path == v[i].path@
            &&& e.size == v[i].size
            &&& e.is_dir == v[i].is_dir
            &&& e.extent_lba == v[i].extent_lba
            &&& e.data_length == v[i].data_length
            &&& e.alloc_descs == v[i].alloc_descs@
        },
{
}

} // verus!
