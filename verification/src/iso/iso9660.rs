//! The directories of an ISO 9660 file system.

use crate::bytes;
use crate::iso::entry;
use crate::iso::entry::IsoEntry;
use crate::iso::names;
use vstd::prelude::*;

verus! {

/// The place after `off` where the next sector begins.
pub open spec fn next_sector(off: int) -> int {
    (off / 2048 + 1) * 2048
}

/// The length of the identifier in the record at `off`.
pub open spec fn id_len(data: Seq<u8>, off: int) -> int {
    data[off + 32] as int
}

/// The record at `off` is the one for the directory itself or for its parent.
pub open spec fn is_self_or_parent(data: Seq<u8>, off: int) -> bool {
    id_len(data, off) == 1 && data[off + 33] <= 1
}

/// The record at `off` holds all its fields, and a Joliet name whole characters.
pub open spec fn is_sound(data: Seq<u8>, off: int, joliet: bool) -> bool {
    &&& data[off] >= 33
    &&& 33 + id_len(data, off) <= data[off]
    &&& joliet && !is_self_or_parent(data, off) ==> id_len(data, off) % 2 == 0
}

/// The entry that the record at `off` describes.
pub open spec fn record_entry(
    data: Seq<u8>,
    off: int,
    joliet: bool,
    prefix: Seq<char>,
) -> entry::IsoEntryView {
    let id = data.subrange(off + 33, off + 33 + id_len(data, off));
    let name = if joliet {
        names::ucs2_name(id)
    } else {
        names::plain_name(id)
    };
    let is_dir = data[off + 25] / 2 % 2 == 1;
    let length = bytes::u32_at(data, off + 10) as u64;
    entry::IsoEntryView {
        path: names::child_path(prefix, name),
        size: if is_dir {
            0
        } else {
            length
        },
        is_dir,
        extent_lba: bytes::u32_at(data, off + 2),
        data_length: length,
        alloc_descs: Seq::empty(),
    }
}

/// What the records from `off` on describe. A record never crosses the end of the directory,
/// and a zero fills the rest of a sector.
pub open spec fn records(
    data: Seq<u8>,
    off: int,
    joliet: bool,
    prefix: Seq<char>,
) -> entry::Listing
    decreases entry::bytes_left(data.len(), off),
{
    if off < 0 || off >= data.len() {
        entry::Listing::Listed(Seq::empty())
    } else if data[off] == 0 {
        records(data, next_sector(off), joliet, prefix)
    } else if off + data[off] > data.len() {
        entry::Listing::Listed(Seq::empty())
    } else if !is_sound(data, off, joliet) {
        entry::Listing::Stuck
    } else if is_self_or_parent(data, off) {
        records(data, off + data[off], joliet, prefix)
    } else {
        entry::after(
            seq![record_entry(data, off, joliet, prefix)],
            records(data, off + data[off], joliet, prefix),
        )
    }
}

/// Reads the record at `off`.
fn read_record(data: &[u8], off: usize, joliet: bool, prefix: &str) -> (r: IsoEntry)
    requires
        off + data@[off as int] <= data@.len(),
        is_sound(data@, off as int, joliet),
        !is_self_or_parent(data@, off as int),
    ensures
        r@ == record_entry(data@, off as int, joliet, prefix@),
{
    assert(data@.len() == data.len());
    let len: usize = data[off + 32] as usize;
    let id: &[u8] = &data[off + 33..off + 33 + len];
    let name = if joliet {
        names::decode_ucs2_be(id)
    } else {
        names::decode_plain(id)
    };
    let flags: u8 = data[off + 25];
    let is_dir: bool = flags / 2 % 2 == 1;
    let length: u64 = bytes::get_u32(data, off + 10) as u64;
    let path = names::join_path(prefix, name.as_str());
    let alloc_descs: Vec<(u32, u32)> = Vec::new();
    assert(alloc_descs@ =~= Seq::empty());
    IsoEntry {
        path,
        size: if is_dir {
            0
        } else {
            length
        },
        is_dir,
        extent_lba: bytes::get_u32(data, off + 2),
        data_length: length,
        alloc_descs,
    }
}

/// Reads the records of a directory and appends what they describe; false where a record runs
/// over its end.
pub fn read_directory(
    data: &[u8],
    joliet: bool,
    prefix: &str,
    entries: &mut Vec<IsoEntry>,
) -> (r: bool)
    ensures
        match records(data@, 0, joliet, prefix@) {
            entry::Listing::Listed(es) => {
                &&& r
                &&& entry::views(final(entries)@) == entry::views(old(entries)@) + es
                &&& forall|k: int|
                    0 <= k < es.len() ==> (#[trigger] es[k]).alloc_descs == Seq::<(u32, u32)>::empty()
            },
            entry::Listing::Failed(_) => false,
            entry::Listing::Stuck => !r,
        },
{
    let n: usize = data.len();
    let ghost first = entry::views(entries@);
    let ghost mut found: Seq<entry::IsoEntryView> = Seq::empty();
    let mut off: usize = 0;
    proof {
        lemma_after_nothing(records(data@, 0, joliet, prefix@));
        lemma_never_fails(data@, 0, joliet, prefix@);
        assert(first + found =~= first);
    }
    while off < n
        invariant
            off <= n,
            n == data@.len(),
            first == entry::views(old(entries)@),
            entry::views(entries@) == first + found,
            entry::after(found, records(data@, off as int, joliet, prefix@)) == records(
                data@,
                0,
                joliet,
                prefix@,
            ),
            !(records(data@, off as int, joliet, prefix@) is Failed),
            forall|k: int|
                0 <= k < found.len() ==> (#[trigger] found[k]).alloc_descs == Seq::<
                    (u32, u32),
                >::empty(),
        decreases n - off,
    {
        let len: usize = data[off] as usize;
        proof {
            lemma_never_fails(data@, off as int, joliet, prefix@);
        }
        if len == 0 {
            let rest: usize = 2048 - off % 2048;
            assert(off + rest == next_sector(off as int));
            proof {
                lemma_never_fails(data@, next_sector(off as int), joliet, prefix@);
            }
            if n - off <= rest {
                off = n;
            } else {
                off += rest;
            }
            continue;
        }
        if len > n - off {
            proof {
                lemma_after_end(found);
            }
            return true;
        }
        let id: usize = if len >= 33 {
            data[off + 32] as usize
        } else {
            0
        };
        if len < 33 || 33 + id > len {
            return false;
        }
        if id == 1 && data[off + 33] <= 1 {
            off += len;
            continue;
        }
        if joliet && id % 2 != 0 {
            return false;
        }
        let one = read_record(data, off, joliet, prefix);
        let ghost so_far = entry::views(entries@);
        proof {
            lemma_after_after(
                found,
                one@,
                records(data@, off + len, joliet, prefix@),
            );
            found = found.push(one@);
        }
        entries.push(one);
        assert(entry::views(entries@) =~= so_far.push(one@));
        assert(so_far.push(one@) =~= first + found);
        off += len;
    }
    proof {
        lemma_after_end(found);
    }
    true
}

proof fn lemma_never_fails(data: Seq<u8>, off: int, joliet: bool, prefix: Seq<char>)
    ensures
        !(records(data, off, joliet, prefix) is Failed),
    decreases entry::bytes_left(data.len(), off),
{
    if 0 <= off < data.len() {
        if data[off] == 0 {
            lemma_never_fails(data, next_sector(off), joliet, prefix);
        } else {
            lemma_never_fails(data, off + data[off], joliet, prefix);
        }
    }
}

/// A listing with nothing before it is itself.
pub proof fn lemma_after_nothing(l: entry::Listing)
    ensures
        entry::after(Seq::empty(), l) == l,
{
    if let entry::Listing::Listed(s) = l {
        assert(Seq::<entry::IsoEntryView>::empty() + s =~= s);
    }
}

/// Nothing comes after the end.
pub proof fn lemma_after_end(es: Seq<entry::IsoEntryView>)
    ensures
        entry::after(es, entry::Listing::Listed(Seq::empty())) == entry::Listing::Listed(es),
{
    assert(es + Seq::<entry::IsoEntryView>::empty() =~= es);
}

/// One more entry before a listing.
pub proof fn lemma_after_after(
    es: Seq<entry::IsoEntryView>,
    e: entry::IsoEntryView,
    l: entry::Listing,
)
    ensures
        entry::after(es, entry::after(seq![e], l)) == entry::after(es.push(e), l),
{
    if let entry::Listing::Listed(s) = l {
        assert(es + (seq![e] + s) =~= es.push(e) + s);
    }
}

} // verus!
