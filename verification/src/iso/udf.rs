//! The directories of a UDF file system.

use crate::bytes;
use crate::error;
use crate::iso::entry;
use crate::iso::entry::IsoEntry;
use crate::iso::iso9660;
use crate::iso::names;
use crate::iso::volume;
use crate::source;
use crate::text;
use vstd::prelude::*;

verus! {

// ---------------------------------------------------------------------------
// File entries
// ---------------------------------------------------------------------------
/// The recorded extents among `n` short allocation descriptors from `off` on, each a block and
/// a length.
pub open spec fn ads_from(fe: Seq<u8>, off: int, n: nat) -> Seq<(u32, u32)>
    decreases n,
{
    if n == 0 || off + 8 > fe.len() {
        Seq::empty()
    } else {
        let raw = bytes::u32_at(fe, off);
        let rest = ads_from(fe, off + 8, (n - 1) as nat);
        if raw / 0x4000_0000 == 0 && raw > 0 {
            seq![(bytes::u32_at(fe, off + 4), raw)] + rest
        } else {
            rest
        }
    }
}

/// The extents that a file entry lists; none where its descriptors are not short ones.
pub open spec fn short_ads(fe: Seq<u8>) -> Seq<(u32, u32)> {
    if bytes::u16_at(fe, 34) % 8 != 0 {
        Seq::empty()
    } else {
        ads_from(fe, 176 + bytes::u32_at(fe, 168), (bytes::u32_at(fe, 172) / 8) as nat)
    }
}

/// Where the block that a list of extents begins with lies; zero where there is none.
pub open spec fn first_block(descs: Seq<(u32, u32)>) -> u32 {
    if descs.len() > 0 {
        descs[0].0
    } else {
        0
    }
}

proof fn lemma_ads(fe: Seq<u8>, off: int, n: nat)
    requires
        0 <= off,
    ensures
        off <= fe.len() ==> 8 * ads_from(fe, off, n).len() <= fe.len() - off,
        off > fe.len() ==> ads_from(fe, off, n).len() == 0,
        forall|k: int|
            0 <= k < ads_from(fe, off, n).len() ==> 0 < (#[trigger] ads_from(fe, off, n)[k]).1
                < 0x4000_0000,
    decreases n,
{
    if n == 0 || off + 8 > fe.len() {
    } else {
        lemma_ads(fe, off + 8, (n - 1) as nat);
    }
}

/// The extents that a file entry lists.
pub fn parse_short_ads(fe: &[u8]) -> (r: Vec<(u32, u32)>)
    requires
        176 <= fe@.len(),
    ensures
        r@ == short_ads(fe@),
        fe@.len() <= volume::SECTOR_SIZE ==> r@.len() <= 256,
        forall|k: int| 0 <= k < r@.len() ==> 0 < (#[trigger] r@[k]).1 < 0x4000_0000,
{
    let mut r: Vec<(u32, u32)> = Vec::new();
    assert(r@ =~= Seq::empty());
    let flags: u16 = bytes::get_u16(fe, 34);
    let kind: u16 = flags & 0x07;
    assert(kind == flags % 8) by (bit_vector)
        requires
            kind == flags & 0x07,
    ;
    if kind != 0 {
        return r;
    }
    let end: u64 = fe.len() as u64;
    let n: u64 = bytes::get_u32(fe, 172) as u64 / 8;
    let start: u64 = 176 + bytes::get_u32(fe, 168) as u64;
    let mut off: u64 = start;
    let mut i: u64 = 0;
    let ghost all = ads_from(fe@, off as int, n as nat);
    proof {
        lemma_ads(fe@, off as int, n as nat);
        assert(r@ + all =~= all);
    }
    while i < n && off + 8 <= end
        invariant
            i <= n,
            n <= 0x2000_0000,
            end == fe@.len(),
            end <= usize::MAX,
            off == start + 8 * i,
            176 <= start <= 0x1_0000_00AF,
            all == short_ads(fe@),
            r@ + ads_from(fe@, off as int, (n - i) as nat) == all,
        decreases n - i,
    {
        let at: usize = off as usize;
        let raw: u32 = bytes::get_u32(fe, at);
        let pos: u32 = bytes::get_u32(fe, at + 4);
        let len: u32 = raw & 0x3FFF_FFFF;
        let flag: u32 = (raw >> 30) & 0x03;
        assert(len == raw % 0x4000_0000 && flag == raw / 0x4000_0000) by (bit_vector)
            requires
                len == raw & 0x3FFF_FFFF,
                flag == (raw >> 30) & 0x03,
        ;
        let ghost rest = ads_from(fe@, off + 8, (n - i - 1) as nat);
        let ghost before = r@;
        if flag == 0 && len > 0 {
            r.push((pos, len));
            assert(r@ + rest =~= before + (seq![(pos, len)] + rest));
        }
        off += 8;
        i += 1;
    }
    assert(r@ =~= all);
    r
}

// ---------------------------------------------------------------------------
// File identifiers
// ---------------------------------------------------------------------------
/// The length of the identifier in the descriptor at `off`.
pub open spec fn l_fi(data: Seq<u8>, off: int) -> int {
    data[off + 19] as int
}

/// The length of the part of the descriptor at `off` that is left to implementations.
pub open spec fn l_iu(data: Seq<u8>, off: int) -> int {
    bytes::u16_at(data, off + 36) as int
}

/// The descriptor at `off` names a file or directory, and not the parent.
pub open spec fn is_named(data: Seq<u8>, off: int) -> bool {
    data[off + 18] / 8 % 2 == 0 && l_fi(data, off) > 0
}

/// Where the descriptor after the one at `off` begins.
pub open spec fn next_fid(data: Seq<u8>, off: int) -> int {
    off + (38 + l_iu(data, off) + l_fi(data, off) + 3) / 4 * 4
}

/// The descriptors end before `off`.
pub open spec fn fids_end(data: Seq<u8>, off: int) -> bool {
    off + 38 > data.len() || bytes::u16_at(data, off) != 257
}

/// The identifier in the descriptor at `off` runs over the end of the directory.
pub open spec fn fid_overruns(data: Seq<u8>, off: int) -> bool {
    is_named(data, off) && off + 38 + l_iu(data, off) + l_fi(data, off) > data.len()
}

/// The path that the descriptor at `off` gives.
pub open spec fn fid_path(data: Seq<u8>, off: int, prefix: Seq<char>) -> Seq<char> {
    let from = off + 38 + l_iu(data, off);
    names::child_path(
        prefix,
        names::udf_name(data.subrange(from, from + l_fi(data, off))),
    )
}

/// The directory that the descriptor at `off` names.
pub open spec fn fid_directory(data: Seq<u8>, off: int, prefix: Seq<char>) -> entry::IsoEntryView {
    entry::IsoEntryView {
        path: fid_path(data, off, prefix),
        size: 0,
        is_dir: true,
        extent_lba: bytes::u32_at(data, off + 24),
        data_length: 0,
        alloc_descs: Seq::empty(),
    }
}

/// The file with this file entry, where it is one.
pub open spec fn file_entry(path: Seq<char>, fe: Seq<u8>) -> Seq<entry::IsoEntryView> {
    if bytes::u16_at(fe, 0) == 261 {
        seq![
            entry::IsoEntryView {
                path,
                size: bytes::u64_at(fe, 56),
                is_dir: false,
                extent_lba: first_block(short_ads(fe)),
                data_length: bytes::u64_at(fe, 56),
                alloc_descs: short_ads(fe),
            },
        ]
    } else {
        Seq::empty()
    }
}

/// What the descriptors from `off` on name. The file entry of each file is read on the way.
pub open spec fn children(
    img: Seq<u8>,
    ps: int,
    data: Seq<u8>,
    off: int,
    prefix: Seq<char>,
) -> entry::Listing
    decreases entry::bytes_left(data.len(), off),
{
    if off < 0 || fids_end(data, off) {
        entry::Listing::Listed(Seq::empty())
    } else if fid_overruns(data, off) {
        entry::Listing::Stuck
    } else {
        let rest = children(img, ps, data, next_fid(data, off), prefix);
        if !is_named(data, off) {
            rest
        } else if data[off + 18] / 2 % 2 == 1 {
            entry::after(seq![fid_directory(data, off, prefix)], rest)
        } else {
            match volume::sector_at(img, ps + bytes::u32_at(data, off + 24)) {
                None => entry::Listing::Failed(source::cut_short()),
                Some(fe) => entry::after(file_entry(fid_path(data, off, prefix), fe), rest),
            }
        }
    }
}

/// The bytes of the extents from the `i`-th on, one after another.
pub open spec fn gathered(img: Seq<u8>, ps: int, descs: Seq<(u32, u32)>, i: int) -> Option<
    Seq<u8>,
>
    decreases descs.len() - i,
{
    if i < 0 || i >= descs.len() {
        Some(Seq::empty())
    } else {
        match source::bytes_at(
            img,
            (ps + descs[i].0) * volume::SECTOR_SIZE,
            descs[i].1 as int,
        ) {
            None => None,
            Some(b) => match gathered(img, ps, descs, i + 1) {
                None => None,
                Some(rest) => Some(b + rest),
            },
        }
    }
}

/// The words for a block that should hold a file entry and does not.
pub open spec fn no_file_entry(lba: nat, tag: u16) -> error::ErrorView {
    error::ErrorView::Other(
        "Expected File Entry (261) at LBA "@ + text::decimal(lba) + ", got "@ + text::decimal(
            tag as nat,
        ),
    )
}

/// What a directory holds whose file entry is at `lba`.
pub open spec fn directory(img: Seq<u8>, ps: int, lba: int, prefix: Seq<char>) -> entry::Listing {
    match volume::sector_at(img, ps + lba) {
        None => entry::Listing::Failed(source::cut_short()),
        Some(fe) => if bytes::u16_at(fe, 0) != 261 {
            entry::Listing::Failed(no_file_entry((ps + lba) as nat, bytes::u16_at(fe, 0)))
        } else {
            match gathered(img, ps, short_ads(fe), 0) {
                None => entry::Listing::Failed(source::cut_short()),
                Some(data) => children(img, ps, data, 0, prefix),
            }
        },
    }
}

/// Where reading the descriptors of a directory stops.
#[derive(Debug)]
pub enum FidStop {
    /// At their end.
    End,
    /// At one that runs over the end of the directory.
    Overrun,
    /// At a file, whose file entry is at block `lba`; the next descriptor is at `next`.
    File { path: String, lba: u32, next: usize },
}

/// What comes of a directory from where reading its descriptors stopped.
pub open spec fn from_stop(
    img: Seq<u8>,
    ps: int,
    data: Seq<u8>,
    prefix: Seq<char>,
    stop: FidStop,
) -> entry::Listing {
    match stop {
        FidStop::End => entry::Listing::Listed(Seq::empty()),
        FidStop::Overrun => entry::Listing::Stuck,
        FidStop::File { path, lba, next } => from_file(
            img,
            ps,
            data,
            prefix,
            path@,
            lba,
            next as int,
        ),
    }
}

/// What comes of a directory from a file in it on.
pub open spec fn from_file(
    img: Seq<u8>,
    ps: int,
    data: Seq<u8>,
    prefix: Seq<char>,
    path: Seq<char>,
    lba: u32,
    next: int,
) -> entry::Listing {
    match volume::sector_at(img, ps + lba) {
        None => entry::Listing::Failed(source::cut_short()),
        Some(fe) => entry::after(file_entry(path, fe), children(img, ps, data, next, prefix)),
    }
}

/// What the descriptor at `off` adds to those from `next` on.
proof fn lemma_one_fid(
    img: Seq<u8>,
    ps: int,
    data: Seq<u8>,
    off: int,
    prefix: Seq<char>,
    next: int,
)
    requires
        0 <= off,
        !fids_end(data, off),
        !fid_overruns(data, off),
        next == next_fid(data, off) || next == data.len() && next_fid(data, off) > next,
    ensures
        children(img, ps, data, off, prefix) == if !is_named(data, off) {
            children(img, ps, data, next, prefix)
        } else if data[off + 18] / 2 % 2 == 1 {
            entry::after(
                seq![fid_directory(data, off, prefix)],
                children(img, ps, data, next, prefix),
            )
        } else {
            from_file(
                img,
                ps,
                data,
                prefix,
                fid_path(data, off, prefix),
                bytes::u32_at(data, off + 24),
                next,
            )
        },
{
    reveal_with_fuel(children, 2);
    assert(children(img, ps, data, next, prefix) == children(
        img,
        ps,
        data,
        next_fid(data, off),
        prefix,
    ));
}

/// Reads descriptors from `start` on up to the next file, and appends the directories before it.
pub fn read_fids(
    data: &[u8],
    start: usize,
    prefix: &str,
    entries: &mut Vec<IsoEntry>,
) -> (r: FidStop)
    ensures
        final(entries)@.len() >= old(entries)@.len(),
        entry::views(final(entries)@).take(old(entries)@.len() as int) == entry::views(
            old(entries)@,
        ),
        forall|k: int|
            old(entries)@.len() <= k < final(entries)@.len() ==> (#[trigger] final(entries)@[k])@.alloc_descs
                == Seq::<(u32, u32)>::empty(),
        r matches FidStop::File { next, .. } ==> start < next && start < data@.len(),
        forall|img: Seq<u8>, ps: int|
            #[trigger] children(img, ps, data@, start as int, prefix@) == entry::after(
                entry::views(final(entries)@).skip(old(entries)@.len() as int),
                from_stop(img, ps, data@, prefix@, r),
            ),
{
    let n: usize = data.len();
    let ghost first = entry::views(entries@);
    let ghost mut found: Seq<entry::IsoEntryView> = Seq::empty();
    let mut off: usize = start;
    proof {
        assert(first + found =~= first);
        assert forall|img: Seq<u8>, ps: int|
            #[trigger] children(img, ps, data@, start as int, prefix@) == entry::after(
                found,
                children(img, ps, data@, off as int, prefix@),
            ) by {
            iso9660::lemma_after_nothing(children(img, ps, data@, off as int, prefix@));
        }
    }
    loop
        invariant
            n == data@.len(),
            start <= off,
            first == entry::views(old(entries)@),
            entry::views(entries@) == first + found,
            entries@.len() == old(entries)@.len() + found.len(),
            forall|k: int|
                0 <= k < found.len() ==> (#[trigger] found[k]).alloc_descs == Seq::<
                    (u32, u32),
                >::empty(),
            forall|img: Seq<u8>, ps: int|
                #[trigger] children(img, ps, data@, start as int, prefix@) == entry::after(
                    found,
                    children(img, ps, data@, off as int, prefix@),
                ),
        decreases n - off,
    {
        proof {
            assert(entry::views(entries@).take(old(entries)@.len() as int) =~= first);
            assert(entry::views(entries@).skip(old(entries)@.len() as int) =~= found);
            assert forall|k: int|
                old(entries)@.len() <= k < entries@.len() implies (#[trigger] entries@[k])@.alloc_descs
                == Seq::<(u32, u32)>::empty() by {
                assert(entry::views(entries@)[k] == found[k - old(entries)@.len()]);
            }
        }
        if off > n || n - off < 38 || bytes::get_u16(data, off) != 257 {
            return FidStop::End;
        }
        let chars: u8 = data[off + 18];
        let id: usize = data[off + 19] as usize;
        let lba: u32 = bytes::get_u32(data, off + 24);
        let iu: usize = bytes::get_u16(data, off + 36) as usize;
        let named: bool = chars / 8 % 2 == 0 && id > 0;
        let step: usize = (38 + iu + id + 3) / 4 * 4;
        if named && n - off - 38 < iu + id {
            return FidStop::Overrun;
        }
        let next: usize = if n - off < step {
            n
        } else {
            off + step
        };
        if !named {
            proof {
                assert forall|img: Seq<u8>, ps: int|
                    #[trigger] children(img, ps, data@, start as int, prefix@) == entry::after(
                        found,
                        children(img, ps, data@, next as int, prefix@),
                    ) by {
                    lemma_one_fid(img, ps, data@, off as int, prefix@, next as int);
                }
            }
            off = next;
            continue;
        }
        let from: usize = off + 38 + iu;
        let name = names::decode_udf_name(&data[from..from + id]);
        let path = names::join_path(prefix, name.as_str());
        assert(path@ == fid_path(data@, off as int, prefix@));
        if chars / 2 % 2 == 1 {
            let alloc_descs: Vec<(u32, u32)> = Vec::new();
            assert(alloc_descs@ =~= Seq::empty());
            let one = IsoEntry {
                path,
                size: 0,
                is_dir: true,
                extent_lba: lba,
                data_length: 0,
                alloc_descs,
            };
            let ghost so_far = entry::views(entries@);
            proof {
                assert(one@ == fid_directory(data@, off as int, prefix@));
                assert forall|img: Seq<u8>, ps: int|
                    #[trigger] children(img, ps, data@, start as int, prefix@) == entry::after(
                        found.push(one@),
                        children(img, ps, data@, next as int, prefix@),
                    ) by {
                    lemma_one_fid(img, ps, data@, off as int, prefix@, next as int);
                    iso9660::lemma_after_after(
                        found,
                        one@,
                        children(img, ps, data@, next as int, prefix@),
                    );
                }
                found = found.push(one@);
            }
            entries.push(one);
            assert(entry::views(entries@) =~= so_far.push(one@));
            assert(so_far.push(one@) =~= first + found);
            off = next;
        } else {
            proof {
                assert forall|img: Seq<u8>, ps: int|
                    #[trigger] children(img, ps, data@, start as int, prefix@) == entry::after(
                        found,
                        from_file(img, ps, data@, prefix@, path@, lba, next as int),
                    ) by {
                    lemma_one_fid(img, ps, data@, off as int, prefix@, next as int);
                }
            }
            return FidStop::File { path, lba, next };
        }
    }
}

} // verus!
