//! What holds of the listing of an image and of its files as a whole.

use crate::bytes;
use crate::error;
use crate::iso::entry;
use crate::iso::iso9660;
use crate::iso::names;
use crate::iso::reader;
use crate::iso::udf;
use crate::iso::volume;
use crate::iso::volume::IsoFormat;
use crate::iso::walk;
use crate::source;
use crate::text;
use vstd::prelude::*;

verus! {

// ---------------------------------------------------------------------------
// Paths
// ---------------------------------------------------------------------------
/// The path of something in a directory is the whole path of the directory, a slash, and the name;
/// in the root, whose path is empty, it is the name.
pub proof fn law_child_path(prefix: Seq<char>, name: Seq<char>)
    ensures
        prefix.len() > 0 ==> names::child_path(prefix, name) == prefix + seq!['/'] + name,
        prefix.len() == 0 ==> names::child_path(prefix, name) == name,
{
    reveal_strlit("/");
    assert("/"@ =~= seq!['/']);
}

/// What a directory would list if it lay at the root, with its own path and a slash before each
/// path.
pub open spec fn moved(prefix: Seq<char>, l: entry::Listing) -> entry::Listing {
    match l {
        entry::Listing::Listed(es) => entry::Listing::Listed(
            es.map_values(
                |e: entry::IsoEntryView|
                    entry::IsoEntryView { path: prefix + seq!['/'] + e.path, ..e },
            ),
        ),
        other => other,
    }
}

/// Every entry that is listed in a directory has the whole path of that directory, a slash and its
/// name as its path, whatever the path of the directory is: the listing is that of the same
/// directory at the root, with this before each name.
pub proof fn law_paths_in_directory(img: Seq<u8>, fmt: IsoFormat, d: entry::DirView)
    requires
        d.path.len() > 0,
    ensures
        ({
            let at_root = entry::DirView { path: Seq::empty(), ..d };
            walk::dir_listing(img, fmt, d) == moved(
                d.path,
                walk::dir_listing(img, fmt, at_root),
            )
        }),
        walk::dir_listing(img, fmt, d) matches entry::Listing::Listed(es) ==> forall|k: int|
            0 <= k < es.len() ==> (#[trigger] es[k]).path.len() > d.path.len() && es[k].path.take(
                d.path.len() as int,
            ) == d.path && es[k].path[d.path.len() as int] == '/',
{
    match fmt {
        IsoFormat::Iso9660 { joliet, .. } => {
            if let Some(data) = source::bytes_at(
                img,
                d.lba * volume::SECTOR_SIZE,
                d.length as int,
            ) {
                lemma_records_moved(data, 0, joliet, d.path);
            }
        },
        IsoFormat::Udf { partition_start, .. } => {
            let ps = partition_start as int;
            if let Some(fe) = volume::sector_at(img, ps + d.lba) {
                if let Some(data) = udf::gathered(img, ps, udf::short_ads(fe), 0) {
                    lemma_children_moved(img, ps, data, 0, d.path);
                }
            }
        },
    }
    if let entry::Listing::Listed(es) = walk::dir_listing(img, fmt, d) {
        let at_root = entry::DirView { path: Seq::empty(), ..d };
        let rs = walk::dir_listing(img, fmt, at_root)->Listed_0;
        assert forall|k: int| 0 <= k < es.len() implies (#[trigger] es[k]).path.len() > d.path.len()
            && es[k].path.take(d.path.len() as int) == d.path && es[k].path[d.path.len() as int]
            == '/' by {
            assert(es[k].path == d.path + seq!['/'] + rs[k].path);
            assert(es[k].path.take(d.path.len() as int) =~= d.path);
        }
    }
}

proof fn lemma_moved_after(prefix: Seq<char>, es: Seq<entry::IsoEntryView>, l: entry::Listing)
    ensures
        moved(prefix, entry::after(es, l)) == entry::after(
            moved(prefix, entry::Listing::Listed(es))->Listed_0,
            moved(prefix, l),
        ),
{
    if let entry::Listing::Listed(rest) = l {
        let f = |e: entry::IsoEntryView|
            entry::IsoEntryView { path: prefix + seq!['/'] + e.path, ..e };
        assert((es + rest).map_values(f) =~= es.map_values(f) + rest.map_values(f));
    }
}

proof fn lemma_records_moved(data: Seq<u8>, off: int, joliet: bool, prefix: Seq<char>)
    requires
        prefix.len() > 0,
    ensures
        iso9660::records(data, off, joliet, prefix) == moved(
            prefix,
            iso9660::records(data, off, joliet, Seq::empty()),
        ),
    decreases entry::bytes_left(data.len(), off),
{
    let none = Seq::<char>::empty();
    if off < 0 || off >= data.len() {
        assert(moved(prefix, entry::Listing::Listed(Seq::empty())) == entry::Listing::Listed(
            Seq::empty(),
        )) by {
            assert(moved(prefix, entry::Listing::Listed(Seq::empty()))->Listed_0 =~= Seq::empty());
        }
    } else if data[off] == 0 {
        lemma_records_moved(data, iso9660::next_sector(off), joliet, prefix);
    } else if off + data[off] > data.len() {
        assert(moved(prefix, entry::Listing::Listed(Seq::empty())) == entry::Listing::Listed(
            Seq::empty(),
        )) by {
            assert(moved(prefix, entry::Listing::Listed(Seq::empty()))->Listed_0 =~= Seq::empty());
        }
    } else if !iso9660::is_sound(data, off, joliet) {
    } else {
        lemma_records_moved(data, off + data[off], joliet, prefix);
        if !iso9660::is_self_or_parent(data, off) {
            let one = seq![iso9660::record_entry(data, off, joliet, none)];
            let rest = iso9660::records(data, off + data[off], joliet, none);
            lemma_moved_after(prefix, one, rest);
            let id = data.subrange(off + 33, off + 33 + iso9660::id_len(data, off));
            let name = if joliet {
                names::ucs2_name(id)
            } else {
                names::plain_name(id)
            };
            law_child_path(prefix, name);
            law_child_path(none, name);
            assert(moved(prefix, entry::Listing::Listed(one))->Listed_0 =~= seq![
                iso9660::record_entry(data, off, joliet, prefix),
            ]);
        }
    }
}

proof fn lemma_children_moved(img: Seq<u8>, ps: int, data: Seq<u8>, off: int, prefix: Seq<char>)
    requires
        prefix.len() > 0,
    ensures
        udf::children(img, ps, data, off, prefix) == moved(
            prefix,
            udf::children(img, ps, data, off, Seq::empty()),
        ),
    decreases entry::bytes_left(data.len(), off),
{
    let none = Seq::<char>::empty();
    if off < 0 || udf::fids_end(data, off) {
        assert(moved(prefix, entry::Listing::Listed(Seq::empty())) == entry::Listing::Listed(
            Seq::empty(),
        )) by {
            assert(moved(prefix, entry::Listing::Listed(Seq::empty()))->Listed_0 =~= Seq::empty());
        }
    } else if udf::fid_overruns(data, off) {
    } else {
        let next = udf::next_fid(data, off);
        lemma_children_moved(img, ps, data, next, prefix);
        let rest = udf::children(img, ps, data, next, none);
        if udf::is_named(data, off) {
            let from = off + 38 + udf::l_iu(data, off);
            let name = names::udf_name(data.subrange(from, from + udf::l_fi(data, off)));
            law_child_path(prefix, name);
            law_child_path(none, name);
            if data[off + 18] / 2 % 2 == 1 {
                let one = seq![udf::fid_directory(data, off, none)];
                lemma_moved_after(prefix, one, rest);
                assert(moved(prefix, entry::Listing::Listed(one))->Listed_0 =~= seq![
                    udf::fid_directory(data, off, prefix),
                ]);
            } else if let Some(fe) = volume::sector_at(
                img,
                ps + bytes::u32_at(data, off + 24),
            ) {
                let one = udf::file_entry(udf::fid_path(data, off, none), fe);
                lemma_moved_after(prefix, one, rest);
                assert(moved(prefix, entry::Listing::Listed(one))->Listed_0 =~= udf::file_entry(
                    udf::fid_path(data, off, prefix),
                    fe,
                ));
            }
        }
    }
}

/// The path lies under that of a directory: it begins with the directory's and a slash.
pub open spec fn lies_under(dir: Seq<char>, path: Seq<char>) -> bool {
    path.len() > dir.len() && path.take(dir.len() as int) == dir && path[dir.len() as int] == '/'
}

/// Everything that is found in some directories and those within them lies under one of these
/// directories.
pub proof fn law_found_under(
    img: Seq<u8>,
    fmt: IsoFormat,
    dirs: Seq<entry::DirView>,
    fuel: nat,
    k: int,
)
    requires
        forall|q: int| 0 <= q < dirs.len() ==> (#[trigger] dirs[q]).path.len() > 0,
        walk::walk(img, fmt, dirs, fuel) is Listed,
        0 <= k < walk::walk(img, fmt, dirs, fuel)->Listed_0.len(),
    ensures
        exists|q: int|
            0 <= q < dirs.len() && lies_under(
                (#[trigger] dirs[q]).path,
                walk::walk(img, fmt, dirs, fuel)->Listed_0[k].path,
            ),
    decreases fuel,
{
    let d = dirs[0];
    let es = walk::dir_listing(img, fmt, d)->Listed_0;
    law_paths_in_directory(img, fmt, d);
    if k < es.len() {
        assert(lies_under(dirs[0].path, es[k].path));
    } else {
        let next = entry::subdirs(es) + dirs.skip(1);
        assert forall|q: int| 0 <= q < next.len() implies (#[trigger] next[q]).path.len() > 0 by {
            if q < entry::subdirs(es).len() {
                lemma_subdirs(es, q);
                let m = choose|m: int|
                    0 <= m < es.len() && (#[trigger] es[m]).path == entry::subdirs(es)[q].path
                        && es[m].is_dir;
                assert(es[m].path.len() > 0);
            } else {
                assert(next[q] == dirs[q - entry::subdirs(es).len() + 1]);
            }
        }
        law_found_under(img, fmt, next, (fuel - 1) as nat, k - es.len());
        let found = walk::walk(img, fmt, next, (fuel - 1) as nat)->Listed_0[k - es.len()];
        let q = choose|q: int|
            0 <= q < next.len() && lies_under((#[trigger] next[q]).path, found.path);
        if q < entry::subdirs(es).len() {
            lemma_subdirs(es, q);
            let m = choose|m: int|
                0 <= m < es.len() && (#[trigger] es[m]).path == entry::subdirs(es)[q].path
                    && es[m].is_dir;
            lemma_under_under(d.path, es[m].path, found.path);
            assert(lies_under(dirs[0].path, found.path));
        } else {
            let r = q - entry::subdirs(es).len() + 1;
            assert(next[q] == dirs[r]);
            assert(lies_under(dirs[r].path, found.path));
        }
    }
}

/// Everything that is listed of an image is in its root directory, or lies under a directory that
/// is listed there.
pub proof fn law_listed_under_listed(img: Seq<u8>, fmt: IsoFormat, fuel: nat, k: int)
    requires
        walk::image_listing(img, fmt, fuel) is Listed,
        0 <= k < walk::image_listing(img, fmt, fuel)->Listed_0.len(),
        walk::dir_listing(img, fmt, walk::root_dir(fmt)) matches entry::Listing::Listed(es) && forall|m: int|
            0 <= m < es.len() && (#[trigger] es[m]).is_dir ==> es[m].path.len() > 0,
    ensures
        ({
            let all = walk::image_listing(img, fmt, fuel)->Listed_0;
            let es = walk::dir_listing(img, fmt, walk::root_dir(fmt))->Listed_0;
            ||| k < es.len() && all[k] == es[k]
            ||| exists|m: int|
                0 <= m < es.len() && (#[trigger] es[m]).is_dir && lies_under(
                    es[m].path,
                    all[k].path,
                )
        }),
{
    let dirs = seq![walk::root_dir(fmt)];
    let es = walk::dir_listing(img, fmt, dirs[0])->Listed_0;
    if k >= es.len() {
        let next = entry::subdirs(es) + dirs.skip(1);
        assert(next =~= entry::subdirs(es));
        assert forall|q: int| 0 <= q < next.len() implies (#[trigger] next[q]).path.len() > 0 by {
            lemma_subdirs(es, q);
            let m = choose|m: int|
                0 <= m < es.len() && (#[trigger] es[m]).path == next[q].path && es[m].is_dir;
            assert(es[m].is_dir);
        }
        law_found_under(img, fmt, next, (fuel - 1) as nat, k - es.len());
        let found = walk::walk(img, fmt, next, (fuel - 1) as nat)->Listed_0[k - es.len()];
        let q = choose|q: int|
            0 <= q < next.len() && lies_under((#[trigger] next[q]).path, found.path);
        lemma_subdirs(es, q);
        let m = choose|m: int|
            0 <= m < es.len() && (#[trigger] es[m]).path == next[q].path && es[m].is_dir;
        assert(lies_under(es[m].path, found.path));
    }
}

proof fn lemma_under_under(a: Seq<char>, b: Seq<char>, c: Seq<char>)
    requires
        lies_under(a, b),
        lies_under(b, c),
    ensures
        lies_under(a, c),
{
    let n = a.len() as int;
    assert(c.take(b.len() as int)[n] == c[n]);
    assert(b[n] == c[n]);
    assert(c.take(n) =~= c.take(b.len() as int).take(n));
    assert(b.take(n) =~= a);
}

proof fn lemma_subdirs(es: Seq<entry::IsoEntryView>, q: int)
    requires
        0 <= q < entry::subdirs(es).len(),
    ensures
        exists|m: int|
            0 <= m < es.len() && (#[trigger] es[m]).path == entry::subdirs(es)[q].path
                && es[m].is_dir,
    decreases es.len(),
{
    let rest = es.drop_first();
    if es[0].is_dir && q == 0 {
        assert(es[0].path == entry::subdirs(es)[q].path);
    } else {
        let r = if es[0].is_dir {
            q - 1
        } else {
            q
        };
        lemma_subdirs(rest, r);
        assert(entry::subdirs(es)[q] == entry::subdirs(rest)[r]);
        let m = choose|m: int|
            0 <= m < rest.len() && (#[trigger] rest[m]).path == entry::subdirs(rest)[r].path
                && rest[m].is_dir;
        assert(es[m + 1] == rest[m]);
    }
}

// ---------------------------------------------------------------------------
// The files of a UDF file system
// ---------------------------------------------------------------------------
/// The allocation descriptor at `at` records bytes of the file: its length is not zero, and its two
/// highest bits are clear.
pub open spec fn is_used(fe: Seq<u8>, at: int) -> bool {
    0 < bytes::number(fe, at, 4) < 0x4000_0000
}

/// How many of the `k` allocation descriptors from `at` on record bytes.
pub open spec fn used_before(fe: Seq<u8>, at: int, k: nat) -> nat
    decreases k,
{
    if k == 0 {
        0
    } else {
        used_before(fe, at + 8, (k - 1) as nat) + if is_used(fe, at) {
            1nat
        } else {
            0nat
        }
    }
}

/// How many bytes the `k` allocation descriptors from `at` on record.
pub open spec fn recorded(fe: Seq<u8>, at: int, k: nat) -> nat
    decreases k,
{
    if k == 0 {
        0
    } else {
        recorded(fe, at + 8, (k - 1) as nat) + if is_used(fe, at) {
            bytes::number(fe, at, 4)
        } else {
            0nat
        }
    }
}

/// Where the allocation descriptors of a file entry begin: behind its extended attributes.
pub open spec fn descs_at(fe: Seq<u8>) -> int {
    176int + bytes::number(fe, 168, 4)
}

/// There are `m` whole allocation descriptors in a file entry: no more than it tells of, and no
/// more than stand in it.
pub open spec fn holds_descs(fe: Seq<u8>, m: nat) -> bool {
    &&& m <= bytes::number(fe, 172, 4) / 8
    &&& m > 0 ==> descs_at(fe) + 8 * m <= fe.len()
    &&& m == bytes::number(fe, 172, 4) / 8 || descs_at(fe) + 8 * m + 8 > fe.len()
}

/// The extents of a file are its recorded allocation descriptors, in their order: each that records
/// bytes gives an extent of its whole length, at its block; no other gives any. Only descriptors of
/// the short form are read.
pub proof fn law_extents_as_recorded(fe: Seq<u8>, m: nat, k: int)
    requires
        fe.len() >= 176,
        holds_descs(fe, m),
    ensures
        fe[34] % 8 == 0 ==> ({
            let x = udf::short_ads(fe);
            let at = descs_at(fe);
            &&& x.len() == used_before(fe, at, m)
            &&& reader::extents_len(x) == recorded(fe, at, m)
            &&& 0 <= k < m && is_used(fe, at + 8 * k) ==> {
                let i = used_before(fe, at, k as nat) as int;
                &&& i < x.len()
                &&& x[i].0 == bytes::number(fe, at + 8 * k + 4, 4)
                &&& x[i].1 == bytes::number(fe, at + 8 * k, 4)
            }
        }),
        fe[34] % 8 != 0 ==> udf::short_ads(fe).len() == 0,
{
    bytes::law_fields_are_numbers(fe, 34);
    bytes::law_fields_are_numbers(fe, 168);
    bytes::law_fields_are_numbers(fe, 172);
    reveal_with_fuel(bytes::number, 3);
    assert(bytes::u16_at(fe, 34) % 8 == fe[34] % 8);
    if fe[34] % 8 == 0 {
        lemma_ads(fe, descs_at(fe), (bytes::u32_at(fe, 172) / 8) as nat, m, k);
    }
}

proof fn lemma_ads(fe: Seq<u8>, at: int, n: nat, m: nat, k: int)
    requires
        m <= n,
        m > 0 ==> at + 8 * m <= fe.len(),
        m == n || at + 8 * m + 8 > fe.len(),
    ensures
        ({
            let x = udf::ads_from(fe, at, n);
            &&& x.len() == used_before(fe, at, m)
            &&& reader::extents_len(x) == recorded(fe, at, m)
            &&& 0 <= k < m && is_used(fe, at + 8 * k) ==> {
                let i = used_before(fe, at, k as nat) as int;
                &&& i < x.len()
                &&& x[i].0 == bytes::number(fe, at + 8 * k + 4, 4)
                &&& x[i].1 == bytes::number(fe, at + 8 * k, 4)
            }
        }),
    decreases n,
{
    let x = udf::ads_from(fe, at, n);
    if m > 0 {
        let rest = udf::ads_from(fe, at + 8, (n - 1) as nat);
        lemma_ads(fe, at + 8, (n - 1) as nat, (m - 1) as nat, k - 1);
        bytes::law_fields_are_numbers(fe, at);
        bytes::law_fields_are_numbers(fe, at + 4);
        if is_used(fe, at) {
            assert(x.skip(1) =~= rest);
        }
        if 0 < k < m {
            assert(at + 8 + 8 * (k - 1) == at + 8 * k);
        }
    } else {
        assert(x =~= Seq::empty());
    }
}

/// What is told of a file stands in its file entry: the size is the whole information length there,
/// and the file lies in the extents there. Where the extents add up to that length, the file has
/// all of it. Nothing but a file entry gives a file.
pub proof fn law_file_entry(path: Seq<char>, fe: Seq<u8>, m: nat)
    requires
        fe.len() >= 176,
        holds_descs(fe, m),
    ensures
        bytes::number(fe, 0, 2) != 261 ==> udf::file_entry(path, fe).len() == 0,
        bytes::number(fe, 0, 2) == 261 ==> ({
            let e = udf::file_entry(path, fe)[0];
            &&& udf::file_entry(path, fe).len() == 1
            &&& e.path == path
            &&& !e.is_dir
            &&& e.size == bytes::number(fe, 56, 8)
            &&& e.data_length == bytes::number(fe, 56, 8)
            &&& e.alloc_descs == udf::short_ads(fe)
            &&& e.extent_lba == if e.alloc_descs.len() > 0 {
                e.alloc_descs[0].0
            } else {
                0
            }
            &&& fe[34] % 8 == 0 && recorded(fe, descs_at(fe), m) == bytes::number(fe, 56, 8)
                ==> reader::file_len(e) == bytes::number(fe, 56, 8)
            &&& fe[34] % 8 == 0 && recorded(fe, descs_at(fe), m) > bytes::number(fe, 56, 8)
                ==> reader::file_len(e) == bytes::number(fe, 56, 8)
            &&& fe[34] % 8 == 0 && 0 < recorded(fe, descs_at(fe), m) < bytes::number(fe, 56, 8)
                ==> reader::file_len(e) == recorded(fe, descs_at(fe), m)
        }),
{
    bytes::law_fields_are_numbers(fe, 0);
    bytes::law_fields_are_numbers(fe, 56);
    law_extents_as_recorded(fe, m, 0);
    if fe[34] % 8 == 0 && recorded(fe, descs_at(fe), m) > 0 {
        let x = udf::short_ads(fe);
        if x.len() == 0 {
            assert(reader::extents_len(x) == 0);
        }
    }
}

/// One file identifier in a directory, byte by byte. One that names the directory above, or nothing,
/// is passed over; one whose name stands out over the end of the directory ends the listing in
/// failure; one of a directory gives a directory at its block; one of a file gives what the file
/// entry at its block tells. The next one begins behind it, a multiple of four bytes on.
#[verifier::spinoff_prover]
#[verifier::rlimit(60)]
pub proof fn law_file_identifier(
    img: Seq<u8>,
    ps: int,
    data: Seq<u8>,
    off: int,
    prefix: Seq<char>,
    next: int,
)
    requires
        0 <= off,
        off + 38 <= data.len(),
        bytes::number(data, off, 2) == 257,
        (next - off) % 4 == 0,
        0 <= next - off - 38 - bytes::number(data, off + 36, 2) - data[off + 19] < 4,
    ensures
        ({
            let flags = data[off + 18];
            let name_at = off + 38 + bytes::number(data, off + 36, 2);
            let end = name_at + data[off + 19];
            let block = bytes::number(data, off + 24, 4);
            let here = udf::children(img, ps, data, off, prefix);
            let rest = udf::children(img, ps, data, next, prefix);
            let path = names::child_path(prefix, names::udf_name(data.subrange(name_at, end)));
            if data[off + 19] == 0 || flags & 8 != 0 {
                here == rest
            } else if end > data.len() {
                here is Stuck
            } else if flags & 2 != 0 {
                here == entry::after(
                    seq![
                        entry::IsoEntryView {
                            path,
                            size: 0,
                            is_dir: true,
                            extent_lba: block as u32,
                            data_length: 0,
                            alloc_descs: Seq::empty(),
                        },
                    ],
                    rest,
                )
            } else if (ps + block) * 2048 + 2048 > img.len() {
                here == entry::Listing::Failed(source::cut_short())
            } else {
                here == entry::after(
                    udf::file_entry(
                        path,
                        img.subrange((ps + block) * 2048, (ps + block) * 2048 + 2048),
                    ),
                    rest,
                )
            }
        }),
{
    let flags = data[off + 18];
    bytes::law_fields_are_numbers(data, off);
    bytes::law_fields_are_numbers(data, off + 24);
    bytes::law_fields_are_numbers(data, off + 36);
    assert((flags & 8 != 0) == (flags / 8 % 2 == 1)) by (bit_vector);
    assert((flags & 2 != 0) == (flags / 2 % 2 == 1)) by (bit_vector);
    assert(udf::next_fid(data, off) == next);
    let block = bytes::u32_at(data, off + 24);
    assert((ps + block) * 2048 == (ps + block) * volume::SECTOR_SIZE);
    assert(!udf::fids_end(data, off));
    assert(udf::is_named(data, off) == (data[off + 19] > 0 && flags & 8 == 0));
}

/// A directory ends where no file identifier follows: at its end, or at something else.
pub proof fn law_identifiers_end(
    img: Seq<u8>,
    ps: int,
    data: Seq<u8>,
    off: int,
    prefix: Seq<char>,
)
    requires
        0 <= off,
        off + 38 > data.len() || bytes::number(data, off, 2) != 257,
    ensures
        udf::children(img, ps, data, off, prefix) == entry::Listing::Listed(Seq::empty()),
{
    bytes::law_fields_are_numbers(data, off);
}

/// What a directory holds is read from the extents of its file entry, one after another; where the
/// image ends before one of them, or there is no file entry, the listing fails.
pub proof fn law_directory(img: Seq<u8>, ps: int, lba: int, prefix: Seq<char>)
    requires
        0 <= ps + lba,
    ensures
        ({
            let at = (ps + lba) * 2048;
            let l = udf::directory(img, ps, lba, prefix);
            if at + 2048 > img.len() {
                l == entry::Listing::Failed(source::cut_short())
            } else {
                let fe = img.subrange(at, at + 2048);
                if bytes::number(fe, 0, 2) != 261 {
                    l == entry::Listing::Failed(
                        error::ErrorView::Other(
                            "Expected File Entry (261) at LBA "@ + text::decimal(
                                (ps + lba) as nat,
                            ) + ", got "@ + text::decimal(bytes::number(fe, 0, 2)),
                        ),
                    )
                } else {
                    match udf::gathered(img, ps, udf::short_ads(fe), 0) {
                        Some(data) => l == udf::children(img, ps, data, 0, prefix),
                        None => l == entry::Listing::Failed(source::cut_short()),
                    }
                }
            }
        }),
{
    let at = (ps + lba) * 2048;
    if at + 2048 <= img.len() {
        bytes::law_fields_are_numbers(img.subrange(at, at + 2048), 0);
    }
}

/// The bytes of extents are those of the image at their blocks, one extent after another.
pub proof fn law_gathered(img: Seq<u8>, ps: int, a: Seq<(u32, u32)>, lba: u32, len: u32)
    requires
        0 <= ps,
        len > 0,
    ensures
        udf::gathered(img, ps, seq![(lba, len)], 0) == if (ps + lba) * 2048 + len <= img.len() {
            Some(img.subrange((ps + lba) * 2048, (ps + lba) * 2048 + len))
        } else {
            None
        },
        ({
            let all = udf::gathered(img, ps, seq![(lba, len)] + a, 0);
            let one = udf::gathered(img, ps, seq![(lba, len)], 0);
            let more = udf::gathered(img, ps, a, 0);
            match (one, more) {
                (Some(x), Some(y)) => all == Some(x + y),
                _ => all is None,
            }
        }),
        udf::gathered(img, ps, Seq::empty(), 0) == Some(Seq::<u8>::empty()),
{
    let one = seq![(lba, len)];
    let all = one + a;
    reveal_with_fuel(udf::gathered, 2);
    if (ps + lba) * 2048 + len <= img.len() {
        let b = img.subrange((ps + lba) * 2048, (ps + lba) * 2048 + len);
        assert(b + Seq::<u8>::empty() =~= b);
    }
    lemma_gathered_skip(img, ps, one, a, 1);
}

proof fn lemma_gathered_skip(
    img: Seq<u8>,
    ps: int,
    one: Seq<(u32, u32)>,
    a: Seq<(u32, u32)>,
    i: int,
)
    requires
        one.len() == 1,
        1 <= i <= a.len() + 1,
    ensures
        udf::gathered(img, ps, one + a, i) == udf::gathered(img, ps, a, i - 1),
    decreases a.len() + 1 - i,
{
    if i < a.len() + 1 {
        lemma_gathered_skip(img, ps, one, a, i + 1);
        assert((one + a)[i] == a[i - 1]);
    }
}

// ---------------------------------------------------------------------------
// The records of an ISO 9660 file system
// ---------------------------------------------------------------------------
/// One record of a directory, byte by byte. A zero is followed by the next sector; a record that
/// stands out over the end ends the directory; the first two, for the directory itself and the one
/// above, are passed over; any other gives an entry with what is recorded there.
pub proof fn law_record(data: Seq<u8>, off: int, joliet: bool, prefix: Seq<char>, next: int)
    requires
        0 <= off,
        next % 2048 == 0,
        off < next <= off + 2048,
    ensures
        ({
            let here = iso9660::records(data, off, joliet, prefix);
            let len = data[off];
            let id_len = data[off + 32];
            let own = id_len == 1 && (data[off + 33] == 0 || data[off + 33] == 1);
            if off >= data.len() {
                here == entry::Listing::Listed(Seq::empty())
            } else if len == 0 {
                here == iso9660::records(data, next, joliet, prefix)
            } else if off + len > data.len() {
                here == entry::Listing::Listed(Seq::empty())
            } else if len < 33 || id_len > len - 33 || joliet && !own && id_len % 2 == 1 {
                here is Stuck
            } else if own {
                here == iso9660::records(data, off + len, joliet, prefix)
            } else {
                let id = data.subrange(off + 33, off + 33 + id_len);
                let is_dir = data[off + 25] & 2 != 0;
                let size = bytes::number(data, off + 10, 4);
                here == entry::after(
                    seq![
                        entry::IsoEntryView {
                            path: names::child_path(
                                prefix,
                                text::before_last(
                                    if joliet {
                                        names::utf16_lossy(names::units_be(id))
                                    } else {
                                        names::utf8_text(id)
                                    },
                                    ';',
                                ),
                            ),
                            size: if is_dir {
                                0
                            } else {
                                size as u64
                            },
                            is_dir,
                            extent_lba: bytes::number(data, off + 2, 4) as u32,
                            data_length: size as u64,
                            alloc_descs: Seq::empty(),
                        },
                    ],
                    iso9660::records(data, off + len, joliet, prefix),
                )
            }
        }),
{
    let flags = data[off + 25];
    bytes::law_fields_are_numbers(data, off + 2);
    bytes::law_fields_are_numbers(data, off + 10);
    assert((flags & 2 != 0) == (flags / 2 % 2 == 1)) by (bit_vector);
    assert(next == iso9660::next_sector(off));
}

/// A directory of an ISO 9660 file system is read where its record says, and a directory of a UDF
/// file system from its file entry in the partition.
pub proof fn law_directories_read(img: Seq<u8>, fmt: IsoFormat, d: entry::DirView)
    ensures
        match fmt {
            IsoFormat::Iso9660 { joliet, .. } => if d.length > 0 && d.lba * 2048 + d.length
                > img.len() {
                walk::dir_listing(img, fmt, d) == entry::Listing::Failed(source::cut_short())
            } else if d.length > 0 {
                walk::dir_listing(img, fmt, d) == iso9660::records(
                    img.subrange(d.lba * 2048, d.lba * 2048 + d.length),
                    0,
                    joliet,
                    d.path,
                )
            } else {
                walk::dir_listing(img, fmt, d) == entry::Listing::Listed(Seq::empty())
            },
            IsoFormat::Udf { partition_start, .. } => walk::dir_listing(img, fmt, d)
                == udf::directory(img, partition_start as int, d.lba as int, d.path),
        },
{
}

/// The walk through an image begins at its root directory, whose path is empty, and goes on, from
/// each directory that was read, with the directories within it and then with those that were left.
pub proof fn law_walk(
    img: Seq<u8>,
    fmt: IsoFormat,
    d: entry::DirView,
    rest: Seq<entry::DirView>,
    fuel: nat,
)
    ensures
        ({
            let here = walk::walk(img, fmt, seq![d] + rest, fuel + 1);
            match walk::dir_listing(img, fmt, d) {
                entry::Listing::Listed(es) => match walk::walk(
                    img,
                    fmt,
                    entry::subdirs(es) + rest,
                    fuel,
                ) {
                    entry::Listing::Listed(more) => here == entry::Listing::Listed(es + more),
                    other => here == other,
                },
                other => here == other,
            }
        }),
        walk::walk(img, fmt, Seq::empty(), fuel) == entry::Listing::Listed(Seq::empty()),
        ({
            let root = walk::root_dir(fmt);
            &&& root.path.len() == 0
            &&& fmt matches IsoFormat::Iso9660 { root_extent_lba, root_extent_len, .. } ==> root.lba
                == root_extent_lba && root.length == root_extent_len
            &&& fmt matches IsoFormat::Udf { root_icb_lba, .. } ==> root.lba == root_icb_lba
            &&& walk::image_listing(img, fmt, fuel) == walk::walk(img, fmt, seq![root], fuel)
        }),
{
    let dirs = seq![d] + rest;
    assert(dirs.skip(1) =~= rest);
    assert(dirs[0] == d);
}

/// The directories within what was read are those entries that are directories, in their order,
/// each with its own place, length and path.
pub proof fn law_subdirectories(a: Seq<entry::IsoEntryView>, e: entry::IsoEntryView)
    ensures
        entry::subdirs(Seq::empty()).len() == 0,
        entry::subdirs(seq![e] + a) == if e.is_dir {
            seq![entry::DirView { lba: e.extent_lba, length: e.data_length, path: e.path }]
                + entry::subdirs(a)
        } else {
            entry::subdirs(a)
        },
{
    assert((seq![e] + a).drop_first() =~= a);
}

// ---------------------------------------------------------------------------
// Which file system an image holds
// ---------------------------------------------------------------------------
/// The tag of the descriptor in a sector.
pub open spec fn tag_at(img: Seq<u8>, sector: int) -> nat {
    bytes::number(img, sector * 2048, 2)
}

/// What the descriptors of a UDF volume say: the partition begins where the last of its descriptors
/// says, and the file set lies where the last descriptor of the logical volume says. They are read
/// up to the one that ends them, or as many as there are.
pub proof fn law_volume_says(
    img: Seq<u8>,
    loc: int,
    n: int,
    i: int,
    found: (u32, u32),
    stop: int,
    p: int,
)
    requires
        0 <= loc,
        0 <= i <= stop <= n,
        (loc + stop) * 2048 <= img.len(),
        forall|k: int| i <= k < stop ==> #[trigger] tag_at(img, loc + k) != 8,
        stop == n || (loc + stop + 1) * 2048 <= img.len() && tag_at(img, loc + stop) == 8,
    ensures
        ({
            let r = volume::volume_says(img, loc, n, i, found);
            &&& r is Some
            &&& i <= p < stop && tag_at(img, loc + p) == 5 && (forall|q: int|
                p < q < stop ==> #[trigger] tag_at(img, loc + q) != 5) ==> (r->0).0 == bytes::number(
                img,
                (loc + p) * 2048 + 188,
                4,
            )
            &&& (forall|q: int| i <= q < stop ==> #[trigger] tag_at(img, loc + q) != 5) ==> (r->0).0
                == found.0
            &&& i <= p < stop && tag_at(img, loc + p) == 6 && (forall|q: int|
                p < q < stop ==> #[trigger] tag_at(img, loc + q) != 6) ==> (r->0).1 == bytes::number(
                img,
                (loc + p) * 2048 + 252,
                4,
            )
            &&& (forall|q: int| i <= q < stop ==> #[trigger] tag_at(img, loc + q) != 6) ==> (r->0).1
                == found.1
        }),
    decreases n - i,
{
    if i < n {
        let at = (loc + i) * 2048;
        if i < stop {
            assert(at + 2048 <= (loc + stop) * 2048) by (nonlinear_arith)
                requires
                    at == (loc + i) * 2048,
                    i < stop,
            ;
        }
        let buf = img.subrange(at, at + 2048);
        assert(volume::sector_at(img, loc + i) == Some(buf));
        lemma_fields_in(img, at, buf, 0);
        lemma_fields_in(img, at, buf, 188);
        lemma_fields_in(img, at, buf, 252);
        assert(bytes::u16_at(buf, 0) == tag_at(img, loc + i));
        if i < stop {
            let next = if tag_at(img, loc + i) == 5 {
                (bytes::u32_at(buf, 188), found.1)
            } else if tag_at(img, loc + i) == 6 {
                (found.0, bytes::u32_at(buf, 252))
            } else {
                found
            };
            law_volume_says(img, loc, n, i + 1, next, stop, p);
        }
    }
}

/// The fields of a sector are those of the image there.
proof fn lemma_fields_in(img: Seq<u8>, at: int, buf: Seq<u8>, i: int)
    requires
        0 <= at,
        at + 2048 <= img.len(),
        buf == img.subrange(at, at + 2048),
        0 <= i,
        i + 8 <= 2048,
    ensures
        bytes::u16_at(buf, i) == bytes::number(img, at + i, 2),
        bytes::u32_at(buf, i) == bytes::number(img, at + i, 4),
{
    bytes::law_fields_are_numbers(buf, i);
    bytes::lemma_number_of_same(buf, i, img, at + i, 2);
    bytes::lemma_number_of_same(buf, i, img, at + i, 4);
}

/// Whether an image holds a UDF file system: its anchor, with the tag for it, stands in sector 256,
/// and tells where the descriptors of the volume are and how many; they name a partition; and the
/// file set that lies in it has the tag for that, and tells where the root directory lies.
pub proof fn law_udf_format(img: Seq<u8>, found: (u32, u32))
    ensures
        img.len() < 257 * 2048 ==> volume::udf_format(img) == Ok::<_, error::ErrorView>(
            None::<IsoFormat>,
        ),
        img.len() >= 257 * 2048 && tag_at(img, 256) != 2 ==> volume::udf_format(img) == Ok::<
            _,
            error::ErrorView,
        >(None::<IsoFormat>),
        img.len() >= 257 * 2048 && tag_at(img, 256) == 2 && volume::volume_says(
            img,
            bytes::number(img, 256int * 2048 + 20, 4) as int,
            bytes::number(img, 256int * 2048 + 16, 4) as int / 2048,
            0,
            (0, 0),
        ) == Some(found) ==> {
            let at = (found.0 + found.1) * 2048;
            if found.0 == 0 {
                volume::udf_format(img) == Ok::<_, error::ErrorView>(None::<IsoFormat>)
            } else if at + 2048 > img.len() {
                volume::udf_format(img) == Err::<Option<IsoFormat>, _>(source::cut_short())
            } else if bytes::number(img, at, 2) != 256 {
                volume::udf_format(img) == Ok::<_, error::ErrorView>(None::<IsoFormat>)
            } else {
                volume::udf_format(img) == Ok::<_, error::ErrorView>(
                    Some(
                        IsoFormat::Udf {
                            partition_start: found.0,
                            root_icb_lba: bytes::number(img, at + 404, 4) as u32,
                        },
                    ),
                )
            }
        },
{
    if img.len() >= 257 * 2048 {
        let at: int = 256int * 2048;
        let anchor = img.subrange(at, at + 2048);
        lemma_fields_in(img, at, anchor, 0);
        lemma_fields_in(img, at, anchor, 16);
        lemma_fields_in(img, at, anchor, 20);
        let to = (found.0 + found.1) * 2048;
        if to + 2048 <= img.len() {
            let buf = img.subrange(to, to + 2048);
            lemma_fields_in(img, to, buf, 0);
            lemma_fields_in(img, to, buf, 404);
        }
    }
}

/// A volume descriptor stands in a sector: the letters `CD001` follow its first byte.
pub open spec fn descriptor_at(img: Seq<u8>, sector: int) -> bool {
    let at = sector * 2048;
    img[at + 1] == 0x43 && img[at + 2] == 0x44 && img[at + 3] == 0x30 && img[at + 4] == 0x30
        && img[at + 5] == 0x31
}

/// The descriptor in a sector is a supplementary one with one of the three marks of Joliet names.
pub open spec fn joliet_at(img: Seq<u8>, sector: int) -> bool {
    let at = sector * 2048;
    img[at] == 2 && img[at + 88] == 0x25 && img[at + 89] == 0x2f && (img[at + 90] == 0x40 || img[at
        + 90] == 0x43 || img[at + 90] == 0x45)
}

/// The descriptor in a sector tells of a root directory that is taken.
pub open spec fn root_at(img: Seq<u8>, sector: int) -> bool {
    img[sector * 2048] == 1 || joliet_at(img, sector)
}

/// What the volume descriptors of an ISO 9660 file system say: the root directory is the one of the
/// last primary or Joliet descriptor, and names are in Joliet form if there is any Joliet
/// descriptor. They are read from sector 16 up to the one that ends them, or to something else, or
/// a hundred and one of them.
pub proof fn law_descriptors_say(
    img: Seq<u8>,
    sector: int,
    found: (u32, u32, bool),
    stop: int,
    p: int,
)
    requires
        0 <= sector <= stop <= 117,
        stop * 2048 <= img.len(),
        forall|k: int| sector <= k < stop ==> #[trigger] descriptor_at(img, k) && img[k * 2048] != 255,
        stop == 117 || (stop + 1) * 2048 <= img.len() && (!descriptor_at(img, stop) || img[stop
            * 2048] == 255),
    ensures
        ({
            let r = volume::descriptors_say(img, sector, found);
            &&& r is Some
            &&& sector <= p < stop && root_at(img, p) && (forall|q: int|
                p < q < stop ==> !#[trigger] root_at(img, q)) ==> (r->0).0 == bytes::number(
                img,
                p * 2048 + 158,
                4,
            ) && (r->0).1 == bytes::number(img, p * 2048 + 166, 4)
            &&& (forall|q: int| sector <= q < stop ==> !#[trigger] root_at(img, q)) ==> (r->0).0
                == found.0 && (r->0).1 == found.1
            &&& (r->0).2 <==> found.2 || exists|q: int|
                sector <= q < stop && #[trigger] joliet_at(img, q)
        }),
    decreases 117 - sector,
{
    if sector < 117 {
        let at = sector * 2048;
        let buf = img.subrange(at, at + 2048);
        assert(volume::sector_at(img, sector) == Some(buf));
        lemma_fields_in(img, at, buf, 158);
        lemma_fields_in(img, at, buf, 166);
        lemma_descriptor(img, sector, buf);
        if sector < stop {
            assert(descriptor_at(img, sector) && img[sector * 2048] != 255);
            let next = if root_at(img, sector) {
                (bytes::u32_at(buf, 158), bytes::u32_at(buf, 166), found.2 || joliet_at(img, sector))
            } else {
                found
            };
            law_descriptors_say(img, sector + 1, next, stop, p);
            let r = volume::descriptors_say(img, sector + 1, next);
            assert(volume::descriptors_say(img, sector, found) == r);
            if (r->0).2 && !found.2 && !joliet_at(img, sector) {
                let q = choose|q: int| sector + 1 <= q < stop && #[trigger] joliet_at(img, q);
                assert(joliet_at(img, q));
            }
        }
    }
}

proof fn lemma_descriptor(img: Seq<u8>, sector: int, buf: Seq<u8>)
    requires
        0 <= sector,
        (sector + 1) * 2048 <= img.len(),
        buf == img.subrange(sector * 2048, sector * 2048 + 2048),
    ensures
        volume::is_descriptor(buf) == descriptor_at(img, sector),
        (buf[0] == 2 && volume::is_joliet(buf)) == joliet_at(img, sector),
        buf[0] == img[sector * 2048],
{
    let mark = seq![0x43u8, 0x44, 0x30, 0x30, 0x31];
    let got = buf.subrange(1, 6);
    assert(got[0] == buf[1] && got[1] == buf[2] && got[2] == buf[3] && got[3] == buf[4] && got[4]
        == buf[5]);
    if descriptor_at(img, sector) {
        assert(got =~= mark);
    } else if got == mark {
        assert(mark[0] == 0x43 && mark[1] == 0x44 && mark[2] == 0x30 && mark[3] == 0x30 && mark[4]
            == 0x31);
    }
}

/// The file system of an image is its UDF file system, where it has one; else its ISO 9660 file
/// system, where its descriptors told of a root directory; else there is none.
pub proof fn law_image_format(img: Seq<u8>, f: IsoFormat, found: (u32, u32, bool))
    ensures
        volume::udf_format(img) == Ok::<_, error::ErrorView>(Some(f)) ==> volume::image_format(img)
            == Ok::<_, error::ErrorView>(f),
        volume::udf_format(img) == Ok::<_, error::ErrorView>(None::<IsoFormat>)
            && volume::descriptors_say(img, 16, (0, 0, false)) == Some(found) ==> volume::image_format(
            img,
        ) == if found.0 != 0 {
            Ok(
                IsoFormat::Iso9660 {
                    root_extent_lba: found.0,
                    root_extent_len: found.1,
                    joliet: found.2,
                },
            )
        } else {
            Err(error::ErrorView::Other("No volume descriptor found in ISO"@))
        },
        volume::udf_format(img) == Ok::<_, error::ErrorView>(None::<IsoFormat>)
            && volume::descriptors_say(img, 16, (0, 0, false)) is None ==> volume::image_format(img)
            == Err::<IsoFormat, _>(source::cut_short()),
        volume::udf_format(img) is Err ==> volume::image_format(img) == Err::<IsoFormat, _>(
            volume::udf_format(img)->Err_0,
        ),
{
}

// ---------------------------------------------------------------------------
// Names
// ---------------------------------------------------------------------------
/// Text in UTF-16: a unit that is no surrogate is the character of its number; a high surrogate and
/// a low one behind it are one character beyond them all; any other surrogate is replaced.
pub proof fn law_utf16(u: u16, v: u16, rest: Seq<u16>)
    ensures
        names::utf16_lossy(Seq::empty()).len() == 0,
        !(0xD800 <= u <= 0xDFFF) ==> names::utf16_lossy(seq![u] + rest) == seq![u as char]
            + names::utf16_lossy(rest),
        0xD800 <= u <= 0xDBFF && 0xDC00 <= v <= 0xDFFF ==> names::utf16_lossy(seq![u, v] + rest)
            == seq![(0x1_0000 + (u - 0xD800) * 0x400 + (v - 0xDC00)) as char] + names::utf16_lossy(
            rest,
        ),
        0xDC00 <= u <= 0xDFFF || 0xD800 <= u <= 0xDBFF && (rest.len() == 0 || !(0xDC00 <= rest[0]
            <= 0xDFFF)) ==> names::utf16_lossy(seq![u] + rest) == seq!['\u{FFFD}']
            + names::utf16_lossy(rest),
{
    assert((seq![u] + rest).skip(1) =~= rest);
    assert((seq![u, v] + rest).skip(2) =~= rest);
}

/// Bytes are taken in pairs, the higher one first; a last one without a partner stands alone.
pub proof fn law_units(data: Seq<u8>, i: int)
    requires
        0 <= i,
        2 * i < data.len(),
    ensures
        names::units_be(data).len() == (data.len() + 1) / 2,
        2 * i + 1 < data.len() ==> names::units_be(data)[i] == 256 * data[2 * i] + data[2 * i + 1],
        2 * i + 1 == data.len() ==> names::units_be(data)[i] == data[2 * i],
{
}

/// A Joliet name in ASCII, with a zero before each character, is read as it was written; the version
/// behind its last semicolon is cut off.
pub proof fn law_joliet_name(data: Seq<u8>, t: Seq<char>, version: Seq<char>)
    requires
        data.len() == 2 * t.len(),
        forall|i: int|
            0 <= i < t.len() ==> (#[trigger] t[i] as int) < 128 && data[2 * i] == 0 && data[2 * i + 1]
                == t[i] as int,
    ensures
        !t.contains(';') ==> names::ucs2_name(data) == t,
        forall|a: Seq<char>|
            t == #[trigger] (a.push(';') + version) && !version.contains(';') ==> names::ucs2_name(
                data,
            ) == a,
{
    let u = names::units_be(data);
    assert forall|i: int| 0 <= i < t.len() implies u[i] == #[trigger] t[i] as int by {
        law_units(data, i);
    }
    lemma_ascii_units(u, t);
    text::law_parted(t, ';', t);
    assert forall|a: Seq<char>|
        t == #[trigger] (a.push(';') + version) && !version.contains(';') implies names::ucs2_name(
        data,
    ) == a by {
        text::law_parted(a, ';', version);
    }
}

proof fn lemma_ascii_units(u: Seq<u16>, t: Seq<char>)
    requires
        u.len() == t.len(),
        forall|i: int| 0 <= i < t.len() ==> (#[trigger] t[i] as int) < 128 && u[i] == t[i] as int,
    ensures
        names::utf16_lossy(u) == t,
    decreases u.len(),
{
    if u.len() > 0 {
        let v = u.skip(1);
        let w = t.skip(1);
        assert forall|i: int| 0 <= i < w.len() implies (#[trigger] w[i] as int) < 128 && v[i]
            == w[i] as int by {
            assert(t[i + 1] == w[i]);
        }
        lemma_ascii_units(v, w);
        assert((t[0] as int) < 128);
        assert(seq![u[0] as char] + w =~= t);
    } else {
        assert(t =~= Seq::empty());
    }
}

/// A plain name in ASCII is read as it was written; the version behind its last semicolon is cut
/// off.
pub proof fn law_plain_name(data: Seq<u8>, t: Seq<char>, version: Seq<char>)
    requires
        data.len() == t.len(),
        forall|i: int| 0 <= i < t.len() ==> (#[trigger] t[i] as int) < 128 && data[i] == t[i] as int,
    ensures
        !t.contains(';') ==> names::plain_name(data) == t,
        forall|a: Seq<char>|
            t == #[trigger] (a.push(';') + version) && !version.contains(';') ==> names::plain_name(
                data,
            ) == a,
{
    assert forall|i: int| 0 <= i < data.len() implies #[trigger] data[i] < 0x80 by {
        assert((t[i] as int) < 128);
    }
    names::law_ascii_text(data);
    assert(data.map_values(|b: u8| b as char) =~= t) by {
        assert forall|i: int| 0 <= i < t.len() implies data.map_values(|b: u8| b as char)[i]
            == t[i] by {
            assert((t[i] as int) < 128);
        }
    }
    text::law_parted(t, ';', t);
    assert forall|a: Seq<char>|
        t == #[trigger] (a.push(';') + version) && !version.contains(';') implies names::plain_name(
        data,
    ) == a by {
        text::law_parted(a, ';', version);
    }
}

/// The first byte of a UDF name says how the rest is written: 8 for one byte a unit, 16 for two. Any
/// other byte belongs to the name.
pub proof fn law_udf_name(first: u8, rest: Seq<u8>)
    ensures
        names::udf_name(Seq::empty()).len() == 0,
        first == 8 ==> names::udf_name(seq![first] + rest) == names::utf8_text(rest),
        first == 16 ==> names::udf_name(seq![first] + rest) == names::utf16_lossy(
            names::units_be(rest),
        ),
        first != 8 && first != 16 ==> names::udf_name(seq![first] + rest) == names::utf8_text(
            seq![first] + rest,
        ),
{
    assert((seq![first] + rest).skip(1) =~= rest);
}

// ---------------------------------------------------------------------------
// The bytes of a file
// ---------------------------------------------------------------------------
/// Extents are as long as their descriptors say, together.
pub proof fn law_extents_add_up(a: Seq<(u32, u32)>, d: (u32, u32))
    ensures
        reader::extents_len(Seq::empty()) == 0,
        reader::extents_len(a.push(d)) == reader::extents_len(a) + d.1,
    decreases a.len(),
{
    if a.len() == 0 {
        assert(a.push(d).skip(1) =~= Seq::empty());
        assert(reader::extents_len(a.push(d).skip(1)) == 0);
    } else {
        law_extents_add_up(a.skip(1), d);
        assert(a.push(d).skip(1) =~= a.skip(1).push(d));
    }
}

/// Where a byte of a file lies: in a file without extents, that far behind the beginning of its
/// block; else as far behind the block of its extent as it lies behind the beginning of the extent.
/// Blocks of a UDF file system count from the beginning of its partition.
pub proof fn law_file_place(fmt: IsoFormat, e: entry::IsoEntryView, k: int, j: int)
    requires
        0 <= j,
    ensures
        ({
            let ps = match fmt {
                IsoFormat::Udf { partition_start, .. } => partition_start as int,
                IsoFormat::Iso9660 { .. } => 0int,
            };
            let x = e.alloc_descs;
            &&& x.len() == 0 ==> reader::file_place(fmt, e, j) == (ps + e.extent_lba) * 2048 + j
            &&& 0 <= k < x.len() && j < x[k].1 ==> reader::file_place(
                fmt,
                e,
                reader::extents_len(x.take(k)) + j,
            ) == (ps + x[k].0) * 2048 + j
        }),
{
    let x = e.alloc_descs;
    if 0 <= k < x.len() && j < x[k].1 {
        lemma_extent_place(x, walk::partition(fmt), k, j);
    }
}

proof fn lemma_extent_place(x: Seq<(u32, u32)>, ps: int, k: int, j: int)
    requires
        0 <= k < x.len(),
        0 <= j < x[k].1,
    ensures
        reader::extent_place(x, ps, reader::extents_len(x.take(k)) + j) == (ps + x[k].0) * 2048 + j,
        reader::extents_len(x.take(k)) >= 0,
    decreases k,
{
    if k == 0 {
        assert(x.take(0) =~= Seq::empty());
    } else {
        lemma_extent_place(x.skip(1), ps, k - 1, j);
        assert(x.skip(1).take(k - 1) =~= x.take(k).skip(1));
    }
}

/// A file is as long as it is told to be, or as its extents are together, where it has any and they
/// are shorter; of it as much is read as is asked for, up to its end.
pub proof fn law_file_len(e: entry::IsoEntryView, offset: int, want: int)
    requires
        0 <= offset,
        0 <= want,
    ensures
        ({
            let n = reader::file_len(e);
            &&& n <= e.data_length
            &&& e.alloc_descs.len() == 0 ==> n == e.data_length
            &&& e.alloc_descs.len() > 0 ==> n <= reader::extents_len(e.alloc_descs)
            &&& n == e.data_length || e.alloc_descs.len() > 0 && n == reader::extents_len(
                e.alloc_descs,
            )
            &&& offset >= n ==> reader::read_len(e, offset, want) == 0
            &&& offset + want <= n ==> reader::read_len(e, offset, want) == want
            &&& offset < n < offset + want ==> reader::read_len(e, offset, want) == n - offset
        }),
{
}

/// What is copied of a file are all its bytes: as many as it is long, each from its place in the
/// image.
pub proof fn law_copied_file(img: Seq<u8>, fmt: IsoFormat, e: entry::IsoEntryView, j: int)
    requires
        e.wf(),
        reader::place_fits(fmt, e, 0),
        source::holds_all(img, reader::file_runs(fmt, e, 0, e.data_length as int)),
    ensures
        ({
            let c = source::copied_runs(img, reader::file_runs(fmt, e, 0, e.data_length as int));
            &&& reader::file_len(e) >= 0 ==> c.len() == reader::file_len(e)
            &&& 0 <= j < reader::file_len(e) ==> c[j] == img[reader::file_place(fmt, e, j)]
        }),
{
    reader::law_read_and_copy_agree(img, fmt, e, 0, e.data_length as int);
}

/// A place to go on reading from is counted from the beginning, from the present place or from the
/// end of the file; a number of 64 bits whose highest bit is set counts as negative.
pub proof fn law_seek_places(pos: u64, size: u64, p: u64, d: i64)
    ensures
        p < 0x8000_0000_0000_0000 ==> reader::seek_place(pos, size, reader::SeekTo::Start(p)) == p,
        p >= 0x8000_0000_0000_0000 ==> reader::seek_place(pos, size, reader::SeekTo::Start(p)) < 0,
        pos < 0x8000_0000_0000_0000 ==> reader::seek_place(pos, size, reader::SeekTo::Current(d))
            == pos + d,
        size < 0x8000_0000_0000_0000 ==> reader::seek_place(pos, size, reader::SeekTo::End(d))
            == size + d,
        reader::seek_place(pos, size, reader::SeekTo::Current(d)) == reader::seek_place(
            pos,
            size,
            reader::SeekTo::Start(pos),
        ) + d,
        reader::seek_place(pos, size, reader::SeekTo::End(d)) == reader::seek_place(
            pos,
            size,
            reader::SeekTo::Start(size),
        ) + d,
{
}

/// An image needs its installation file split if and only if it holds a file whose path ends with
/// `install.wim`, in letters of any case, and that has four gibibytes or more.
pub proof fn law_oversized(es: Seq<entry::IsoEntryView>, lowered: Seq<char>, size: u64)
    ensures
        reader::is_oversized_wim(lowered, size) <==> text::finishes_with(lowered, "install.wim"@)
            && size >= 4 * 1024 * 1024 * 1024,
        reader::holds_oversized_wim(es) <==> exists|k: int|
            0 <= k < es.len() && text::finishes_with(
                text::lowercase((#[trigger] es[k]).path),
                "install.wim"@,
            ) && es[k].size >= 4 * 1024 * 1024 * 1024,
{
}

/// A file can be read from every place before two to the 63rd.
pub proof fn law_places_fit(fmt: IsoFormat, e: entry::IsoEntryView, offset: int)
    requires
        0 <= offset < 0x8000_0000_0000_0000,
    ensures
        reader::place_fits(fmt, e, offset),
{
}

/// Where the image ends before the descriptors of a UDF volume do, nothing is known of it, and it
/// cannot be read.
pub proof fn law_volume_cut_short(
    img: Seq<u8>,
    loc: int,
    n: int,
    i: int,
    found: (u32, u32),
    stop: int,
)
    requires
        0 <= loc,
        0 <= i <= stop < n,
        (loc + stop) * 2048 <= img.len() < (loc + stop + 1) * 2048,
        forall|k: int| i <= k < stop ==> #[trigger] tag_at(img, loc + k) != 8,
    ensures
        volume::volume_says(img, loc, n, i, found) is None,
    decreases n - i,
{
    if i < stop {
        let at = (loc + i) * 2048;
        assert(at + 2048 <= (loc + stop) * 2048) by (nonlinear_arith)
            requires
                at == (loc + i) * 2048,
                i < stop,
        ;
        let buf = img.subrange(at, at + 2048);
        assert(volume::sector_at(img, loc + i) == Some(buf));
        lemma_fields_in(img, at, buf, 0);
        lemma_fields_in(img, at, buf, 188);
        lemma_fields_in(img, at, buf, 252);
        assert(bytes::u16_at(buf, 0) == tag_at(img, loc + i));
        let next = if tag_at(img, loc + i) == 5 {
            (bytes::u32_at(buf, 188), found.1)
        } else if tag_at(img, loc + i) == 6 {
            (found.0, bytes::u32_at(buf, 252))
        } else {
            found
        };
        law_volume_cut_short(img, loc, n, i + 1, next, stop);
    }
}

/// Where the image ends before its ISO 9660 descriptors do, it cannot be read.
pub proof fn law_descriptors_cut_short(
    img: Seq<u8>,
    sector: int,
    found: (u32, u32, bool),
    stop: int,
)
    requires
        0 <= sector <= stop < 117,
        stop * 2048 <= img.len() < (stop + 1) * 2048,
        forall|k: int| sector <= k < stop ==> #[trigger] descriptor_at(img, k) && img[k * 2048] != 255,
    ensures
        volume::descriptors_say(img, sector, found) is None,
    decreases stop - sector,
{
    if sector < stop {
        let at = sector * 2048;
        let buf = img.subrange(at, at + 2048);
        assert(volume::sector_at(img, sector) == Some(buf));
        lemma_descriptor(img, sector, buf);
        assert(descriptor_at(img, sector) && img[sector * 2048] != 255);
        let next = if buf[0] == 1 {
            volume::with_root(buf, found.2)
        } else if buf[0] == 2 && volume::is_joliet(buf) {
            volume::with_root(buf, true)
        } else {
            found
        };
        law_descriptors_cut_short(img, sector + 1, next, stop);
    }
}

/// The search for a UDF file system fails where its descriptors are cut short.
pub proof fn law_udf_cut_short(img: Seq<u8>)
    requires
        img.len() >= 257 * 2048,
        tag_at(img, 256) == 2,
        volume::volume_says(
            img,
            bytes::number(img, 256int * 2048 + 20, 4) as int,
            bytes::number(img, 256int * 2048 + 16, 4) as int / 2048,
            0,
            (0, 0),
        ) is None,
    ensures
        volume::image_format(img) == Err::<IsoFormat, _>(
            error::ErrorView::Io("failed to fill whole buffer"@),
        ),
{
    let at: int = 256int * 2048;
    let anchor = img.subrange(at, at + 2048);
    lemma_fields_in(img, at, anchor, 0);
    lemma_fields_in(img, at, anchor, 16);
    lemma_fields_in(img, at, anchor, 20);
}

/// A read fails only where the image ends before the file does, and a seek only to a place before
/// the beginning; either says so, and leaves the place as it was.
pub proof fn law_failed_read_or_seek(
    a: reader::FileReaderView,
    buf: Seq<u8>,
    x: error::ErrorView,
    b: reader::FileReaderView,
    out: Seq<u8>,
    to: reader::SeekTo,
    y: error::ErrorView,
    c: reader::FileReaderView,
)
    ensures
        reader::has_read(a, buf, Err(x), b, out) ==> {
            &&& x == error::ErrorView::Io("I/O error: failed to fill whole buffer"@)
            &&& b == a
            &&& a.pos < a.size
            &&& !source::holds_all(
                a.iso.image,
                reader::file_runs(a.iso.format, a.entry, a.pos as int, buf.len() as int),
            )
            &&& out.len() == buf.len()
        },
        reader::has_sought(a, to, Err(y), c) ==> {
            &&& y == error::ErrorView::Io("seek before start"@)
            &&& c == a
            &&& reader::seek_place(a.pos, a.size, to) < 0
        },
{
    reveal_strlit("I/O error: ");
    reveal_strlit("failed to fill whole buffer");
    reveal_strlit("I/O error: failed to fill whole buffer");
    assert("I/O error: "@ + "failed to fill whole buffer"@
        =~= "I/O error: failed to fill whole buffer"@);
}

/// A file of a UDF file system whose extents add up to its information length is copied whole: as
/// many bytes come out as its file entry tells, where the image has them.
pub proof fn law_whole_file_copied(
    img: Seq<u8>,
    fmt: IsoFormat,
    path: Seq<char>,
    fe: Seq<u8>,
    m: nat,
)
    requires
        fe.len() >= 176,
        bytes::number(fe, 0, 2) == 261,
        fe[34] % 8 == 0,
        holds_descs(fe, m),
        recorded(fe, descs_at(fe), m) == bytes::number(fe, 56, 8),
        udf::file_entry(path, fe)[0].wf(),
        ({
            let e = udf::file_entry(path, fe)[0];
            source::holds_all(img, reader::file_runs(fmt, e, 0, e.data_length as int))
        }),
    ensures
        ({
            let e = udf::file_entry(path, fe)[0];
            source::copied_runs(img, reader::file_runs(fmt, e, 0, e.data_length as int)).len()
                == bytes::number(fe, 56, 8)
        }),
{
    let e = udf::file_entry(path, fe)[0];
    law_file_entry(path, fe, m);
    law_places_fit(fmt, e, 0);
    law_copied_file(img, fmt, e, 0);
}

} // verus!
