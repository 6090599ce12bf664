//! Listing an image and reading its files.

use crate::error;
use crate::error::{Error, Result};
use crate::iso::entry;
use crate::iso::entry::IsoEntry;
use crate::iso::volume;
use crate::iso::volume::{IsoFormat, SECTOR_SIZE};
use crate::iso::walk;
use crate::source;
use crate::text;
use vstd::prelude::*;

verus! {

/// The size that a file on a FAT32 file system stays under.
pub const FAT32_MAX_FILE_SIZE: u64 = 4_294_967_296;

// ---------------------------------------------------------------------------
// Where the bytes of a file lie
// ---------------------------------------------------------------------------
/// The length of the extents together.
pub open spec fn extents_len(descs: Seq<(u32, u32)>) -> int
    decreases descs.len(),
{
    if descs.len() == 0 {
        0
    } else {
        descs[0].1 + extents_len(descs.skip(1))
    }
}

/// Where the `j`-th byte of the extents lies in the image.
pub open spec fn extent_place(descs: Seq<(u32, u32)>, ps: int, j: int) -> int
    decreases descs.len(),
{
    if descs.len() == 0 {
        0
    } else if j < descs[0].1 {
        (ps + descs[0].0) * SECTOR_SIZE + j
    } else {
        extent_place(descs.skip(1), ps, j - descs[0].1)
    }
}

/// Where the `j`-th byte of a file lies in the image.
pub open spec fn file_place(fmt: IsoFormat, e: entry::IsoEntryView, j: int) -> int {
    let ps = walk::partition(fmt);
    if e.alloc_descs.len() == 0 {
        (ps + e.extent_lba) * SECTOR_SIZE + j
    } else {
        extent_place(e.alloc_descs, ps, j)
    }
}

/// How many bytes of a file there are: those of its length that its extents hold, where it has
/// extents.
pub open spec fn file_len(e: entry::IsoEntryView) -> int {
    if e.alloc_descs.len() > 0 && extents_len(e.alloc_descs) < e.data_length {
        extents_len(e.alloc_descs)
    } else {
        e.data_length as int
    }
}

/// How many bytes are read where `want` bytes from `offset` on are asked for.
pub open spec fn read_len(e: entry::IsoEntryView, offset: int, want: int) -> int {
    if offset >= file_len(e) {
        0
    } else if file_len(e) - offset < want {
        file_len(e) - offset
    } else {
        want
    }
}

/// The bytes of a file.
pub open spec fn file_bytes(img: Seq<u8>, fmt: IsoFormat, e: entry::IsoEntryView) -> Seq<u8> {
    Seq::new(file_len(e) as nat, |j: int| img[file_place(fmt, e, j)])
}

/// The ranges of `want` bytes from `offset` on in the extents.
pub open spec fn extent_runs(
    descs: Seq<(u32, u32)>,
    ps: int,
    offset: int,
    want: int,
) -> Seq<(u64, u64)>
    decreases descs.len(),
{
    if descs.len() == 0 || want <= 0 {
        Seq::empty()
    } else if offset >= descs[0].1 {
        extent_runs(descs.skip(1), ps, offset - descs[0].1, want)
    } else {
        let n = if descs[0].1 - offset < want {
            descs[0].1 - offset
        } else {
            want
        };
        seq![(((ps + descs[0].0) * SECTOR_SIZE + offset) as u64, n as u64)] + extent_runs(
            descs.skip(1),
            ps,
            0,
            want - n,
        )
    }
}

/// The ranges of `want` bytes from `offset` on in a file.
pub open spec fn file_runs(
    fmt: IsoFormat,
    e: entry::IsoEntryView,
    offset: int,
    want: int,
) -> Seq<(u64, u64)> {
    let ps = walk::partition(fmt);
    let n = if e.data_length - offset < want {
        e.data_length - offset
    } else {
        want
    };
    if n <= 0 {
        Seq::empty()
    } else if e.alloc_descs.len() == 0 {
        seq![(((ps + e.extent_lba) * SECTOR_SIZE + offset) as u64, n as u64)]
    } else {
        extent_runs(e.alloc_descs, ps, offset, n)
    }
}

/// The place of the byte at `offset` in a file can be counted in 64 bits.
pub open spec fn place_fits(fmt: IsoFormat, e: entry::IsoEntryView, offset: int) -> bool {
    e.alloc_descs.len() == 0 && offset < e.data_length ==> (walk::partition(fmt) + e.extent_lba)
        * SECTOR_SIZE + offset <= u64::MAX
}

proof fn lemma_extents_len(descs: Seq<(u32, u32)>)
    ensures
        0 <= extents_len(descs) <= descs.len() * 0x1_0000_0000,
    decreases descs.len(),
{
    if descs.len() > 0 {
        lemma_extents_len(descs.skip(1));
    }
}

/// The ranges in the extents cover the places of the bytes asked for.
proof fn lemma_extent_runs(descs: Seq<(u32, u32)>, ps: int, offset: int, want: int)
    requires
        0 <= offset,
        0 <= ps <= u32::MAX,
    ensures
        ({
            let left = extents_len(descs) - offset;
            let n = if left < want {
                left
            } else {
                want
            };
            source::places(extent_runs(descs, ps, offset, want)) == Seq::new(
                (if n < 0 {
                    0
                } else {
                    n
                }) as nat,
                |i: int| extent_place(descs, ps, offset + i),
            )
        }),
    decreases descs.len(),
{
    let left = extents_len(descs) - offset;
    let n = if left < want {
        left
    } else {
        want
    };
    let count = (if n < 0 {
        0
    } else {
        n
    }) as nat;
    let goal = Seq::new(count, |i: int| extent_place(descs, ps, offset + i));
    let runs = extent_runs(descs, ps, offset, want);
    lemma_extents_len(descs);
    if descs.len() == 0 || want <= 0 {
        assert(source::places(runs) =~= goal);
    } else {
        let rest = descs.skip(1);
        lemma_extents_len(rest);
        if offset >= descs[0].1 {
            lemma_extent_runs(rest, ps, offset - descs[0].1, want);
            assert(source::places(runs) =~= goal);
        } else {
            let here = if descs[0].1 - offset < want {
                descs[0].1 - offset
            } else {
                want
            };
            lemma_extent_runs(rest, ps, 0, want - here);
            let more = extent_runs(rest, ps, 0, want - here);
            let at = (ps + descs[0].0) * SECTOR_SIZE + offset;
            assert(runs.skip(1) =~= more);
            assert(runs[0] == (at as u64, here as u64));
            assert(source::places(runs) =~= goal) by {
                let a = Seq::new(here as nat, |i: int| runs[0].0 + i);
                assert(source::places(runs) == a + source::places(more));
                assert forall|i: int| 0 <= i < count implies (a + source::places(more))[i]
                    == goal[i] by {
                    if i >= here {
                        assert(source::places(more)[i - here] == extent_place(
                            rest,
                            ps,
                            0 + (i - here),
                        ));
                    }
                }
            }
        }
    }
}

/// Reading gives the bytes of the file: the ranges read for `want` bytes from `offset` on are
/// where those bytes lie.
pub proof fn law_runs_are_file(fmt: IsoFormat, e: entry::IsoEntryView, offset: int, want: int)
    requires
        e.wf(),
        0 <= offset,
        0 <= want <= u64::MAX,
        place_fits(fmt, e, offset),
    ensures
        source::places(file_runs(fmt, e, offset, want)) == Seq::new(
            read_len(e, offset, want) as nat,
            |i: int| file_place(fmt, e, offset + i),
        ),
{
    let ps = walk::partition(fmt);
    let n = if e.data_length - offset < want {
        e.data_length - offset
    } else {
        want
    };
    let runs = file_runs(fmt, e, offset, want);
    let goal = Seq::new(
        read_len(e, offset, want) as nat,
        |i: int| file_place(fmt, e, offset + i),
    );
    if n <= 0 {
        assert(source::places(runs) =~= goal);
    } else if e.alloc_descs.len() == 0 {
        assert(runs.skip(1) =~= Seq::empty());
        assert(source::places(runs.skip(1)) =~= Seq::empty());
        assert(source::places(runs) =~= goal);
    } else {
        lemma_extent_runs(e.alloc_descs, ps, offset, n);
        assert(source::places(runs) =~= goal);
    }
}

/// What is read from `offset` on are the bytes of the file there, and what is copied are all of
/// them.
pub proof fn law_read_and_copy_agree(
    img: Seq<u8>,
    fmt: IsoFormat,
    e: entry::IsoEntryView,
    offset: int,
    want: int,
)
    requires
        e.wf(),
        0 <= offset,
        0 <= want <= u64::MAX,
        place_fits(fmt, e, offset),
        source::holds_all(img, file_runs(fmt, e, 0, e.data_length as int)),
        source::holds_all(img, file_runs(fmt, e, offset, want)),
    ensures
        source::copied_runs(img, file_runs(fmt, e, 0, e.data_length as int)) == file_bytes(
            img,
            fmt,
            e,
        ),
        source::whole_runs(img, file_runs(fmt, e, offset, want)) == if read_len(e, offset, want)
            == 0 {
            Seq::empty()
        } else {
            file_bytes(img, fmt, e).subrange(offset, offset + read_len(e, offset, want))
        },
{
    lemma_extents_len(e.alloc_descs);
    let all = file_runs(fmt, e, 0, e.data_length as int);
    source::lemma_runs(img, all);
    law_runs_are_file(fmt, e, 0, e.data_length as int);
    assert(source::copied_runs(img, all) =~= file_bytes(img, fmt, e)) by {
        assert(source::places(all).len() == file_len(e));
        assert forall|i: int| 0 <= i < file_len(e) implies source::copied_runs(img, all)[i]
            == file_bytes(img, fmt, e)[i] by {
            assert(source::places(all)[i] == file_place(fmt, e, 0 + i));
        }
    }
    lemma_read_bytes(img, fmt, e, offset, want);
}

/// What is read from `offset` on are the bytes of the file there.
proof fn lemma_read_bytes(
    img: Seq<u8>,
    fmt: IsoFormat,
    e: entry::IsoEntryView,
    offset: int,
    want: int,
)
    requires
        e.wf(),
        0 <= offset,
        0 <= want <= u64::MAX,
        place_fits(fmt, e, offset),
        source::holds_all(img, file_runs(fmt, e, offset, want)),
    ensures
        source::whole_runs(img, file_runs(fmt, e, offset, want)) == if read_len(e, offset, want)
            == 0 {
            Seq::empty()
        } else {
            file_bytes(img, fmt, e).subrange(offset, offset + read_len(e, offset, want))
        },
{
    lemma_extents_len(e.alloc_descs);
    let some = file_runs(fmt, e, offset, want);
    source::lemma_runs(img, some);
    law_runs_are_file(fmt, e, offset, want);
    let n = read_len(e, offset, want);
    assert(source::places(some).len() == n);
    if n == 0 {
        assert(source::whole_runs(img, some) =~= Seq::empty());
    } else {
        assert(source::whole_runs(img, some) =~= file_bytes(img, fmt, e).subrange(
            offset,
            offset + n,
        )) by {
            assert forall|i: int| 0 <= i < n implies source::whole_runs(img, some)[i]
                == file_bytes(img, fmt, e).subrange(offset, offset + n)[i] by {
                assert(source::places(some)[i] == file_place(fmt, e, offset + i));
            }
        }
    }
}

/// The ranges of `want` bytes from `offset` on in a file.
pub fn plan_read(format: IsoFormat, e: &IsoEntry, offset: u64, want: u64) -> (r: Vec<(u64, u64)>)
    requires
        e@.wf(),
        want > 0 ==> place_fits(format, e@, offset as int),
    ensures
        r@ == file_runs(format, e@, offset as int, want as int),
        source::places(r@).len() == read_len(e@, offset as int, want as int),
{
    let ghost ps = walk::partition(format);
    let base: u64 = match format {
        IsoFormat::Udf { partition_start, .. } => partition_start as u64,
        IsoFormat::Iso9660 { .. } => 0,
    };
    let mut r: Vec<(u64, u64)> = Vec::new();
    proof {
        lemma_extents_len(e@.alloc_descs);
        if want > 0 {
            law_runs_are_file(format, e@, offset as int, want as int);
        }
    }
    assert(r@ =~= Seq::empty());
    if offset >= e.data_length || want == 0 {
        return r;
    }
    let left: u64 = e.data_length - offset;
    let n: u64 = if left < want {
        left
    } else {
        want
    };
    if e.alloc_descs.len() == 0 {
        r.push(((base + e.extent_lba as u64) * SECTOR_SIZE + offset, n));
        assert(r@ =~= file_runs(format, e@, offset as int, want as int));
        return r;
    }
    let ghost descs = e.alloc_descs@;
    let ghost all = extent_runs(descs, ps, offset as int, n as int);
    let count: usize = e.alloc_descs.len();
    let mut k: usize = 0;
    let mut skip: u64 = offset;
    let mut todo: u64 = n;
    assert(descs.skip(0) =~= descs);
    assert(r@ + all =~= all);
    while k < count && todo > 0
        invariant
            k <= count,
            count == descs.len(),
            descs == e.alloc_descs@,
            ps == base,
            base <= u32::MAX,
            all == file_runs(format, e@, offset as int, want as int),
            r@ + extent_runs(descs.skip(k as int), ps, skip as int, todo as int) == all,
        decreases count - k,
    {
        let (block, len) = e.alloc_descs[k];
        let ghost rest = descs.skip(k as int);
        let ghost before = r@;
        proof {
            assert(rest[0] == descs[k as int]);
            assert(rest.skip(1) =~= descs.skip(k + 1));
        }
        if skip >= len as u64 {
            skip -= len as u64;
        } else {
            let here: u64 = if len as u64 - skip < todo {
                len as u64 - skip
            } else {
                todo
            };
            let at: u64 = (base + block as u64) * SECTOR_SIZE + skip;
            r.push((at, here));
            proof {
                let more = extent_runs(descs.skip(k + 1), ps, 0, todo - here);
                assert(r@ + more =~= before + (seq![(at, here)] + more));
            }
            skip = 0;
            todo -= here;
        }
        k += 1;
    }
    assert(r@ + Seq::<(u64, u64)>::empty() =~= r@);
    r
}

/// Whether the place of the byte at `offset` in a file can be counted in 64 bits.
pub fn check_place(format: IsoFormat, e: &IsoEntry, offset: u64) -> (r: bool)
    ensures
        r == place_fits(format, e@, offset as int),
{
    let base: u64 = match format {
        IsoFormat::Udf { partition_start, .. } => partition_start as u64,
        IsoFormat::Iso9660 { .. } => 0,
    };
    let at: u64 = (base + e.extent_lba as u64) * SECTOR_SIZE;
    e.alloc_descs.len() > 0 || offset >= e.data_length || offset <= u64::MAX - at
}

// ---------------------------------------------------------------------------
// The reader
// ---------------------------------------------------------------------------
/// An image that is held in memory.
#[derive(Debug)]
pub struct IsoReader<'a> {
    image: &'a [u8],
    format: IsoFormat,
}

/// The image and its file system.
pub struct ReaderView {
    pub image: Seq<u8>,
    pub format: IsoFormat,
}

impl<'a> View for IsoReader<'a> {
    type V = ReaderView;

    closed spec fn view(&self) -> ReaderView {
        ReaderView { image: self.image@, format: self.format }
    }
}

/// A file is the installation image and too large for FAT32; `lowered` is its path in lower
/// case.
pub open spec fn is_oversized_wim(lowered: Seq<char>, size: u64) -> bool {
    text::finishes_with(lowered, "install.wim"@) && size >= FAT32_MAX_FILE_SIZE
}

/// Whether a file is the installation image and too large for FAT32; `lowered` is its path in
/// lower case.
pub fn oversized_wim(lowered: &str, size: u64) -> (r: bool)
    ensures
        r == is_oversized_wim(lowered@, size),
{
    text::ends_with(lowered, "install.wim") && size >= FAT32_MAX_FILE_SIZE
}

/// An installation image that is too large for FAT32 is among the entries.
pub open spec fn holds_oversized_wim(es: Seq<entry::IsoEntryView>) -> bool {
    exists|k: int|
        0 <= k < es.len() && is_oversized_wim(
            text::lowercase((#[trigger] es[k]).path),
            es[k].size,
        )
}

/// Whether an installation image that is too large for FAT32 is among the entries.
pub fn any_oversized_wim(entries: &Vec<IsoEntry>) -> (r: bool)
    ensures
        r == holds_oversized_wim(entry::views(entries@)),
{
    let ghost es = entry::views(entries@);
    let n: usize = entries.len();
    let mut k: usize = 0;
    while k < n
        invariant
            k <= n,
            n == entries@.len(),
            es == entry::views(entries@),
            forall|i: int|
                0 <= i < k ==> !is_oversized_wim(
                    text::lowercase((#[trigger] es[i]).path),
                    es[i].size,
                ),
        decreases n - k,
    {
        assert(es[k as int] == entries@[k as int]@);
        let lowered = text::to_lowercase(entries[k].path.as_str());
        if oversized_wim(lowered.as_str(), entries[k].size) {
            return true;
        }
        k += 1;
    }
    false
}

impl<'a> IsoReader<'a> {
    /// Opens an image: UDF where it has that, else ISO 9660.
    pub fn open(image: &'a [u8]) -> (r: Result<IsoReader<'a>>)
        ensures
            match r {
                Ok(x) => volume::image_format(image@) == Ok::<_, error::ErrorView>(x@.format)
                    && x@.image == image@,
                Err(e) => volume::image_format(image@) == Err::<IsoFormat, _>(e@),
            },
    {
        match volume::detect(image) {
            Ok(format) => Ok(IsoReader { image, format }),
            Err(e) => Err(e),
        }
    }

    /// The file system of the image.
    pub fn format(&self) -> (r: IsoFormat)
        ensures
            r == self@.format,
    {
        self.format
    }

    /// Lists the files and directories of the image, depth first.
    pub fn list_files(&self) -> (r: Result<Vec<IsoEntry>>)
        requires
            walk::can_be_listed(self@.image, self@.format),
        ensures
            forall|fuel: nat|
                !(#[trigger] walk::image_listing(self@.image, self@.format, fuel) is Stuck)
                    ==> match r {
                    Ok(v) => walk::image_listing(self@.image, self@.format, fuel)
                        == entry::Listing::Listed(entry::views(v@)),
                    Err(e) => walk::image_listing(self@.image, self@.format, fuel)
                        == entry::Listing::Failed(e@),
                },
            r matches Ok(v) ==> forall|k: int| 0 <= k < v@.len() ==> (#[trigger] v@[k])@.wf(),
    {
        walk::list_image(self.image, self.format)
    }

    /// Whether the image holds an installation image that is too large for FAT32.
    pub fn has_oversized_wim(&self) -> (r: Result<bool>)
        requires
            walk::can_be_listed(self@.image, self@.format),
        ensures
            forall|fuel: nat|
                match #[trigger] walk::image_listing(self@.image, self@.format, fuel) {
                    entry::Listing::Listed(es) => r is Ok && r->Ok_0 == holds_oversized_wim(es),
                    entry::Listing::Failed(e) => r is Err && r->Err_0@ == e,
                    entry::Listing::Stuck => true,
                },
    {
        match self.list_files() {
            Err(e) => Err(e),
            Ok(v) => Ok(any_oversized_wim(&v)),
        }
    }

    /// Reads from a file into the beginning of `buf`, and returns how many bytes were read. On an
    /// error the extents before the one that cannot be read are in `buf`.
    pub fn read_file_at(&self, e: &IsoEntry, offset: u64, buf: &mut Vec<u8>) -> (r: Result<usize>)
        requires
            e@.wf(),
            old(buf)@.len() > 0 ==> place_fits(self@.format, e@, offset as int),
        ensures
            ({
                let runs = file_runs(self@.format, e@, offset as int, old(buf)@.len() as int);
                &&& final(buf)@ == crate::bytes::overwrite(
                    old(buf)@,
                    0,
                    source::whole_runs(self@.image, runs),
                )
                &&& match r {
                    Ok(n) => source::holds_all(self@.image, runs) && n == read_len(
                        e@,
                        offset as int,
                        old(buf)@.len() as int,
                    ),
                    Err(x) => !source::holds_all(self@.image, runs) && x@ == source::cut_short(),
                }
            }),
    {
        let want: u64 = buf.len() as u64;
        let runs = plan_read(self.format, e, offset, want);
        proof {
            lemma_extents_len(e@.alloc_descs);
        }
        source::read_runs(self.image, &runs, buf)
    }

    /// Copies a file, and returns how many bytes were copied. On an error what was copied before
    /// it is in `writer`.
    pub fn copy_file_to(&self, e: &IsoEntry, writer: &mut Vec<u8>) -> (r: Result<u64>)
        requires
            e@.wf(),
        ensures
            ({
                let runs = file_runs(self@.format, e@, 0, e@.data_length as int);
                &&& final(writer)@ == old(writer)@ + source::copied_runs(self@.image, runs)
                &&& match r {
                    Ok(n) => source::holds_all(self@.image, runs) && n == file_len(e@),
                    Err(x) => !source::holds_all(self@.image, runs) && x@ == source::cut_short(),
                }
            }),
    {
        let runs = plan_read(self.format, e, 0, e.data_length);
        match source::copy_runs(self.image, &runs, writer) {
            Err(x) => Err(x),
            Ok(()) => Ok(total_len(&runs, e)),
        }
    }
}

/// The length of the ranges of a file together.
fn total_len(runs: &Vec<(u64, u64)>, e: &IsoEntry) -> (r: u64)
    requires
        e@.wf(),
        source::places(runs@).len() == read_len(e@, 0, e@.data_length as int),
    ensures
        r == file_len(e@),
{
    let n: usize = runs.len();
    let ghost all = runs@;
    let mut sum: u64 = 0;
    let mut k: usize = 0;
    proof {
        lemma_extents_len(e@.alloc_descs);
        assert(all.skip(0) =~= all);
    }
    while k < n
        invariant
            k <= n,
            all == runs@,
            n == all.len(),
            source::places(all).len() <= u64::MAX,
            sum + source::places(all.skip(k as int)).len() == source::places(all).len(),
        decreases n - k,
    {
        proof {
            assert(all.skip(k as int)[0] == all[k as int]);
            assert(all.skip(k as int).skip(1) =~= all.skip(k + 1));
        }
        sum += runs[k].1;
        k += 1;
    }
    sum
}

// ---------------------------------------------------------------------------
// A file as a stream
// ---------------------------------------------------------------------------
/// A place to go to in a stream.
#[derive(Debug, Clone, Copy)]
pub enum SeekTo {
    /// From the beginning.
    Start(u64),
    /// From the present place.
    Current(i64),
    /// From the end.
    End(i64),
}

/// `x` read as a signed number.
pub open spec fn signed(x: u64) -> int {
    if x <= i64::MAX {
        x as int
    } else {
        x - 0x1_0000_0000_0000_0000
    }
}

/// Where a seek leads.
pub open spec fn seek_place(pos: u64, size: u64, to: SeekTo) -> int {
    match to {
        SeekTo::Start(p) => signed(p),
        SeekTo::Current(d) => signed(pos) + d,
        SeekTo::End(d) => signed(size) + d,
    }
}

/// `x` read as a signed number.
fn as_signed(x: u64) -> (r: i128)
    ensures
        r == signed(x),
{
    if x <= 0x7FFF_FFFF_FFFF_FFFF {
        x as i128
    } else {
        x as i128 - 0x1_0000_0000_0000_0000
    }
}

/// Where a seek from `pos` in a stream of `size` bytes leads.
pub fn seek_target(pos: u64, size: u64, to: SeekTo) -> (r: Result<u64>)
    requires
        i64::MIN <= seek_place(pos, size, to) <= i64::MAX,
    ensures
        match r {
            Ok(p) => p == seek_place(pos, size, to),
            Err(e) => seek_place(pos, size, to) < 0 && e@ == error::ErrorView::Io(
                "seek before start"@,
            ),
        },
{
    let place: i128 = match to {
        SeekTo::Start(p) => as_signed(p),
        SeekTo::Current(d) => as_signed(pos) + d as i128,
        SeekTo::End(d) => as_signed(size) + d as i128,
    };
    if place < 0 {
        Err(Error::Io("seek before start".to_owned()))
    } else {
        Ok(place as u64)
    }
}

/// A file in an image, read as a stream.
#[derive(Debug)]
pub struct IsoFileReader<'a> {
    iso: &'a IsoReader<'a>,
    entry: &'a IsoEntry,
    pos: u64,
    size: u64,
}

/// A file in an image and the place in it.
pub struct FileReaderView {
    pub iso: ReaderView,
    pub entry: entry::IsoEntryView,
    pub pos: u64,
    pub size: u64,
}

impl<'a> View for IsoFileReader<'a> {
    type V = FileReaderView;

    closed spec fn view(&self) -> FileReaderView {
        FileReaderView {
            iso: self.iso@,
            entry: self.entry@,
            pos: self.pos,
            size: self.size,
        }
    }
}

/// A result with the error in plain words.
pub open spec fn outcome<T>(r: Result<T>) -> std::result::Result<T, error::ErrorView> {
    match r {
        Ok(x) => Ok(x),
        Err(e) => Err(e@),
    }
}

/// Reading from `a` into `buf` gives `r`, and leaves the file at `b` and `out` in the buffer.
pub open spec fn has_read(
    a: FileReaderView,
    buf: Seq<u8>,
    r: std::result::Result<usize, error::ErrorView>,
    b: FileReaderView,
    out: Seq<u8>,
) -> bool {
    let runs = file_runs(a.iso.format, a.entry, a.pos as int, buf.len() as int);
    if a.pos >= a.size {
        r == Ok::<usize, error::ErrorView>(0) && b == a && out == buf
    } else {
        &&& out == crate::bytes::overwrite(buf, 0, source::whole_runs(a.iso.image, runs))
        &&& match r {
            Ok(n) => {
                &&& source::holds_all(a.iso.image, runs)
                &&& n == read_len(a.entry, a.pos as int, buf.len() as int)
                &&& b == (FileReaderView { pos: (a.pos + n) as u64, ..a })
            },
            Err(x) => {
                &&& !source::holds_all(a.iso.image, runs)
                &&& x == error::ErrorView::Io(error::error_words(source::cut_short()))
                &&& b == a
            },
        }
    }
}

/// Going from `a` to another place gives `r`, and leaves the file at `b`.
pub open spec fn has_sought(
    a: FileReaderView,
    to: SeekTo,
    r: std::result::Result<u64, error::ErrorView>,
    b: FileReaderView,
) -> bool {
    match r {
        Ok(p) => {
            &&& p == seek_place(a.pos, a.size, to)
            &&& b == (FileReaderView { pos: p, ..a })
        },
        Err(e) => {
            &&& seek_place(a.pos, a.size, to) < 0
            &&& e == error::ErrorView::Io("seek before start"@)
            &&& b == a
        },
    }
}

/// Reading gives the bytes of the file from the present place on and leaves the rest of the buffer
/// alone; the next place is behind what was read. Nothing is read only at the end of the file, or
/// where nothing is asked for.
pub proof fn law_read_gives_file(
    a: FileReaderView,
    buf: Seq<u8>,
    n: usize,
    b: FileReaderView,
    out: Seq<u8>,
)
    requires
        a.entry.wf(),
        a.size == a.entry.size,
        a.entry.size == a.entry.data_length,
        buf.len() <= usize::MAX,
        place_fits(a.iso.format, a.entry, a.pos as int),
        has_read(a, buf, Ok(n), b, out),
    ensures
        n <= buf.len(),
        n == 0 <==> buf.len() == 0 || a.pos >= file_len(a.entry),
        n > 0 ==> a.pos + n <= a.size,
        out == crate::bytes::overwrite(
            buf,
            0,
            if n == 0 {
                Seq::empty()
            } else {
                file_bytes(a.iso.image, a.iso.format, a.entry).subrange(a.pos as int, a.pos + n)
            },
        ),
        b == (FileReaderView { pos: (a.pos + n) as u64, ..a }),
        a.pos + n <= u64::MAX,
{
    lemma_extents_len(a.entry.alloc_descs);
    if a.pos >= a.size {
        assert(out =~= crate::bytes::overwrite(buf, 0, Seq::empty()));
    } else {
        lemma_read_bytes(
            a.iso.image,
            a.iso.format,
            a.entry,
            a.pos as int,
            buf.len() as int,
        );
    }
}

/// Going to a place in a file and reading gives the bytes of the file from there on, and the place
/// is then behind them.
pub proof fn law_seek_and_read(
    a: FileReaderView,
    to: SeekTo,
    p: u64,
    at: FileReaderView,
    buf: Seq<u8>,
    n: usize,
    b: FileReaderView,
    out: Seq<u8>,
)
    requires
        a.entry.wf(),
        a.size == a.entry.size,
        a.entry.size == a.entry.data_length,
        a.size <= i64::MAX,
        buf.len() <= usize::MAX,
        seek_place(a.pos, a.size, to) <= i64::MAX,
        has_sought(a, to, Ok(p), at),
        place_fits(a.iso.format, a.entry, p as int),
        has_read(at, buf, Ok(n), b, out),
    ensures
        p == seek_place(a.pos, a.size, to),
        n <= buf.len(),
        p >= a.size ==> n == 0,
        out.len() == buf.len(),
        n > 0 ==> out.subrange(0, n as int) == file_bytes(
            a.iso.image,
            a.iso.format,
            a.entry,
        ).subrange(p as int, p + n),
        out.skip(n as int) == buf.skip(n as int),
        has_sought(b, SeekTo::Current(0), Ok((p + n) as u64), b),
        b.iso == a.iso && b.entry == a.entry && b.size == a.size,
{
    law_read_gives_file(at, buf, n, b, out);
    if n > 0 {
        assert(out.subrange(0, n as int) =~= file_bytes(
            a.iso.image,
            a.iso.format,
            a.entry,
        ).subrange(p as int, p + n));
    }
    assert(out.skip(n as int) =~= buf.skip(n as int));
}

impl<'a> IsoFileReader<'a> {
    /// The beginning of a file.
    pub fn new(iso: &'a IsoReader<'a>, entry: &'a IsoEntry) -> (r: IsoFileReader<'a>)
        ensures
            r@ == (FileReaderView { iso: iso@, entry: entry@, pos: 0, size: entry@.size }),
    {
        IsoFileReader { size: entry.size, iso, entry, pos: 0 }
    }

    /// The place in the file.
    pub fn position(&self) -> (r: u64)
        ensures
            r == self@.pos,
    {
        self.pos
    }

    /// Reads from the present place into the beginning of `buf`, and goes on behind what was
    /// read.
    pub fn read(&mut self, buf: &mut Vec<u8>) -> (r: Result<usize>)
        requires
            old(self)@.entry.wf(),
            old(self)@.pos < old(self)@.size && old(buf)@.len() > 0 ==> place_fits(
                old(self)@.iso.format,
                old(self)@.entry,
                old(self)@.pos as int,
            ),
        ensures
            has_read(old(self)@, old(buf)@, outcome(r), final(self)@, final(buf)@),
    {
        if self.pos >= self.size {
            return Ok(0);
        }
        match self.iso.read_file_at(self.entry, self.pos, buf) {
            Ok(n) => {
                proof {
                    lemma_extents_len(self.entry@.alloc_descs);
                }
                self.pos = self.pos + n as u64;
                Ok(n)
            },
            Err(e) => Err(Error::Io(e.message())),
        }
    }

    /// Goes to another place in the file, and returns it.
    pub fn seek(&mut self, to: SeekTo) -> (r: Result<u64>)
        requires
            i64::MIN <= seek_place(old(self)@.pos, old(self)@.size, to) <= i64::MAX,
        ensures
            has_sought(old(self)@, to, outcome(r), final(self)@),
    {
        match seek_target(self.pos, self.size, to) {
            Ok(p) => {
                self.pos = p;
                Ok(p)
            },
            Err(e) => Err(e),
        }
    }
}

} // verus!
