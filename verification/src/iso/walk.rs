//! Walking through the directories of an image, one read at a time.

use crate::bytes;
use crate::error;
use crate::error::{Error, Result};
use crate::iso::entry;
use crate::iso::entry::IsoEntry;
use crate::iso::iso9660;
use crate::iso::udf;
use crate::iso::udf::FidStop;
use crate::iso::volume;
use crate::iso::volume::{IsoFormat, SECTOR_SIZE};
use crate::source;
use crate::text;
use vstd::pervasive::unreached;
use vstd::prelude::*;

verus! {

// ---------------------------------------------------------------------------
// What an image holds
// ---------------------------------------------------------------------------
/// What a directory holds.
pub open spec fn dir_listing(
    img: Seq<u8>,
    fmt: IsoFormat,
    d: entry::DirView,
) -> entry::Listing {
    match fmt {
        IsoFormat::Iso9660 { joliet, .. } => match source::bytes_at(
            img,
            d.lba * SECTOR_SIZE,
            d.length as int,
        ) {
            None => entry::Listing::Failed(source::cut_short()),
            Some(data) => iso9660::records(data, 0, joliet, d.path),
        },
        IsoFormat::Udf { partition_start, .. } => udf::directory(
            img,
            partition_start as int,
            d.lba as int,
            d.path,
        ),
    }
}

/// What these directories and those within them hold, depth first: the entries of a directory,
/// then those of its subdirectories in order. At most `fuel` directories are read.
pub open spec fn walk(
    img: Seq<u8>,
    fmt: IsoFormat,
    dirs: Seq<entry::DirView>,
    fuel: nat,
) -> entry::Listing
    decreases fuel,
{
    if dirs.len() == 0 {
        entry::Listing::Listed(Seq::empty())
    } else if fuel == 0 {
        entry::Listing::Stuck
    } else {
        match dir_listing(img, fmt, dirs[0]) {
            entry::Listing::Listed(es) => entry::after(
                es,
                walk(img, fmt, entry::subdirs(es) + dirs.skip(1), (fuel - 1) as nat),
            ),
            other => other,
        }
    }
}

/// The root directory.
pub open spec fn root_dir(fmt: IsoFormat) -> entry::DirView {
    match fmt {
        IsoFormat::Iso9660 { root_extent_lba, root_extent_len, .. } => entry::DirView {
            lba: root_extent_lba,
            length: root_extent_len as u64,
            path: Seq::empty(),
        },
        IsoFormat::Udf { root_icb_lba, .. } => entry::DirView {
            lba: root_icb_lba,
            length: 0,
            path: Seq::empty(),
        },
    }
}

/// What an image holds, where at most `fuel` directories are read.
pub open spec fn image_listing(img: Seq<u8>, fmt: IsoFormat, fuel: nat) -> entry::Listing {
    walk(img, fmt, seq![root_dir(fmt)], fuel)
}

/// The directories of the image end, and no record in them runs over its end.
pub open spec fn can_be_listed(img: Seq<u8>, fmt: IsoFormat) -> bool {
    exists|fuel: nat| !(#[trigger] image_listing(img, fmt, fuel) is Stuck)
}

/// Where some number of directories is enough, more make no difference.
pub proof fn law_fuel(
    img: Seq<u8>,
    fmt: IsoFormat,
    dirs: Seq<entry::DirView>,
    a: nat,
    b: nat,
)
    requires
        !(walk(img, fmt, dirs, a) is Stuck),
        a <= b,
    ensures
        walk(img, fmt, dirs, b) == walk(img, fmt, dirs, a),
    decreases a,
{
    if dirs.len() > 0 && a > 0 {
        if let entry::Listing::Listed(es) = dir_listing(img, fmt, dirs[0]) {
            law_fuel(
                img,
                fmt,
                entry::subdirs(es) + dirs.skip(1),
                (a - 1) as nat,
                (b - 1) as nat,
            );
        }
    }
}

/// Directories are listed one after another: first everything under the first ones, then
/// everything under the others. Where reading fails under the first ones, the others are not
/// looked at.
pub proof fn law_depth_first(
    img: Seq<u8>,
    fmt: IsoFormat,
    x: Seq<entry::DirView>,
    y: Seq<entry::DirView>,
    a: nat,
    b: nat,
)
    requires
        !(walk(img, fmt, x, a) is Stuck),
        !(walk(img, fmt, y, b) is Stuck),
    ensures
        walk(img, fmt, x + y, a + b) == match walk(img, fmt, x, a) {
            entry::Listing::Listed(s) => entry::after(s, walk(img, fmt, y, b)),
            other => other,
        },
    decreases a,
{
    if x.len() == 0 {
        assert(x + y =~= y);
        law_fuel(img, fmt, y, b, a + b);
        iso9660::lemma_after_nothing(walk(img, fmt, y, b));
    } else {
        assert((x + y)[0] == x[0]);
        if let entry::Listing::Listed(es) = dir_listing(img, fmt, x[0]) {
            let inner = entry::subdirs(es) + x.skip(1);
            assert(entry::subdirs(es) + (x + y).skip(1) =~= inner + y);
            law_depth_first(img, fmt, inner, y, (a - 1) as nat, b);
            assert((a - 1) as nat + b == (a + b - 1) as nat);
            if let entry::Listing::Listed(s) = walk(img, fmt, inner, (a - 1) as nat) {
                if let entry::Listing::Listed(t) = walk(img, fmt, y, b) {
                    assert(es + (s + t) =~= (es + s) + t);
                }
            }
        }
    }
}

// ---------------------------------------------------------------------------
// The walker
// ---------------------------------------------------------------------------
/// A directory that is still to be read.
#[derive(Debug)]
struct Dir {
    lba: u32,
    length: u64,
    path: String,
}

impl View for Dir {
    type V = entry::DirView;

    closed spec fn view(&self) -> entry::DirView {
        entry::DirView { lba: self.lba, length: self.length, path: self.path@ }
    }
}

/// How far a directory has been read.
#[derive(Debug)]
enum Stage {
    /// No directory is being read.
    Idle,
    /// Nothing has been read.
    Begin(Dir),
    /// The extents before the `i`-th have been read.
    Extent { path: String, descs: Vec<(u32, u32)>, i: usize, data: Vec<u8> },
    /// The file entry of a child is wanted; `next` is where the next descriptor begins.
    Child { path: String, data: Vec<u8>, child: String, lba: u32, next: usize },
}

/// How far a directory has been read.
pub enum StageView {
    Idle,
    Begin(entry::DirView),
    Extent { path: Seq<char>, descs: Seq<(u32, u32)>, i: int, data: Seq<u8> },
    Child { path: Seq<char>, data: Seq<u8>, child: Seq<char>, lba: u32, next: int },
}

/// How far the walk has come: what was found, the directories still to be read, the first one
/// next, and how far the present one has been read, whose entries begin at `first`.
pub struct WalkerView {
    pub format: IsoFormat,
    pub entries: Seq<entry::IsoEntryView>,
    pub pending: Seq<entry::DirView>,
    pub first: int,
    pub stage: StageView,
}

/// A walk through the directories of an image.
#[derive(Debug)]
pub struct Walker {
    format: IsoFormat,
    entries: Vec<IsoEntry>,
    pending: Vec<Dir>,
    first: usize,
    stage: Stage,
}

impl View for Stage {
    type V = StageView;

    closed spec fn view(&self) -> StageView {
        match self {
            Stage::Idle => StageView::Idle,
            Stage::Begin(d) => StageView::Begin(d@),
            Stage::Extent { path, descs, i, data } => StageView::Extent {
                path: path@,
                descs: descs@,
                i: *i as int,
                data: data@,
            },
            Stage::Child { path, data, child, lba, next } => StageView::Child {
                path: path@,
                data: data@,
                child: child@,
                lba: *lba,
                next: *next as int,
            },
        }
    }
}

/// The directories on a stack, the top one first.
spec fn top_first(v: Seq<Dir>) -> Seq<entry::DirView> {
    Seq::new(v.len(), |i: int| v[v.len() - 1 - i]@)
}

impl View for Walker {
    type V = WalkerView;

    closed spec fn view(&self) -> WalkerView {
        WalkerView {
            format: self.format,
            entries: entry::views(self.entries@),
            pending: top_first(self.pending@),
            first: self.first as int,
            stage: self.stage@,
        }
    }
}

/// The block at which the partition begins.
pub open spec fn partition(fmt: IsoFormat) -> int {
    match fmt {
        IsoFormat::Udf { partition_start, .. } => partition_start as int,
        IsoFormat::Iso9660 { .. } => 0,
    }
}

impl WalkerView {
    pub open spec fn wf(self) -> bool {
        &&& 0 <= self.first <= self.entries.len()
        &&& forall|k: int| 0 <= k < self.entries.len() ==> (#[trigger] self.entries[k]).wf()
        &&& match self.stage {
            StageView::Idle => self.first == self.entries.len(),
            StageView::Begin(_) => true,
            StageView::Extent { descs, i, .. } => self.format is Udf && 0 <= i < descs.len(),
            StageView::Child { next, .. } => self.format is Udf && next > 0,
        }
    }

    /// The same walk with the present directory read so far.
    pub open spec fn at_stage(self, stage: StageView) -> WalkerView {
        WalkerView { stage, ..self }
    }

    /// What is still to come of the present directory.
    pub open spec fn rest_of_dir(self, img: Seq<u8>) -> entry::Listing {
        let ps = partition(self.format);
        match self.stage {
            StageView::Idle => entry::Listing::Listed(Seq::empty()),
            StageView::Begin(d) => dir_listing(img, self.format, d),
            StageView::Extent { path, descs, i, data } => match udf::gathered(img, ps, descs, i) {
                None => entry::Listing::Failed(source::cut_short()),
                Some(more) => udf::children(img, ps, data + more, 0, path),
            },
            StageView::Child { path, data, child, lba, next } => udf::from_file(
                img,
                ps,
                data,
                path,
                child,
                lba,
                next,
            ),
        }
    }

    /// What the walk will come to where `rest` is still to come of the present directory, and at
    /// most `fuel` more directories are begun.
    pub open spec fn goes_on(self, rest: entry::Listing, img: Seq<u8>, fuel: nat) -> entry::Listing {
        match rest {
            entry::Listing::Listed(es) => entry::after(
                self.entries + es,
                walk(
                    img,
                    self.format,
                    entry::subdirs(self.entries.skip(self.first) + es) + self.pending,
                    fuel,
                ),
            ),
            other => other,
        }
    }

    /// What the walk will come to where at most `fuel` more directories are begun.
    #[verifier::opaque]
    pub open spec fn comes_to(self, img: Seq<u8>, fuel: nat) -> entry::Listing {
        self.goes_on(self.rest_of_dir(img), img, fuel)
    }

    /// What is to be read next: where, and how many bytes.
    pub open spec fn wanted(self) -> (int, int) {
        let ps = partition(self.format);
        match self.stage {
            StageView::Idle => (0, 0),
            StageView::Begin(d) => match self.format {
                IsoFormat::Iso9660 { .. } => (d.lba * SECTOR_SIZE, d.length as int),
                IsoFormat::Udf { .. } => ((ps + d.lba) * SECTOR_SIZE, SECTOR_SIZE as int),
            },
            StageView::Extent { descs, i, .. } => (
                (ps + descs[i].0) * SECTOR_SIZE,
                descs[i].1 as int,
            ),
            StageView::Child { lba, .. } => ((ps + lba) * SECTOR_SIZE, SECTOR_SIZE as int),
        }
    }

    /// How much is left of the present directory: a kind of work, and how much of it.
    pub open spec fn left(self) -> (int, int) {
        match self.stage {
            StageView::Idle => (0, 0),
            StageView::Begin(_) => (3, 0),
            StageView::Extent { descs, i, .. } => (2, descs.len() - i),
            StageView::Child { data, next, .. } => (1, entry::bytes_left(data.len(), next) as int),
        }
    }
}

/// What comes of bytes that were read.
#[derive(Debug)]
pub enum Supplied {
    /// The walk goes on.
    Continue,
    /// It has failed.
    Failed(Error),
    /// A record runs over its end.
    Malformed,
}

proof fn lemma_push_top(v: Seq<Dir>, d: Dir)
    ensures
        top_first(v.push(d)) == seq![d@] + top_first(v),
{
    assert(top_first(v.push(d)) =~= seq![d@] + top_first(v));
}

impl Walker {
    /// A walk through the whole image.
    pub fn new(format: IsoFormat) -> (r: Walker)
        ensures
            r@.wf(),
            r@.format == format,
            r@.stage == StageView::Idle,
            forall|img: Seq<u8>, fuel: nat|
                #[trigger] r@.comes_to(img, fuel) == image_listing(img, format, fuel),
    {
        let root = match format {
            IsoFormat::Iso9660 { root_extent_lba, root_extent_len, .. } => Dir {
                lba: root_extent_lba,
                length: root_extent_len as u64,
                path: String::new(),
            },
            IsoFormat::Udf { root_icb_lba, .. } => Dir {
                lba: root_icb_lba,
                length: 0,
                path: String::new(),
            },
        };
        let ghost d = root@;
        let mut pending: Vec<Dir> = Vec::new();
        pending.push(root);
        let w = Walker { format, entries: Vec::new(), pending, first: 0, stage: Stage::Idle };
        proof {
            reveal(WalkerView::comes_to);
            assert(w@.entries =~= Seq::empty());
            assert(w@.pending =~= seq![root_dir(format)]);
            let none = Seq::<entry::IsoEntryView>::empty();
            assert(w@.entries.skip(0) + none =~= none);
            assert(w@.entries + none =~= none);
            assert(entry::subdirs(none) + w@.pending =~= w@.pending);
            assert forall|img: Seq<u8>, fuel: nat|
                #[trigger] w@.comes_to(img, fuel) == image_listing(img, format, fuel) by {
                iso9660::lemma_after_nothing(image_listing(img, format, fuel));
            }
        }
        w
    }

    /// Whether no directory is being read.
    pub fn is_idle(&self) -> (r: bool)
        ensures
            r == (self@.stage == StageView::Idle),
    {
        matches!(&self.stage, Stage::Idle)
    }

    /// What was found so far.
    pub fn into_entries(self) -> (r: Vec<IsoEntry>)
        ensures
            entry::views(r@) == self@.entries,
    {
        self.entries
    }

    /// What is to be read next; nothing where the walk is over. Begins the next directory where
    /// none is being read.
    pub fn next_read(&mut self) -> (r: Option<(u64, u64)>)
        requires
            old(self)@.wf(),
        ensures
            final(self)@.wf(),
            final(self)@.format == old(self)@.format,
            match r {
                None => {
                    &&& final(self)@ == old(self)@
                    &&& forall|img: Seq<u8>, fuel: nat|
                        #[trigger] old(self)@.comes_to(img, fuel) == entry::Listing::Listed(
                            old(self)@.entries,
                        )
                },
                Some((off, n)) => {
                    &&& final(self)@.stage != StageView::Idle
                    &&& (off as int, n as int) == final(self)@.wanted()
                    &&& if old(self)@.stage == StageView::Idle {
                        forall|img: Seq<u8>, fuel: nat|
                            #[trigger] old(self)@.comes_to(img, fuel) == if fuel == 0 {
                                entry::Listing::Stuck
                            } else {
                                final(self)@.comes_to(img, (fuel - 1) as nat)
                            }
                    } else {
                        final(self)@ == old(self)@
                    }
                },
            },
    {
        let ghost before = self@;
        let idle: bool = self.is_idle();
        if idle {
            let ghost stack = self.pending@;
            match self.pending.pop() {
                None => {
                    proof {
                        assert(before.pending =~= Seq::empty());
                        lemma_idle(before);
                        assert forall|img: Seq<u8>, fuel: nat|
                            #[trigger] before.comes_to(img, fuel) == entry::Listing::Listed(
                                before.entries,
                            ) by {
                            iso9660::lemma_after_end(before.entries);
                        }
                        assert(self@ == before);
                    }
                    return None;
                },
                Some(d) => {
                    let ghost dv = d@;
                    self.stage = Stage::Begin(d);
                    proof {
                        assert(stack =~= self.pending@.push(d));
                        lemma_push_top(self.pending@, d);
                        assert(before.pending == seq![dv] + self@.pending);
                        lemma_idle(before);
                        lemma_begun(before, self@, dv);
                    }
                },
            }
        }
        let base: u64 = match self.format {
            IsoFormat::Udf { partition_start, .. } => partition_start as u64,
            IsoFormat::Iso9660 { .. } => 0,
        };
        match &self.stage {
            Stage::Idle => None,
            Stage::Begin(d) => match self.format {
                IsoFormat::Iso9660 { .. } => Some((d.lba as u64 * SECTOR_SIZE, d.length)),
                IsoFormat::Udf { .. } => Some(((base + d.lba as u64) * SECTOR_SIZE, SECTOR_SIZE)),
            },
            Stage::Extent { descs, i, .. } => {
                let (block, len) = descs[*i];
                Some(((base + block as u64) * SECTOR_SIZE, len as u64))
            },
            Stage::Child { lba, .. } => Some(((base + *lba as u64) * SECTOR_SIZE, SECTOR_SIZE)),
        }
    }

    /// Goes on with the bytes that were wanted.
    pub fn supply(&mut self, buf: &[u8]) -> (r: Supplied)
        requires
            old(self)@.wf(),
            old(self)@.stage != StageView::Idle,
            buf@.len() == old(self)@.wanted().1,
        ensures
            final(self)@.format == old(self)@.format,
            r is Continue ==> final(self)@.wf() && {
                let a = old(self)@.left();
                let b = final(self)@.left();
                b.0 < a.0 || b.0 == a.0 && 0 <= b.1 < a.1
            },
            forall|img: Seq<u8>, fuel: nat|
                source::bytes_at(img, old(self)@.wanted().0, old(self)@.wanted().1) == Some(buf@)
                    ==> #[trigger] old(self)@.comes_to(img, fuel) == match r {
                    Supplied::Continue => final(self)@.comes_to(img, fuel),
                    Supplied::Failed(e) => entry::Listing::Failed(e@),
                    Supplied::Malformed => entry::Listing::Stuck,
                },
    {
        let mut stage = Stage::Idle;
        std::mem::swap(&mut stage, &mut self.stage);
        match stage {
            Stage::Idle => Supplied::Continue,
            Stage::Begin(d) => match self.format {
                IsoFormat::Iso9660 { joliet, .. } => self.supply_records(d, joliet, buf),
                IsoFormat::Udf { partition_start, .. } => self.supply_entry(
                    d,
                    partition_start,
                    buf,
                ),
            },
            Stage::Extent { path, descs, i, data } => self.supply_extent(
                path,
                descs,
                i,
                data,
                buf,
            ),
            Stage::Child { path, data, child, lba, next } => self.supply_child(
                path,
                data,
                child,
                lba,
                next,
                buf,
            ),
        }
    }
}

/// With no directory being read, the walk comes to what was found and what is pending.
proof fn lemma_idle(w: WalkerView)
    requires
        w.wf(),
        w.stage == StageView::Idle,
    ensures
        forall|img: Seq<u8>, fuel: nat|
            #[trigger] w.comes_to(img, fuel) == entry::after(
                w.entries,
                walk(img, w.format, w.pending, fuel),
            ),
{
    reveal(WalkerView::comes_to);
    let none = Seq::<entry::IsoEntryView>::empty();
    assert(w.entries.skip(w.first) + none =~= none);
    assert(w.entries + none =~= w.entries);
    assert(entry::subdirs(none) + w.pending =~= w.pending);
}

/// Beginning a directory.
proof fn lemma_begun(a: WalkerView, b: WalkerView, d: entry::DirView)
    requires
        a.wf(),
        a.stage == StageView::Idle,
        a.pending == seq![d] + b.pending,
        b.stage == StageView::Begin(d),
        b.entries == a.entries,
        b.first == a.first,
        b.format == a.format,
    ensures
        forall|img: Seq<u8>, fuel: nat|
            #[trigger] a.comes_to(img, fuel) == if fuel == 0 {
                entry::Listing::Stuck
            } else {
                b.comes_to(img, (fuel - 1) as nat)
            },
{
    reveal(WalkerView::comes_to);
    lemma_idle(a);
    assert(a.pending[0] == d);
    assert(a.pending.skip(1) =~= b.pending);
    assert forall|img: Seq<u8>, fuel: nat|
        #[trigger] a.comes_to(img, fuel) == if fuel == 0 {
            entry::Listing::Stuck
        } else {
            b.comes_to(img, (fuel - 1) as nat)
        } by {
        if fuel > 0 {
            if let entry::Listing::Listed(es) = dir_listing(img, a.format, d) {
                assert(b.entries.skip(b.first) + es =~= es);
                let l = walk(
                    img,
                    a.format,
                    entry::subdirs(es) + b.pending,
                    (fuel - 1) as nat,
                );
                lemma_after_twice(a.entries, es, l);
            }
        }
    }
}

/// Two lists before a listing are one list before it.
proof fn lemma_after_twice(
    x: Seq<entry::IsoEntryView>,
    y: Seq<entry::IsoEntryView>,
    l: entry::Listing,
)
    ensures
        entry::after(x, entry::after(y, l)) == entry::after(x + y, l),
{
    if let entry::Listing::Listed(s) = l {
        assert(x + (y + s) =~= (x + y) + s);
    }
}

/// Reading on within a directory: what was found there goes to the entries.
proof fn lemma_read_on(
    a: WalkerView,
    b: WalkerView,
    rest: entry::Listing,
    img: Seq<u8>,
    found: Seq<entry::IsoEntryView>,
    fuel: nat,
)
    requires
        0 <= a.first <= a.entries.len(),
        b.entries == a.entries + found,
        b.first == a.first,
        b.format == a.format,
        b.pending == a.pending,
    ensures
        a.goes_on(entry::after(found, rest), img, fuel) == b.goes_on(rest, img, fuel),
{
    if let entry::Listing::Listed(es) = rest {
        assert(a.entries + (found + es) =~= b.entries + es);
        assert(a.entries.skip(a.first) + (found + es) =~= b.entries.skip(b.first) + es);
    }
}

/// The end of a directory: its subdirectories come before what was pending.
proof fn lemma_finished(
    a: WalkerView,
    b: WalkerView,
    img: Seq<u8>,
    found: Seq<entry::IsoEntryView>,
    fuel: nat,
)
    requires
        0 <= a.first <= a.entries.len(),
        b.entries == a.entries + found,
        b.wf(),
        b.stage == StageView::Idle,
        b.format == a.format,
        b.pending == entry::subdirs(b.entries.skip(a.first)) + a.pending,
    ensures
        a.goes_on(entry::Listing::Listed(found), img, fuel) == b.comes_to(img, fuel),
{
    reveal(WalkerView::comes_to);
    lemma_idle(b);
    assert(a.entries.skip(a.first) + found =~= b.entries.skip(a.first));
}

impl Walker {
    /// Ends the present directory: its subdirectories are to be read next.
    fn finish(&mut self)
        requires
            old(self)@.first <= old(self)@.entries.len(),
            forall|k: int|
                0 <= k < old(self)@.entries.len() ==> (#[trigger] old(self)@.entries[k]).wf(),
        ensures
            final(self)@.wf(),
            final(self)@.stage == StageView::Idle,
            final(self)@.format == old(self)@.format,
            final(self)@.entries == old(self)@.entries,
            final(self)@.pending == entry::subdirs(old(self)@.entries.skip(old(self)@.first))
                + old(self)@.pending,
    {
        let ghost start = self@;
        let n: usize = self.entries.len();
        let first: usize = self.first;
        let mut k: usize = n;
        assert(start.entries.skip(n as int) =~= Seq::empty());
        assert(entry::subdirs(start.entries.skip(n as int)) + start.pending =~= start.pending);
        while k > first
            invariant
                first <= k <= n,
                n == self.entries@.len(),
                first == self.first,
                self.format == start.format,
                entry::views(self.entries@) == start.entries,
                first == start.first,
                top_first(self.pending@) == entry::subdirs(start.entries.skip(k as int))
                    + start.pending,
            decreases k,
        {
            k -= 1;
            let e = &self.entries[k];
            proof {
                let s = start.entries.skip(k as int);
                assert(s[0] == e@);
                assert(s.drop_first() =~= start.entries.skip(k + 1));
            }
            if e.is_dir {
                let d = Dir {
                    lba: e.extent_lba,
                    length: e.data_length,
                    path: e.path.clone(),
                };
                proof {
                    lemma_push_top(self.pending@, d);
                    let rest = entry::subdirs(start.entries.skip(k + 1));
                    assert(seq![d@] + (rest + start.pending) =~= (seq![d@] + rest)
                        + start.pending);
                }
                self.pending.push(d);
            }
        }
        self.first = n;
        self.stage = Stage::Idle;
    }

    /// Reads the records of an ISO 9660 directory.
    fn supply_records(&mut self, d: Dir, joliet: bool, buf: &[u8]) -> (r: Supplied)
        requires
            old(self)@.format is Iso9660,
            old(self)@.format->joliet == joliet,
            0 <= old(self)@.first <= old(self)@.entries.len(),
            forall|k: int|
                0 <= k < old(self)@.entries.len() ==> (#[trigger] old(self)@.entries[k]).wf(),
            buf@.len() == d@.length,
        ensures
            final(self)@.format == old(self)@.format,
            r is Continue ==> final(self)@.wf() && final(self)@.left().0 == 0,
            forall|img: Seq<u8>, fuel: nat|
                source::bytes_at(img, d@.lba * SECTOR_SIZE, d@.length as int) == Some(buf@)
                    ==> #[trigger] old(self)@.at_stage(StageView::Begin(d@)).comes_to(img, fuel) == match r {
                    Supplied::Continue => final(self)@.comes_to(img, fuel),
                    Supplied::Failed(e) => entry::Listing::Failed(e@),
                    Supplied::Malformed => entry::Listing::Stuck,
                },
    {
        proof {
            reveal(WalkerView::comes_to);
        }
        let ghost a = self@.at_stage(StageView::Begin(d@));
        let ghost start = self@;
        let sound = iso9660::read_directory(buf, joliet, d.path.as_str(), &mut self.entries);
        if !sound {
            return Supplied::Malformed;
        }
        let ghost found = iso9660::records(buf@, 0, joliet, d@.path)->Listed_0;
        proof {
            assert(self@.entries == start.entries + found);
            assert forall|k: int| 0 <= k < self@.entries.len() implies (#[trigger]
            self@.entries[k]).wf() by {
                if k < start.entries.len() {
                    assert(self@.entries[k] == start.entries[k]);
                } else {
                    assert(self@.entries[k] == found[k - start.entries.len()]);
                }
            }
        }
        self.finish();
        proof {
            assert forall|img: Seq<u8>, fuel: nat|
                source::bytes_at(img, d@.lba * SECTOR_SIZE, d@.length as int) == Some(
                    buf@,
                ) implies #[trigger] a.comes_to(img, fuel) == self@.comes_to(img, fuel) by {
                lemma_finished(a, self@, img, found, fuel);
            }
        }
        Supplied::Continue
    }

    /// Reads the descriptors of a UDF directory from `start` on.
    #[verifier::rlimit(40)]
    fn read_children(&mut self, path: String, data: Vec<u8>, start: usize) -> (r: Supplied)
        requires
            old(self)@.format is Udf,
            0 <= old(self)@.first <= old(self)@.entries.len(),
            forall|k: int|
                0 <= k < old(self)@.entries.len() ==> (#[trigger] old(self)@.entries[k]).wf(),
        ensures
            final(self)@.format == old(self)@.format,
            !(r is Failed),
            r is Continue ==> final(self)@.wf() && {
                let b = final(self)@.left();
                b.0 == 0 || b.0 == 1 && 0 <= b.1 < entry::bytes_left(data@.len(), start as int)
            },
            forall|img: Seq<u8>, fuel: nat|
                #[trigger] old(self)@.goes_on(
                    udf::children(
                        img,
                        partition(old(self)@.format),
                        data@,
                        start as int,
                        path@,
                    ),
                    img,
                    fuel,
                ) == match r {
                    Supplied::Continue => final(self)@.comes_to(img, fuel),
                    _ => entry::Listing::Stuck,
                },
    {
        proof {
            reveal(WalkerView::comes_to);
        }
        let ghost begun = self@;
        let ghost ps = partition(self@.format);
        let stop = udf::read_fids(&data, start, path.as_str(), &mut self.entries);
        let ghost found = self@.entries.skip(begun.entries.len() as int);
        proof {
            assert(self@.entries =~= begun.entries + found) by {
                assert(self@.entries.take(begun.entries.len() as int) == begun.entries);
                assert(self@.entries =~= self@.entries.take(begun.entries.len() as int) + found);
            }
            assert forall|k: int| 0 <= k < self@.entries.len() implies (#[trigger]
            self@.entries[k]).wf() by {
                if k < begun.entries.len() {
                    assert(self@.entries[k] == begun.entries[k]);
                } else {
                    assert(self@.entries[k] == self.entries@[k]@);
                }
            }
        }
        match stop {
            FidStop::Overrun => Supplied::Malformed,
            FidStop::End => {
                self.finish();
                proof {
                    iso9660::lemma_after_end(found);
                    assert forall|img: Seq<u8>, fuel: nat|
                        #[trigger] begun.goes_on(
                            udf::children(img, ps, data@, start as int, path@),
                            img,
                            fuel,
                        ) == self@.comes_to(img, fuel) by {
                        lemma_finished(begun, self@, img, found, fuel);
                    }
                }
                Supplied::Continue
            },
            FidStop::File { path: child, lba, next } => {
                let ghost pv = path@;
                let ghost dv = data@;
                self.stage = Stage::Child { path, data, child, lba, next };
                proof {
                    assert forall|img: Seq<u8>, fuel: nat|
                        #[trigger] begun.goes_on(
                            udf::children(img, ps, dv, start as int, pv),
                            img,
                            fuel,
                        ) == self@.comes_to(img, fuel) by {
                        lemma_read_on(begun, self@, self@.rest_of_dir(img), img, found, fuel);
                    }
                }
                Supplied::Continue
            },
        }
    }

    /// Reads the file entry of a UDF directory.
    fn supply_entry(&mut self, d: Dir, partition_start: u32, buf: &[u8]) -> (r: Supplied)
        requires
            old(self)@.format is Udf,
            old(self)@.format->partition_start == partition_start,
            0 <= old(self)@.first <= old(self)@.entries.len(),
            forall|k: int|
                0 <= k < old(self)@.entries.len() ==> (#[trigger] old(self)@.entries[k]).wf(),
            buf@.len() == SECTOR_SIZE,
        ensures
            final(self)@.format == old(self)@.format,
            r is Continue ==> final(self)@.wf() && 0 <= final(self)@.left().0 < 3,
            forall|img: Seq<u8>, fuel: nat|
                volume::sector_at(img, partition_start + d@.lba) == Some(buf@) ==> #[trigger] old(self)@.at_stage(StageView::Begin(d@)).comes_to(img, fuel) == match r {
                    Supplied::Continue => final(self)@.comes_to(img, fuel),
                    Supplied::Failed(e) => entry::Listing::Failed(e@),
                    Supplied::Malformed => entry::Listing::Stuck,
                },
    {
        proof {
            reveal(WalkerView::comes_to);
        }
        let ghost a = self@.at_stage(StageView::Begin(d@));
        let ghost ps = partition_start as int;
        let tag: u16 = bytes::get_u16(buf, 0);
        if tag != 261 {
            let at: u64 = partition_start as u64 + d.lba as u64;
            let place = text::decimal_text(at as u128);
            let got = text::decimal_text(tag as u128);
            let head = text::concat3("Expected File Entry (261) at LBA ", place.as_str(), ", got ");
            let message = text::concat(head.as_str(), got.as_str());
            return Supplied::Failed(Error::Other(message));
        }
        let descs = udf::parse_short_ads(buf);
        let data: Vec<u8> = Vec::new();
        if descs.len() == 0 {
            let ghost begun = self@;
            let ghost dv = d@;
            let r = self.read_children(d.path, data, 0);
            proof {
                assert(data@ =~= Seq::<u8>::empty());
                assert forall|img: Seq<u8>, fuel: nat|
                    volume::sector_at(img, ps + dv.lba) == Some(
                        buf@,
                    ) implies #[trigger] a.comes_to(img, fuel) == match r {
                    Supplied::Continue => self@.comes_to(img, fuel),
                    _ => entry::Listing::Stuck,
                } by {
                    assert(udf::gathered(img, ps, descs@, 0) == Some(Seq::<u8>::empty()));
                    assert(a.comes_to(img, fuel) == begun.goes_on(
                        udf::children(img, ps, data@, 0, dv.path),
                        img,
                        fuel,
                    ));
                }
            }
            return r;
        }
        let ghost dv = d@;
        self.stage = Stage::Extent { path: d.path, descs, i: 0, data };
        proof {
            assert forall|img: Seq<u8>, fuel: nat|
                volume::sector_at(img, ps + dv.lba) == Some(
                    buf@,
                ) implies #[trigger] a.comes_to(img, fuel) == self@.comes_to(img, fuel) by {
                let none = Seq::<entry::IsoEntryView>::empty();
                if let Some(more) = udf::gathered(img, ps, descs@, 0) {
                    assert(data@ + more =~= more);
                }
                iso9660::lemma_after_nothing(self@.rest_of_dir(img));
                assert(a.entries + none =~= self@.entries);
                lemma_read_on(a, self@, self@.rest_of_dir(img), img, none, fuel);
            }
        }
        Supplied::Continue
    }

    /// Reads an extent of a UDF directory.
    fn supply_extent(
        &mut self,
        path: String,
        descs: Vec<(u32, u32)>,
        i: usize,
        data: Vec<u8>,
        buf: &[u8],
    ) -> (r: Supplied)
        requires
            old(self)@.format is Udf,
            0 <= old(self)@.first <= old(self)@.entries.len(),
            forall|k: int|
                0 <= k < old(self)@.entries.len() ==> (#[trigger] old(self)@.entries[k]).wf(),
            i < descs@.len(),
            buf@.len() == descs@[i as int].1,
        ensures
            final(self)@.format == old(self)@.format,
            r is Continue ==> final(self)@.wf() && {
                let b = final(self)@.left();
                b.0 < 2 || b.0 == 2 && 0 <= b.1 < descs@.len() - i
            },
            forall|img: Seq<u8>, fuel: nat|
                source::bytes_at(
                    img,
                    (partition(old(self)@.format) + descs@[i as int].0) * SECTOR_SIZE,
                    descs@[i as int].1 as int,
                ) == Some(buf@) ==> #[trigger] old(self)@.at_stage(StageView::Extent {
                        path: path@,
                        descs: descs@,
                        i: i as int,
                        data: data@,
                    }).comes_to(img, fuel) == match r {
                    Supplied::Continue => final(self)@.comes_to(img, fuel),
                    Supplied::Failed(e) => entry::Listing::Failed(e@),
                    Supplied::Malformed => entry::Listing::Stuck,
                },
    {
        proof {
            reveal(WalkerView::comes_to);
        }
        let ghost ps = partition(self@.format);
        let ghost a = self@.at_stage(StageView::Extent { path: path@, descs: descs@, i: i as int, data: data@ });
        let ghost pv = path@;
        let ghost at = (ps + descs@[i as int].0) * SECTOR_SIZE;
        let ghost size = descs@[i as int].1 as int;
        let ghost had = data@;
        let mut data = data;
        bytes::push_all(&mut data, buf);
        let ghost has = data@;
        let n: usize = descs.len();
        proof {
            assert forall|img: Seq<u8>|
                source::bytes_at(img, at, size) == Some(buf@) implies #[trigger] a.rest_of_dir(img)
                == match udf::gathered(img, ps, descs@, i + 1) {
                None => entry::Listing::Failed(source::cut_short()),
                Some(more) => udf::children(img, ps, has + more, 0, pv),
            } by {
                if let Some(more) = udf::gathered(img, ps, descs@, i + 1) {
                    assert(had + (buf@ + more) =~= has + more);
                }
            }
        }
        if i + 1 == n {
            let ghost begun = self@;
            let r = self.read_children(path, data, 0);
            proof {
                assert(has + Seq::<u8>::empty() =~= has);
                assert forall|img: Seq<u8>, fuel: nat|
                    source::bytes_at(img, at, size) == Some(
                        buf@,
                    ) implies #[trigger] a.comes_to(img, fuel) == match r {
                    Supplied::Continue => self@.comes_to(img, fuel),
                    _ => entry::Listing::Stuck,
                } by {
                    assert(udf::gathered(img, ps, descs@, n as int) == Some(Seq::<u8>::empty()));
                    assert(a.rest_of_dir(img) == udf::children(img, ps, has, 0, pv));
                    assert(a.comes_to(img, fuel) == begun.goes_on(
                        udf::children(img, ps, has, 0, pv),
                        img,
                        fuel,
                    ));
                }
            }
            return r;
        }
        self.stage = Stage::Extent { path, descs, i: i + 1, data };
        proof {
            assert forall|img: Seq<u8>, fuel: nat|
                source::bytes_at(img, at, size) == Some(
                    buf@,
                ) implies #[trigger] a.comes_to(img, fuel) == self@.comes_to(img, fuel) by {
                let none = Seq::<entry::IsoEntryView>::empty();
                iso9660::lemma_after_nothing(self@.rest_of_dir(img));
                assert(a.entries + none =~= self@.entries);
                assert(a.rest_of_dir(img) == self@.rest_of_dir(img));
                lemma_read_on(a, self@, self@.rest_of_dir(img), img, none, fuel);
            }
        }
        Supplied::Continue
    }

    /// Reads the file entry of a file.
    fn supply_child(
        &mut self,
        path: String,
        data: Vec<u8>,
        child: String,
        lba: u32,
        next: usize,
        buf: &[u8],
    ) -> (r: Supplied)
        requires
            old(self)@.format is Udf,
            0 <= old(self)@.first <= old(self)@.entries.len(),
            forall|k: int|
                0 <= k < old(self)@.entries.len() ==> (#[trigger] old(self)@.entries[k]).wf(),
            buf@.len() == SECTOR_SIZE,
            next > 0,
        ensures
            final(self)@.format == old(self)@.format,
            r is Continue ==> final(self)@.wf() && {
                let b = final(self)@.left();
                b.0 == 0 || b.0 == 1 && 0 <= b.1 < entry::bytes_left(data@.len(), next as int)
            },
            forall|img: Seq<u8>, fuel: nat|
                volume::sector_at(img, partition(old(self)@.format) + lba) == Some(buf@) ==> #[trigger] old(self)@.at_stage(StageView::Child {
                        path: path@,
                        data: data@,
                        child: child@,
                        lba,
                        next: next as int,
                    }).comes_to(img, fuel) == match r {
                    Supplied::Continue => final(self)@.comes_to(img, fuel),
                    Supplied::Failed(e) => entry::Listing::Failed(e@),
                    Supplied::Malformed => entry::Listing::Stuck,
                },
    {
        proof {
            reveal(WalkerView::comes_to);
        }
        let ghost ps = partition(self@.format);
        let ghost a = self@.at_stage(StageView::Child {
                path: path@,
                data: data@,
                child: child@,
                lba,
                next: next as int,
            });
        let ghost begun = self@;
        let ghost found = udf::file_entry(child@, buf@);
        if bytes::get_u16(buf, 0) == 261 {
            let size: u64 = bytes::get_u64(buf, 56);
            let alloc_descs = udf::parse_short_ads(buf);
            let extent_lba: u32 = if alloc_descs.len() > 0 {
                alloc_descs[0].0
            } else {
                0
            };
            let one = IsoEntry {
                path: child,
                size,
                is_dir: false,
                extent_lba,
                data_length: size,
                alloc_descs,
            };
            assert(found =~= seq![one@]);
            self.entries.push(one);
            assert(self@.entries =~= begun.entries + found);
        } else {
            assert(self@.entries =~= begun.entries + found);
        }
        let ghost mid = self@;
        let ghost pv = path@;
        let ghost dv = data@;
        assert forall|k: int| 0 <= k < self@.entries.len() implies (#[trigger]
        self@.entries[k]).wf() by {
            if k < begun.entries.len() {
                assert(self@.entries[k] == begun.entries[k]);
            }
        }
        let r = self.read_children(path, data, next);
        proof {
            assert forall|img: Seq<u8>, fuel: nat|
                volume::sector_at(img, ps + lba) == Some(
                    buf@,
                ) implies #[trigger] a.comes_to(img, fuel) == match r {
                Supplied::Continue => self@.comes_to(img, fuel),
                Supplied::Failed(e) => entry::Listing::Failed(e@),
                Supplied::Malformed => entry::Listing::Stuck,
            } by {
                let rest = udf::children(img, ps, dv, next as int, pv);
                assert(a.rest_of_dir(img) == entry::after(found, rest));
                lemma_read_on(a, mid, rest, img, found, fuel);
                assert(mid.goes_on(rest, img, fuel) == mid.goes_on(
                    udf::children(img, partition(mid.format), dv, next as int, pv),
                    img,
                    fuel,
                ));
            }
        }
        r
    }
}

/// Lists the files and directories of an image.
pub fn list_image(image: &[u8], format: IsoFormat) -> (r: Result<Vec<IsoEntry>>)
    requires
        can_be_listed(image@, format),
    ensures
        forall|fuel: nat|
            !(#[trigger] image_listing(image@, format, fuel) is Stuck) ==> match r {
                Ok(v) => image_listing(image@, format, fuel) == entry::Listing::Listed(
                    entry::views(v@),
                ),
                Err(e) => image_listing(image@, format, fuel) == entry::Listing::Failed(e@),
            },
        r matches Ok(v) ==> forall|k: int| 0 <= k < v@.len() ==> (#[trigger] v@[k])@.wf(),
{
    let ghost img = image@;
    let ghost enough = choose|fuel: nat| !(#[trigger] image_listing(img, format, fuel) is Stuck);
    let ghost result = image_listing(img, format, enough);
    proof {
        assert forall|fuel: nat|
            !(#[trigger] image_listing(img, format, fuel) is Stuck) implies image_listing(
            img,
            format,
            fuel,
        ) == result by {
            let root = seq![root_dir(format)];
            if fuel <= enough {
                law_fuel(img, format, root, fuel, enough);
            } else {
                law_fuel(img, format, root, enough, fuel);
            }
        }
    }
    let mut walker = Walker::new(format);
    let ghost mut fuel: nat = enough;
    loop
        invariant
            img == image@,
            walker@.wf(),
            walker@.comes_to(img, fuel) == result,
            !(result is Stuck),
            forall|fuel: nat|
                !(#[trigger] image_listing(img, format, fuel) is Stuck) ==> image_listing(
                    img,
                    format,
                    fuel,
                ) == result,
        decreases
                fuel,
                walker@.left().0,
                walker@.left().1,
    {
        let ghost before = walker@;
        match walker.next_read() {
            None => {
                let v = walker.into_entries();
                proof {
                    assert(before.comes_to(img, fuel) == result);
                    assert forall|k: int| 0 <= k < v@.len() implies (#[trigger] v@[k])@.wf() by {
                        assert(entry::views(v@)[k] == before.entries[k]);
                    }
                }
                return Ok(v);
            },
            Some((off, n)) => {
                proof {
                    assert(before.comes_to(img, fuel) == result);
                    if before.stage == StageView::Idle {
                        fuel = (fuel - 1) as nat;
                    }
                }
                match source::read_exact_at(image, off, n) {
                    Err(e) => {
                        proof {
                            lemma_cut_short(walker@, img, fuel);
                        }
                        return Err(e);
                    },
                    Ok(buf) => {
                        assert(walker@.comes_to(img, fuel) == result);
                        match walker.supply(&buf) {
                            Supplied::Continue => {},
                            Supplied::Failed(e) => {
                                return Err(e);
                            },
                            Supplied::Malformed => {
                                return unreached();
                            },
                        }
                    },
                }
            },
        }
    }
}

/// Lists the files and directories of an image, reading at most `limit` directories. There is no
/// result where these are not all, or where a record runs over its end.
pub fn list_image_within(image: &[u8], format: IsoFormat, limit: u64) -> (r: Option<
    Result<Vec<IsoEntry>>,
>)
    ensures
        match r {
            Some(Ok(v)) => {
                &&& image_listing(image@, format, limit as nat) == entry::Listing::Listed(
                    entry::views(v@),
                )
                &&& forall|k: int| 0 <= k < v@.len() ==> (#[trigger] v@[k])@.wf()
            },
            Some(Err(e)) => image_listing(image@, format, limit as nat) == entry::Listing::Failed(
                e@,
            ),
            None => image_listing(image@, format, limit as nat) is Stuck,
        },
{
    let ghost img = image@;
    let ghost result = image_listing(img, format, limit as nat);
    let mut walker = Walker::new(format);
    let mut left: u64 = limit;
    loop
        invariant
            img == image@,
            result == image_listing(img, format, limit as nat),
            walker@.wf(),
            walker@.comes_to(img, left as nat) == result,
        decreases
                left,
                walker@.left().0,
                walker@.left().1,
    {
        let ghost before = walker@;
        let idle: bool = walker.is_idle();
        match walker.next_read() {
            None => {
                let v = walker.into_entries();
                proof {
                    assert(before.comes_to(img, left as nat) == result);
                    assert forall|k: int| 0 <= k < v@.len() implies (#[trigger] v@[k])@.wf() by {
                        assert(entry::views(v@)[k] == before.entries[k]);
                    }
                }
                return Some(Ok(v));
            },
            Some((off, n)) => {
                assert(before.comes_to(img, left as nat) == result);
                if idle {
                    if left == 0 {
                        return None;
                    }
                    left -= 1;
                }
                match source::read_exact_at(image, off, n) {
                    Err(e) => {
                        proof {
                            lemma_cut_short(walker@, img, left as nat);
                        }
                        return Some(Err(e));
                    },
                    Ok(buf) => {
                        assert(walker@.comes_to(img, left as nat) == result);
                        match walker.supply(&buf) {
                            Supplied::Continue => {},
                            Supplied::Failed(e) => {
                                return Some(Err(e));
                            },
                            Supplied::Malformed => {
                                return None;
                            },
                        }
                    },
                }
            },
        }
    }
}

/// A read that cannot be made ends the walk with an error.
pub proof fn lemma_cut_short(w: WalkerView, img: Seq<u8>, fuel: nat)
    requires
        w.wf(),
        w.stage != StageView::Idle,
        source::bytes_at(img, w.wanted().0, w.wanted().1) is None,
    ensures
        w.comes_to(img, fuel) == entry::Listing::Failed(source::cut_short()),
{
    reveal(WalkerView::comes_to);
}

} // verus!
