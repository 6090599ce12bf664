//! What goes onto the FAT32 file system of a bootable drive, and in which order.

use crate::error;
use crate::error::Error;
use crate::iso::entry;
use crate::iso::entry::IsoEntry;
use crate::iso::reader::FAT32_MAX_FILE_SIZE;
use crate::sort;
use crate::sort::{Order, Ranking};
use crate::text;
use crate::wim::plan;
use crate::wim::plan::SplitPlan;
use vstd::prelude::*;

verus! {

/// The label of the file system.
pub const VOLUME_LABEL: &'static str = "WINUSB     ";

// ---------------------------------------------------------------------------
// Copying an image
// ---------------------------------------------------------------------------
/// The size of all files among the entries.
pub open spec fn files_total(es: Seq<entry::IsoEntryView>) -> nat
    decreases es.len(),
{
    if es.len() == 0 {
        0
    } else {
        files_total(es.drop_last()) + if es.last().is_dir {
            0nat
        } else {
            es.last().size as nat
        }
    }
}

/// How deep a path lies.
pub open spec fn depth(path: Seq<char>) -> nat {
    text::count_char(path, '/')
}

/// Directory `i` is made before directory `j`: it lies less deep, or as deep and stands first.
pub open spec fn made_before(es: Seq<entry::IsoEntryView>, i: int, j: int) -> bool {
    depth(es[i].path) < depth(es[j].path) || depth(es[i].path) == depth(es[j].path) && i < j
}

/// The list names all directories, in the order in which they are made.
pub open spec fn is_dir_order(es: Seq<entry::IsoEntryView>, s: Seq<usize>) -> bool {
    &&& forall|k: int| 0 <= k < s.len() ==> #[trigger] s[k] < es.len()
    &&& forall|k: int, l: int|
        0 <= k < l < s.len() ==> made_before(es, #[trigger] s[k] as int, #[trigger] s[l] as int)
    &&& forall|i: usize| i < es.len() ==> (#[trigger] s.contains(i) <==> es[i as int].is_dir)
}

/// The directories, in the order in which they stand, among the first `n` entries.
spec fn dirs_among(es: Seq<entry::IsoEntryView>, n: nat) -> Seq<usize>
    decreases n,
{
    if n == 0 {
        Seq::empty()
    } else if es[n - 1].is_dir {
        dirs_among(es, (n - 1) as nat).push((n - 1) as usize)
    } else {
        dirs_among(es, (n - 1) as nat)
    }
}

/// The files that FAT32 can hold among the first `n` entries, in order.
pub open spec fn files_to_copy(es: Seq<entry::IsoEntryView>, n: nat) -> Seq<usize>
    decreases n,
{
    if n == 0 {
        Seq::empty()
    } else if !es[n - 1].is_dir && es[n - 1].size < FAT32_MAX_FILE_SIZE {
        files_to_copy(es, (n - 1) as nat).push((n - 1) as usize)
    } else {
        files_to_copy(es, (n - 1) as nat)
    }
}

/// What is copied from an image. Entries are named by their place in the listing.
#[derive(Debug)]
pub struct CopyPlan {
    /// The size of all files, for the progress that is told.
    pub total_size: u64,
    /// The directories, in the order in which they are made.
    pub dirs: Vec<usize>,
    /// The files, in the order in which they are copied.
    pub files: Vec<usize>,
}

/// The order in which directories are made.
struct ByDepth<'a> {
    depths: &'a Vec<usize>,
}

impl<'a> Order for ByDepth<'a> {
    closed spec fn count(&self) -> nat {
        self.depths@.len()
    }

    closed spec fn before(&self, i: int, j: int) -> bool {
        self.depths@[i] < self.depths@[j] || self.depths@[i] == self.depths@[j] && i < j
    }

    proof fn total(&self, i: int, j: int) {
    }

    proof fn transitive(&self, i: int, j: int, k: int) {
    }
}

impl<'a> Ranking for ByDepth<'a> {
    fn is_before(&self, i: usize, j: usize) -> (r: bool) {
        self.depths[i] < self.depths[j] || self.depths[i] == self.depths[j] && i < j
    }
}

proof fn lemma_dirs_among(es: Seq<entry::IsoEntryView>, n: nat)
    requires
        n <= es.len(),
        n <= usize::MAX,
    ensures
        forall|k: int| 0 <= k < dirs_among(es, n).len() ==> (#[trigger] dirs_among(es, n)[k]) < n,
        forall|k: int, l: int|
            0 <= k < l < dirs_among(es, n).len() ==> (#[trigger] dirs_among(es, n)[k])
                < (#[trigger] dirs_among(es, n)[l]),
        forall|i: usize|
            i < n ==> (#[trigger] dirs_among(es, n).contains(i) <==> es[i as int].is_dir),
    decreases n,
{
    if n > 0 {
        lemma_dirs_among(es, (n - 1) as nat);
        let prev = dirs_among(es, (n - 1) as nat);
        let s = dirs_among(es, n);
        let x = (n - 1) as usize;
        assert forall|i: usize| i < n implies (#[trigger] s.contains(i)
            <==> es[i as int].is_dir) by {
            if es[n - 1].is_dir {
                if prev.contains(i) {
                    let k = choose|k: int| 0 <= k < prev.len() && prev[k] == i;
                    assert(s[k] == i);
                }
                if i == x {
                    assert(s[prev.len() as int] == i);
                }
                if s.contains(i) && i != x {
                    let k = choose|k: int| 0 <= k < s.len() && s[k] == i;
                    assert(prev[k] == i);
                }
            } else if i == x {
                if prev.contains(i) {
                    let k = choose|k: int| 0 <= k < prev.len() && prev[k] == i;
                    assert(prev[k] < n - 1);
                }
            }
        }
    }
}

/// The size of all files among the entries, where it can be counted in 64 bits.
pub fn checked_total(entries: &Vec<IsoEntry>) -> (r: Option<u64>)
    ensures
        match r {
            Some(n) => n == files_total(entry::views(entries@)),
            None => files_total(entry::views(entries@)) > u64::MAX,
        },
{
    let n: usize = entries.len();
    let ghost es = entry::views(entries@);
    let mut sum: u64 = 0;
    let mut k: usize = 0;
    assert(es.take(0) =~= Seq::empty());
    while k < n
        invariant
            k <= n,
            n == entries@.len(),
            es == entry::views(entries@),
            sum == files_total(es.take(k as int)),
        decreases n - k,
    {
        proof {
            assert(es.take(k + 1).drop_last() =~= es.take(k as int));
            assert(es[k as int] == entries@[k as int]@);
            lemma_files_total_grows(es, k + 1);
        }
        if !entries[k].is_dir {
            match sum.checked_add(entries[k].size) {
                Some(more) => {
                    sum = more;
                },
                None => {
                    return None;
                },
            }
        }
        k += 1;
    }
    assert(es.take(n as int) =~= es);
    Some(sum)
}

proof fn lemma_files_total_grows(es: Seq<entry::IsoEntryView>, k: int)
    requires
        0 <= k <= es.len(),
    ensures
        files_total(es.take(k)) <= files_total(es),
    decreases es.len() - k,
{
    if k == es.len() {
        assert(es.take(k) =~= es);
    } else {
        lemma_files_total_grows(es, k + 1);
        assert(es.take(k + 1).drop_last() =~= es.take(k));
    }
}

/// Works out what is copied from an image, and in which order.
pub fn copy_iso_to_fat32(entries: &Vec<IsoEntry>) -> (r: CopyPlan)
    requires
        files_total(entry::views(entries@)) <= u64::MAX,
    ensures
        r.total_size == files_total(entry::views(entries@)),
        is_dir_order(entry::views(entries@), r.dirs@),
        r.files@ == files_to_copy(entry::views(entries@), entries@.len()),
{
    let n: usize = entries.len();
    let ghost es = entry::views(entries@);
    let mut depths: Vec<usize> = Vec::new();
    let mut dirs: Vec<usize> = Vec::new();
    let mut files: Vec<usize> = Vec::new();
    let mut k: usize = 0;
    while k < n
        invariant
            k <= n,
            n == entries@.len(),
            es == entry::views(entries@),
            depths@.len() == k,
            forall|i: int| 0 <= i < k ==> #[trigger] depths@[i] == depth(es[i].path),
            dirs@ == dirs_among(es, k as nat),
            files@ == files_to_copy(es, k as nat),
        decreases n - k,
    {
        assert(es[k as int] == entries@[k as int]@);
        depths.push(text::count_of(entries[k].path.as_str(), '/'));
        if entries[k].is_dir {
            dirs.push(k);
        } else if entries[k].size < FAT32_MAX_FILE_SIZE {
            files.push(k);
        }
        k += 1;
    }
    let ranking = ByDepth { depths: &depths };
    proof {
        lemma_dirs_among(es, n as nat);
        assert forall|i: int| 0 <= i < dirs@.len() implies #[trigger] dirs@[i]
            < ranking.count() by {}
        assert(sort::distinct(dirs@));
    }
    let ordered = sort::sort_indices(&ranking, &dirs);
    proof {
        assert forall|i: int| 0 <= i < ordered@.len() implies #[trigger] ordered@[i]
            < es.len() by {
            assert(ordered@[i] < ranking.count());
        }
        assert forall|i: int, j: int| 0 <= i < j < ordered@.len() implies made_before(
            es,
            #[trigger] ordered@[i] as int,
            #[trigger] ordered@[j] as int,
        ) by {
            assert(ranking.before(ordered@[i] as int, ordered@[j] as int));
        }
        assert forall|i: usize| i < es.len() implies (#[trigger] ordered@.contains(i)
            <==> es[i as int].is_dir) by {
            assert(dirs@.contains(i) <==> ordered@.contains(i));
        }
    }
    let total_size: u64 = checked_total(entries).unwrap();
    CopyPlan { total_size, dirs: ordered, files }
}

/// A directory is made before every directory within it.
pub proof fn law_parents_first(es: Seq<entry::IsoEntryView>, s: Seq<usize>, k: int, l: int)
    requires
        is_dir_order(es, s),
        0 <= k < s.len(),
        0 <= l < s.len(),
        exists|x: Seq<char>|
            es[s[l] as int].path == #[trigger] (es[s[k] as int].path + "/"@ + x),
    ensures
        k < l,
{
    let a = es[s[k] as int].path;
    let x = choose|x: Seq<char>| es[s[l] as int].path == #[trigger] (a + "/"@ + x);
    reveal_strlit("/");
    lemma_count_concat(a, "/"@, '/');
    lemma_count_concat(a + "/"@, x, '/');
    assert("/"@ =~= seq!['/']);
    assert("/"@.drop_last() =~= Seq::<char>::empty());
    assert(text::count_char("/"@.drop_last(), '/') == 0);
    assert(text::count_char("/"@, '/') == 1);
    assert(depth(a) < depth(es[s[l] as int].path));
    if l < k {
        assert(made_before(es, s[l] as int, s[k] as int));
    }
}

proof fn lemma_count_concat(a: Seq<char>, b: Seq<char>, c: char)
    ensures
        text::count_char(a + b, c) == text::count_char(a, c) + text::count_char(b, c),
    decreases b.len(),
{
    if b.len() == 0 {
        assert(a + b =~= a);
    } else {
        assert((a + b).drop_last() =~= a + b.drop_last());
        lemma_count_concat(a, b.drop_last(), c);
    }
}

/// What is copied are exactly the files under the size that FAT32 can hold.
pub proof fn law_copied_files(es: Seq<entry::IsoEntryView>, n: nat, i: usize)
    requires
        n <= es.len(),
        n <= usize::MAX,
    ensures
        files_to_copy(es, n).contains(i) <==> i < n && !es[i as int].is_dir && es[i as int].size
            < FAT32_MAX_FILE_SIZE,
    decreases n,
{
    if n > 0 {
        law_copied_files(es, (n - 1) as nat, i);
        let prev = files_to_copy(es, (n - 1) as nat);
        let s = files_to_copy(es, n);
        if !es[n - 1].is_dir && es[n - 1].size < FAT32_MAX_FILE_SIZE {
            if prev.contains(i) {
                let k = choose|k: int| 0 <= k < prev.len() && prev[k] == i;
                assert(s[k] == i);
            }
            if i == n - 1 {
                assert(s[prev.len() as int] == i);
            }
            if s.contains(i) && i != n - 1 {
                let k = choose|k: int| 0 <= k < s.len() && s[k] == i;
                assert(prev[k] == i);
            }
        }
    }
}

// ---------------------------------------------------------------------------
// The parts of an installation image
// ---------------------------------------------------------------------------
/// A part that is written.
#[derive(Debug)]
pub struct PartStep {
    pub part_num: u16,
    /// The name of its file.
    pub filename: String,
    /// The path of its file.
    pub fat_path: String,
    /// How many bytes the parts before it hold.
    pub base: u64,
}

/// The step is the `k`-th of those for a plan.
pub open spec fn is_part_step(p: plan::PlanView, k: int, s: PartStep) -> bool {
    &&& s.part_num == k + 1
    &&& s.filename@ == plan::part_name((k + 1) as u16)
    &&& s.fat_path@ == "sources/"@ + plan::part_name((k + 1) as u16)
    &&& s.base == plan::grand_total(p.entries, p.parts.take(k))
}

/// The parts that are written, in order.
pub fn split_wim_to_fat32(p: &SplitPlan) -> (r: Vec<PartStep>)
    requires
        p@.wf(),
        plan::grand_total(p@.entries, p@.parts) <= u64::MAX,
    ensures
        r@.len() == p@.parts.len() % 0x1_0000,
        forall|k: int| 0 <= k < r@.len() ==> is_part_step(p@, k, #[trigger] r@[k]),
{
    let n: u16 = p.total_parts();
    let ghost e = p@.entries;
    let ghost all = p@.parts;
    let mut r: Vec<PartStep> = Vec::new();
    let mut base: u64 = 0;
    let mut k: u16 = 0;
    assert(all.take(0) =~= Seq::empty());
    while k < n
        invariant
            k <= n,
            n <= all.len(),
            e == p@.entries,
            all == p@.parts,
            p@.wf(),
            plan::grand_total(e, all) <= u64::MAX,
            base == plan::grand_total(e, all.take(k as int)),
            r@.len() == k,
            forall|i: int| 0 <= i < k ==> is_part_step(p@, i, #[trigger] r@[i]),
        decreases n - k,
    {
        proof {
            plan::lemma_grand_total_take(e, all, k as int);
            plan::lemma_grand_total_take(e, all, k + 1);
        }
        let part_num: u16 = k + 1;
        let filename = p.part_filename(part_num);
        let fat_path = text::concat("sources/", filename.as_str());
        r.push(PartStep { part_num, filename, fat_path, base });
        base += p.part_resources_size(part_num);
        k += 1;
    }
    r
}

// ---------------------------------------------------------------------------
// Failures
// ---------------------------------------------------------------------------
/// What failed on the file system.
#[derive(Debug, Clone, Copy)]
pub enum FatFailure {
    CreateDir,
    CreateFile,
    Flush,
}

/// The words for what failed.
pub open spec fn fat_words(f: FatFailure) -> Seq<char> {
    match f {
        FatFailure::CreateDir => "Failed to create dir '"@,
        FatFailure::CreateFile => "Failed to create '"@,
        FatFailure::Flush => "Failed to flush '"@,
    }
}

/// The error for a failure on the file system, whose cause is given in words.
pub fn fat_error(f: FatFailure, path: &str, cause: &str) -> (r: Error)
    ensures
        r@ == error::ErrorView::Other(fat_words(f) + path@ + "': "@ + cause@),
{
    let head: &str = match f {
        FatFailure::CreateDir => "Failed to create dir '",
        FatFailure::CreateFile => "Failed to create '",
        FatFailure::Flush => "Failed to flush '",
    };
    let start = text::concat3(head, path, "': ");
    Error::Other(text::concat(start.as_str(), cause))
}

// ---------------------------------------------------------------------------
// What holds of a copy
// ---------------------------------------------------------------------------
/// The sizes of the files add up; directories do not count.
pub proof fn law_files_total(es: Seq<entry::IsoEntryView>, e: entry::IsoEntryView)
    ensures
        files_total(Seq::empty()) == 0,
        e.is_dir ==> files_total(es.push(e)) == files_total(es),
        !e.is_dir ==> files_total(es.push(e)) == files_total(es) + e.size,
{
    assert(es.push(e).drop_last() =~= es);
}

/// Every directory is made, each once and nothing else, those with fewer slashes in their paths
/// first, and in the order of the listing where the number of slashes is the same.
pub proof fn law_directories_made(
    es: Seq<entry::IsoEntryView>,
    s: Seq<usize>,
    i: usize,
    k: int,
    l: int,
)
    requires
        is_dir_order(es, s),
        i < es.len(),
        0 <= k < l < s.len(),
    ensures
        s.contains(i) <==> es[i as int].is_dir,
        s[k] < es.len() && s[l] < es.len() && s[k] != s[l],
        text::count_char(es[s[k] as int].path, '/') <= text::count_char(es[s[l] as int].path, '/'),
        text::count_char(es[s[k] as int].path, '/') == text::count_char(es[s[l] as int].path, '/')
            ==> s[k] < s[l],
{
    assert(made_before(es, s[k] as int, s[l] as int));
}

/// The files are copied in the order of the listing, each once, if they have less than four
/// gibibytes.
pub proof fn law_files_copied(es: Seq<entry::IsoEntryView>, i: usize, k: int, l: int)
    requires
        es.len() <= usize::MAX,
        i < es.len(),
    ensures
        files_to_copy(es, es.len()).contains(i) <==> !es[i as int].is_dir && es[i as int].size
            < 4 * 1024 * 1024 * 1024,
        0 <= k < l < files_to_copy(es, es.len()).len() ==> files_to_copy(es, es.len())[k]
            < files_to_copy(es, es.len())[l],
{
    law_copied_files(es, es.len(), i);
    lemma_files_ascend(es, es.len(), k, l);
}

proof fn lemma_files_ascend(es: Seq<entry::IsoEntryView>, n: nat, k: int, l: int)
    requires
        n <= es.len(),
        es.len() <= usize::MAX,
    ensures
        0 <= k < files_to_copy(es, n).len() ==> files_to_copy(es, n)[k] < n,
        0 <= k < l < files_to_copy(es, n).len() ==> files_to_copy(es, n)[k] < files_to_copy(
            es,
            n,
        )[l],
    decreases n,
{
    if n > 0 {
        lemma_files_ascend(es, (n - 1) as nat, k, l);
    }
}

/// The parts of an installation file are written into the directory `sources`, each under the name
/// of its part and in order, behind the bytes of the parts before it.
pub proof fn law_part_steps(p: plan::PlanView, k: int, a: PartStep, b: PartStep)
    requires
        0 <= k,
        k + 1 < p.parts.len(),
        k + 2 <= u16::MAX,
        is_part_step(p, k, a),
        is_part_step(p, k + 1, b),
    ensures
        a.part_num == k + 1,
        b.part_num == a.part_num + 1,
        a.filename@ == plan::part_name(a.part_num),
        a.fat_path@ == "sources/"@ + a.filename@,
        b.fat_path@ == "sources/"@ + plan::part_name(b.part_num),
        k == 0 ==> a.base == 0,
        b.base == a.base + plan::total(p.entries, p.parts[k]),
{
    plan::lemma_grand_total_take(p.entries, p.parts, k);
    assert(p.parts.take(0) =~= Seq::empty());
}

/// What is told of a failure on the file system names the path between quotes, and the cause behind
/// it. The label of the file system fills the eleven characters for it.
pub proof fn law_fat_words(f: FatFailure)
    ensures
        match f {
            FatFailure::CreateDir => fat_words(f) == "Failed to create dir '"@,
            FatFailure::CreateFile => fat_words(f) == "Failed to create '"@,
            FatFailure::Flush => fat_words(f) == "Failed to flush '"@,
        },
        VOLUME_LABEL@ == "WINUSB     "@,
        VOLUME_LABEL@.len() == 11,
{
    reveal_strlit("WINUSB     ");
}

} // verus!
