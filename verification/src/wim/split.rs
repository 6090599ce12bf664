//! Dividing a WIM file into parts that each fit on a FAT32 file system.

use crate::bytes;
use crate::error;
use crate::error::Result;
use crate::sort;
use crate::source;
use crate::wim::entry;
use crate::wim::entry::{LookupEntry, LOOKUP_ENTRY_SIZE};
use crate::wim::header;
use crate::wim::header::{WimHeader, HEADER_SIZE};
use crate::wim::plan;
use crate::wim::plan::SplitPlan;
use vstd::prelude::*;

verus! {

/// The lookup table that the header points to.
pub open spec fn table_of(source: Seq<u8>) -> Option<Seq<u8>> {
    source::bytes_at(
        source,
        bytes::u64_at(source, 56) as int,
        header::low56(bytes::u64_at(source, 48)) as int,
    )
}

/// The XML data that the header points to.
pub open spec fn xml_of(source: Seq<u8>) -> Option<Seq<u8>> {
    source::bytes_at(
        source,
        bytes::u64_at(source, 80) as int,
        header::low56(bytes::u64_at(source, 72)) as int,
    )
}

/// Why a file cannot be read as a WIM file.
pub open spec fn unreadable(source: Seq<u8>) -> Option<error::ErrorView> {
    if source.len() < HEADER_SIZE {
        Some(source::cut_short())
    } else if !header::is_wim(source) {
        Some(error::ErrorView::Other("Not a valid WIM file"@))
    } else if table_of(source) is None || xml_of(source) is None {
        Some(source::cut_short())
    } else {
        None
    }
}

/// What comes of dividing a WIM file into parts of at most `max` bytes: a plan, or why there is none.
pub open spec fn splits_to(
    source: Seq<u8>,
    max: u64,
    r: std::result::Result<plan::PlanView, error::ErrorView>,
) -> bool {
    match unreadable(source) {
        Some(e) => r == Err::<plan::PlanView, _>(e),
        None => {
            let lt = table_of(source)->0;
            let xml = xml_of(source)->0;
            if plan::packing(lt, xml.len(), max).len() > 1 {
                &&& r is Ok
                &&& r->Ok_0.wf()
                &&& plan::is_plan(
                    source.subrange(0, HEADER_SIZE as int),
                    lt,
                    xml,
                    max,
                    r->Ok_0,
                )
            } else {
                r == Err::<plan::PlanView, _>(
                    error::ErrorView::Other("WIM does not need splitting (fits in one part)"@),
                )
            }
        },
    }
}

/// A plan, or the error in its place.
pub open spec fn plan_result(r: Result<SplitPlan>) -> std::result::Result<
    plan::PlanView,
    error::ErrorView,
> {
    match r {
        Ok(p) => Ok(p@),
        Err(e) => Err(e@),
    }
}

/// Reads a WIM file and works out how to split it.
pub fn plan_split(source: &[u8], max_part_size: u64) -> (r: Result<SplitPlan>)
    requires
        unreadable(source@) is None ==> plan::sizes_fit(
            table_of(source@)->0,
            xml_of(source@)->0.len(),
            max_part_size,
        ),
    ensures
        splits_to(source@, max_part_size, plan_result(r)),
{
    if source.len() < HEADER_SIZE {
        return Err(source::cut_short_error());
    }
    let header = match WimHeader::parse(source) {
        Ok(h) => h,
        Err(e) => {
            return Err(e);
        },
    };
    proof {
        lemma_header_fields(source@);
    }
    let lt = match source::read_exact_at(
        source,
        header.lookup_table_offset(),
        header.lookup_table_size(),
    ) {
        Ok(v) => v,
        Err(e) => {
            return Err(e);
        },
    };
    let xml = match source::read_exact_at(source, header.xml_offset(), header.xml_size()) {
        Ok(v) => v,
        Err(e) => {
            return Err(e);
        },
    };
    assert(header@.subrange(0, 8) =~= source@.subrange(0, 8));
    plan::plan_parts(header, &lt, xml, max_part_size)
}

/// The fields of a header are those at the beginning of the file.
proof fn lemma_header_fields(source: Seq<u8>)
    requires
        source.len() >= HEADER_SIZE,
    ensures
        forall|i: int|
            0 <= i <= HEADER_SIZE - 8 ==> #[trigger] bytes::u64_at(
                source.subrange(0, HEADER_SIZE as int),
                i,
            ) == bytes::u64_at(source, i),
{
}

// ---------------------------------------------------------------------------
// Writing a part
// ---------------------------------------------------------------------------
/// The header of a part.
#[verifier::opaque]
pub open spec fn part_header(p: plan::PlanView, part_num: u16) -> Seq<u8> {
    let res = p.parts[part_num - 1];
    let data = plan::total(p.entries, res);
    let lt_size = res.len() * LOOKUP_ENTRY_SIZE;
    let h1 = header::with_spanned_flag(p.header);
    let h2 = header::with_part_info(h1, part_num, (p.parts.len() % 0x1_0000) as u16);
    let h3 = header::with_resource(h2, 48, (HEADER_SIZE + data) as u64, lt_size as u64);
    let h4 = header::with_resource(
        h3,
        72,
        (HEADER_SIZE + data + lt_size) as u64,
        p.xml.len() as u64,
    );
    let h5 = header::without_integrity(h4);
    match p.boot {
        Some(b) => if p.assignments[b as int].0 == part_num {
            header::with_boot_offset(h5, p.assignments[b as int].1)
        } else {
            header::without_boot(h5)
        },
        None => h5,
    }
}

/// The lookup table of a part: its resources, in order, at their new places.
pub open spec fn part_table(
    e: Seq<entry::EntryView>,
    assignments: Seq<(u16, u64)>,
    res: Seq<usize>,
    part_num: u16,
) -> Seq<u8>
    decreases res.len(),
{
    if res.len() == 0 {
        Seq::empty()
    } else {
        let i = res.last() as int;
        part_table(e, assignments, res.drop_last(), part_num) + entry::entry_bytes(
            e[i],
            part_num,
            assignments[i].1,
        )
    }
}

/// How a part is put together.
#[derive(Debug)]
pub struct PartLayout {
    /// The header.
    pub header: Vec<u8>,
    /// What is copied from the source after it: from where, how many bytes, and how many
    /// bytes of this part have been copied then.
    pub copies: Vec<(u64, u64, u64)>,
    /// How many bytes are copied in all.
    pub resources_size: u64,
    /// The lookup table and the XML data, which come last.
    pub tail: Vec<u8>,
}

/// What is copied for the resources `res`.
pub open spec fn copies_of(e: Seq<entry::EntryView>, res: Seq<usize>) -> Seq<(u64, u64, u64)> {
    Seq::new(
        res.len(),
        |k: int|
            (
                e[res[k] as int].source_offset,
                e[res[k] as int].compressed_size,
                plan::total(e, res.take(k + 1)) as u64,
            ),
    )
}

impl PartLayout {
    /// The layout is that of a part of a plan.
    pub open spec fn lays_out(self, p: plan::PlanView, part_num: u16) -> bool {
        let res = p.parts[part_num - 1];
        &&& self.header@ == part_header(p, part_num)
        &&& self.copies@ == copies_of(p.entries, res)
        &&& self.resources_size == plan::total(p.entries, res)
        &&& self.tail@ == part_table(p.entries, p.assignments, res, part_num) + p.xml
    }
}

/// The number of entries in a part is at most that of the table.
pub proof fn lemma_part_len(p: plan::PlanView, q: int)
    requires
        p.wf(),
        0 <= q < p.parts.len(),
    ensures
        p.parts[q].len() <= p.entries.len(),
{
    let s = p.parts[q];
    let n = p.entries.len();
    plan::lemma_part_distinct(p.parts, q);
    assert forall|k: int| 0 <= k < s.len() implies #[trigger] s[k] < n by {
        assert(p.parts[q][k] < p.entries.len());
    }
    sort::lemma_too_many(s, n);
}

/// Builds the header of a part.
fn build_header(plan: &SplitPlan, part_num: u16, data: u64, lt_size: u64) -> (r: WimHeader)
    requires
        plan@.wf(),
        1 <= part_num <= plan@.parts.len(),
        data == plan::total(plan@.entries, plan@.parts[part_num - 1]),
        lt_size == plan@.parts[part_num - 1].len() * LOOKUP_ENTRY_SIZE,
        HEADER_SIZE + data + lt_size <= u64::MAX,
    ensures
        r.wf(),
        r@ == part_header(plan@, part_num),
{
    proof {
        reveal(part_header);
    }
    let mut h = plan.header().duplicate();
    h.set_spanned_flag();
    h.set_part_info(part_num, plan.total_parts());
    h.set_lookup_table(HEADER_SIZE as u64 + data, lt_size);
    h.set_xml_data(HEADER_SIZE as u64 + data + lt_size, plan.xml_data().len() as u64);
    h.clear_integrity();
    match plan.boot_metadata_idx() {
        Some(b) => {
            let (boot_part, boot_offset) = plan.assignments()[b];
            if boot_part == part_num {
                h.set_boot_metadata_offset(boot_offset);
            } else {
                h.clear_boot_metadata();
            }
        },
        None => {},
    }
    h
}

/// Works out how a part is put together.
pub fn part_layout(plan: &SplitPlan, part_num: u16) -> (r: PartLayout)
    requires
        plan@.wf(),
        1 <= part_num <= plan@.parts.len(),
    ensures
        r.lays_out(plan@, part_num),
{
    let q: usize = part_num as usize - 1;
    let ghost p = plan@;
    let ghost e = p.entries;
    let ghost res = p.parts[q as int];
    proof {
        lemma_part_len(p, q as int);
        assert(plan::total(e, p.parts[q as int]) >= 0);
    }
    let entries = plan.entries();
    let resources = &plan.parts()[q];
    let n: usize = resources.len();
    assert(resources@ == res);
    let data = plan.part_resources_size(part_num);
    let lt_size: u64 = n as u64 * LOOKUP_ENTRY_SIZE as u64;
    let header = build_header(plan, part_num, data, lt_size);
    let mut copies: Vec<(u64, u64, u64)> = Vec::new();
    let mut copied: u64 = 0;
    let mut tail: Vec<u8> = Vec::new();
    let mut k: usize = 0;
    assert(res.take(0) =~= Seq::empty());
    assert(copies@ =~= copies_of(e, res.take(0)));
    assert(tail@ =~= part_table(e, p.assignments, res.take(0), part_num));
    while k < n
        invariant
            k <= n,
            p == plan@,
            p.wf(),
            e == p.entries,
            q == part_num - 1,
            0 <= q < p.parts.len(),
            res == p.parts[q as int],
            resources@ == res,
            n == res.len(),
            plan::entry_views(entries@) == e,
            data == plan::total(e, res),
            copied == plan::total(e, res.take(k as int)),
            copies@.len() == k,
            forall|i: int|
                0 <= i < k ==> #[trigger] copies@[i] == copies_of(e, res)[i],
            tail@ == part_table(e, p.assignments, res.take(k as int), part_num),
        decreases n - k,
    {
        let idx: usize = resources[k];
        proof {
            assert(p.parts[q as int][k as int] == idx);
            assert(e[idx as int] == entries@[idx as int]@);
            plan::lemma_total_take(e, res, k as int);
            plan::lemma_total_take(e, res, k + 1);
            assert(res.take(k + 1).drop_last() =~= res.take(k as int));
            assert(res.take(k + 1).last() == idx);
        }
        let one: &LookupEntry = &entries[idx];
        copied += one.compressed_size;
        copies.push((one.source_offset, one.compressed_size, copied));
        let (_, new_offset) = plan.assignments()[idx];
        let line = one.serialize(part_num, new_offset);
        bytes::push_all(&mut tail, &line);
        k += 1;
    }
    assert(copies@ =~= copies_of(e, res));
    assert(res.take(n as int) =~= res);
    bytes::push_all(&mut tail, plan.xml_data());
    let raw = bytes::slice_vec(header.as_bytes(), 0, HEADER_SIZE);
    assert(raw@ =~= header@);
    PartLayout {
        header: raw,
        copies,
        resources_size: data,
        tail,
    }
}

/// The bytes of entry `i` in the source.
pub open spec fn resource_at(source: Seq<u8>, e: Seq<entry::EntryView>, i: int) -> Option<
    Seq<u8>,
> {
    source::bytes_at(source, e[i].source_offset as int, e[i].compressed_size as int)
}

/// The source holds the bytes of all resources of `res`.
pub open spec fn all_readable(
    source: Seq<u8>,
    e: Seq<entry::EntryView>,
    res: Seq<usize>,
) -> bool {
    forall|k: int| 0 <= k < res.len() ==> resource_at(source, e, #[trigger] res[k] as int) is Some
}

/// What is written for the resources `res`, up to and with the first that the source cuts short.
pub open spec fn written(source: Seq<u8>, e: Seq<entry::EntryView>, res: Seq<usize>) -> Seq<u8>
    decreases res.len(),
{
    if res.len() == 0 {
        Seq::empty()
    } else {
        let w = written(source, e, res.drop_last());
        if all_readable(source, e, res.drop_last()) {
            let i = res.last() as int;
            w + source::copied_bytes(source, e[i].source_offset as int, e[i].compressed_size as int)
        } else {
            w
        }
    }
}

/// How many resources are written before the first that the source cuts short.
pub open spec fn finished(source: Seq<u8>, e: Seq<entry::EntryView>, res: Seq<usize>) -> nat
    decreases res.len(),
{
    if res.len() == 0 || all_readable(source, e, res) {
        res.len()
    } else {
        finished(source, e, res.drop_last())
    }
}

/// The progress told after each of the first `n` resources: bytes copied, and bytes in all.
pub open spec fn progress_of(e: Seq<entry::EntryView>, res: Seq<usize>, n: nat) -> Seq<
    (u64, u64),
> {
    Seq::new(
        n,
        |k: int| (plan::total(e, res.take(k + 1)) as u64, plan::total(e, res) as u64),
    )
}

proof fn lemma_readable_step(
    source: Seq<u8>,
    e: Seq<entry::EntryView>,
    res: Seq<usize>,
    k: int,
)
    requires
        0 <= k < res.len(),
    ensures
        all_readable(source, e, res.take(k + 1)) <==> all_readable(source, e, res.take(k))
            && resource_at(source, e, res[k] as int) is Some,
{
    let a = res.take(k + 1);
    let b = res.take(k);
    if all_readable(source, e, a) {
        assert(a[k] == res[k]);
        assert forall|i: int| 0 <= i < b.len() implies resource_at(
            source,
            e,
            #[trigger] b[i] as int,
        ) is Some by {
            assert(a[i] == b[i]);
        }
    }
    if all_readable(source, e, b) && resource_at(source, e, res[k] as int) is Some {
        assert forall|i: int| 0 <= i < a.len() implies resource_at(
            source,
            e,
            #[trigger] a[i] as int,
        ) is Some by {
            if i < k {
                assert(b[i] == a[i]);
            }
        }
    }
}

/// Where the `k`-th resource is the first that the source cuts short, nothing is written
/// after it.
proof fn lemma_cut_at(source: Seq<u8>, e: Seq<entry::EntryView>, res: Seq<usize>, k: int)
    requires
        0 <= k < res.len(),
        all_readable(source, e, res.take(k)),
        resource_at(source, e, res[k] as int) is None,
    ensures
        !all_readable(source, e, res),
        finished(source, e, res) == k,
        written(source, e, res) == written(source, e, res.take(k + 1)),
    decreases res.len(),
{
    if k == res.len() - 1 {
        assert(res.take(k + 1) =~= res);
        assert(res.drop_last() =~= res.take(k));
        lemma_finished_all(source, e, res.take(k));
    } else {
        let t = res.drop_last();
        assert(t.take(k) =~= res.take(k));
        assert(t.take(k + 1) =~= res.take(k + 1));
        lemma_cut_at(source, e, t, k);
    }
}

proof fn lemma_finished_all(source: Seq<u8>, e: Seq<entry::EntryView>, res: Seq<usize>)
    requires
        all_readable(source, e, res),
    ensures
        finished(source, e, res) == res.len(),
{
}

/// Writes a part. On an error `writer` and `progress` hold what was done before it.
pub fn write_part(
    plan: &SplitPlan,
    part_num: u16,
    source: &[u8],
    writer: &mut Vec<u8>,
    progress: &mut Vec<(u64, u64)>,
) -> (r: Result<()>)
    requires
        plan@.wf(),
        1 <= part_num <= plan@.parts.len(),
    ensures
        ({
            let p = plan@;
            let res = p.parts[part_num - 1];
            let ok = all_readable(source@, p.entries, res);
            &&& r is Ok <==> ok
            &&& r is Err ==> r->Err_0@ == source::cut_short()
            &&& final(writer)@ == old(writer)@ + part_header(p, part_num) + written(
                source@,
                p.entries,
                res,
            ) + if ok {
                part_table(p.entries, p.assignments, res, part_num) + p.xml
            } else {
                Seq::empty()
            }
            &&& final(progress)@ == old(progress)@ + progress_of(
                p.entries,
                res,
                finished(source@, p.entries, res),
            )
        }),
{
    let layout = part_layout(plan, part_num);
    let ghost p = plan@;
    let ghost e = p.entries;
    let ghost res = p.parts[part_num - 1];
    let ghost told = progress@;
    bytes::push_all(writer, &layout.header);
    let ghost begun = writer@;
    let n: usize = layout.copies.len();
    let mut k: usize = 0;
    assert(res.take(0) =~= Seq::empty());
    assert(begun + written(source@, e, res.take(0)) =~= begun);
    assert(told + progress_of(e, res, 0) =~= told);
    while k < n
        invariant
            k <= n,
            p == plan@,
            e == p.entries,
            res == p.parts[part_num - 1],
            n == res.len(),
            layout.lays_out(p, part_num),
            begun == old(writer)@ + part_header(p, part_num),
            told == old(progress)@,
            all_readable(source@, e, res.take(k as int)),
            writer@ == begun + written(source@, e, res.take(k as int)),
            progress@ == told + progress_of(e, res, k as nat),
        decreases n - k,
    {
        let (off, size, copied) = layout.copies[k];
        proof {
            assert(layout.copies@[k as int] == copies_of(e, res)[k as int]);
            lemma_readable_step(source@, e, res, k as int);
            assert(res.take(k + 1).drop_last() =~= res.take(k as int));
            assert(res.take(k + 1).last() == res[k as int]);
        }
        let done = source::copy_range(source, off, size, writer);
        assert(writer@ =~= begun + written(source@, e, res.take(k + 1)));
        if !done {
            proof {
                lemma_cut_at(source@, e, res, k as int);
                assert(writer@ + Seq::<u8>::empty() =~= writer@);
            }
            return Err(source::cut_short_error());
        }
        progress.push((copied, layout.resources_size));
        assert(progress@ =~= told + progress_of(e, res, (k + 1) as nat));
        k += 1;
    }
    proof {
        assert(res.take(n as int) =~= res);
        lemma_finished_all(source@, e, res);
    }
    bytes::push_all(writer, &layout.tail);
    Ok(())
}

} // verus!
