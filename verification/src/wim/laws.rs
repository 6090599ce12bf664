//! What holds of a split WIM file as a whole.

use crate::bytes;
use crate::error;
use crate::iso::reader::FAT32_MAX_FILE_SIZE;
use crate::sort;
use crate::source;
use crate::wim::entry;
use crate::wim::entry::LOOKUP_ENTRY_SIZE;
use crate::wim::header;
use crate::wim::header::HEADER_SIZE;
use crate::wim::plan;
use crate::wim::split;
use vstd::prelude::*;

verus! {

// ---------------------------------------------------------------------------
// The plan
// ---------------------------------------------------------------------------
/// Every resource with stored bytes stands in exactly one part, at one place; one without
/// stored bytes stands in none.
pub proof fn law_every_resource_once(
    h: Seq<u8>,
    lt: Seq<u8>,
    xml: Seq<u8>,
    max: u64,
    p: plan::PlanView,
)
    requires
        plan::is_plan(h, lt, xml, max, p),
        p.wf(),
        p.entries.len() <= usize::MAX,
    ensures
        plan::no_repeats(p.parts),
        forall|i: usize|
            i < p.entries.len() ==> (#[trigger] plan::held_somewhere(p.parts, i)
                <==> p.entries[i as int].compressed_size > 0),
{
    let e = p.entries;
    plan::lemma_plan_members(h, lt, xml, max, p);
    assert forall|i: usize| i < e.len() implies (#[trigger] plan::held_somewhere(p.parts, i)
        <==> e[i as int].compressed_size > 0) by {
        if plan::held_somewhere(p.parts, i) {
            let (q, k) = choose|q: int, k: int|
                0 <= q < p.parts.len() && 0 <= k < p.parts[q].len() && #[trigger] p.parts[q][k]
                    == i;
            assert(p.entries[p.parts[q][k] as int].compressed_size > 0);
        }
    }
}

/// All metadata resources stand in the first part.
pub proof fn law_metadata_first(
    h: Seq<u8>,
    lt: Seq<u8>,
    xml: Seq<u8>,
    max: u64,
    p: plan::PlanView,
)
    requires
        plan::is_plan(h, lt, xml, max, p),
        p.wf(),
        p.entries.len() <= usize::MAX,
    ensures
        forall|i: usize|
            i < p.entries.len() && p.entries[i as int].is_metadata()
                && p.entries[i as int].compressed_size > 0 ==> #[trigger] p.parts[0].contains(i),
{
    plan::lemma_plan_metadata(h, lt, xml, max, p);
}

/// A part is over the limit only where it holds a single resource, or, being the first, only
/// metadata. What is counted is the header, the whole lookup table, the XML data and the
/// resources.
pub proof fn law_parts_within_limit(
    h: Seq<u8>,
    lt: Seq<u8>,
    xml: Seq<u8>,
    max: u64,
    p: plan::PlanView,
)
    requires
        plan::is_plan(h, lt, xml, max, p),
        p.wf(),
        p.entries.len() <= usize::MAX,
    ensures
        forall|q: int|
            0 <= q < p.parts.len() && plan::overhead(lt.len(), xml.len()) + plan::total(
                p.entries,
                #[trigger] p.parts[q],
            ) > plan::limit(max) ==> p.parts[q].len() == 1 || q == 0 && forall|k: int|
                0 <= k < p.parts[q].len() ==> p.entries[#[trigger] p.parts[q][k] as int].is_metadata(),
{
    plan::lemma_plan_limits(h, lt, xml, max, p);
}

/// Each entry is assigned a part that exists, as long as the parts can be numbered.
pub proof fn law_assigned_parts_exist(p: plan::PlanView)
    requires
        p.wf(),
        p.parts.len() < 0x1_0000,
        p.entries.len() <= usize::MAX,
    ensures
        forall|i: int|
            0 <= i < p.entries.len() ==> 1 <= (#[trigger] p.assignments[i]).0 <= p.parts.len(),
{
    assert forall|i: int| 0 <= i < p.entries.len() implies 1 <= (#[trigger] p.assignments[i]).0
        <= p.parts.len() by {
        if !plan::unplaced(p.parts, i) {
            let (q, k) = choose|q: int, k: int|
                0 <= q < p.parts.len() && 0 <= k < p.parts[q].len() && #[trigger] p.parts[q][k]
                    == i;
            assert(p.assignments[p.parts[q][k] as int] == plan::slot(p.entries, p.parts, q, k));
        }
    }
}

/// The resources of a part lie one after another behind the header, in the order of the part,
/// and end where the lookup table begins.
pub proof fn law_resources_packed(p: plan::PlanView, q: int, k: int)
    requires
        p.wf(),
        0 <= q < p.parts.len(),
        0 <= k < p.parts[q].len(),
    ensures
        ({
            let i = p.parts[q][k] as int;
            let size = p.entries[i].compressed_size;
            &&& p.assignments[i].1 + size == if k + 1 < p.parts[q].len() {
                p.assignments[p.parts[q][k + 1] as int].1 as int
            } else {
                HEADER_SIZE + plan::total(p.entries, p.parts[q])
            }
            &&& k == 0 ==> p.assignments[i].1 == HEADER_SIZE
        }),
{
    let e = p.entries;
    let s = p.parts[q];
    plan::lemma_total_take(e, s, k);
    plan::lemma_total_take(e, s, k + 1);
    assert(p.assignments[p.parts[q][k] as int] == plan::slot(e, p.parts, q, k));
    if k + 1 < s.len() {
        assert(p.assignments[p.parts[q][k + 1] as int] == plan::slot(e, p.parts, q, k + 1));
    } else {
        assert(s.take(k + 1) =~= s);
    }
    assert(s.take(0) =~= Seq::empty());
}

/// Where no limit is asked for, the limit is 3800 MiB: the plan, or the lack of one, is the same.
pub proof fn law_default_limit(
    source: Seq<u8>,
    a: std::result::Result<plan::PlanView, error::ErrorView>,
    b: std::result::Result<plan::PlanView, error::ErrorView>,
)
    requires
        split::splits_to(source, 0, a),
        split::splits_to(source, plan::DEFAULT_MAX_PART_SIZE, b),
    ensures
        a == b,
        plan::DEFAULT_MAX_PART_SIZE == 3800 * 1024 * 1024,
        forall|h: Seq<u8>, lt: Seq<u8>, xml: Seq<u8>, p: plan::PlanView|
            #[trigger] plan::is_plan(h, lt, xml, 0, p) == plan::is_plan(
                h,
                lt,
                xml,
                plan::DEFAULT_MAX_PART_SIZE,
                p,
            ),
{
    if let (Ok(p), Ok(q)) = (a, b) {
        let h = source.subrange(0, HEADER_SIZE as int);
        law_one_plan(h, split::table_of(source)->0, split::xml_of(source)->0, 0, p, q);
    }
}

/// There is only one plan for a WIM file.
pub proof fn law_one_plan(
    h: Seq<u8>,
    lt: Seq<u8>,
    xml: Seq<u8>,
    max: u64,
    p: plan::PlanView,
    q: plan::PlanView,
)
    requires
        plan::is_plan(h, lt, xml, max, p),
        plan::is_plan(h, lt, xml, max, q),
    ensures
        p == q,
{
    let e = p.entries;
    let pk = plan::packing(lt, xml.len(), max);
    assert forall|j: int| 0 <= j < pk.len() implies #[trigger] p.parts[j] == q.parts[j] by {
        assert(plan::arranged(e, pk[j], q.parts[j]));
        plan::lemma_arranged_unique(e, pk[j], p.parts[j], q.parts[j]);
    }
    assert(p.parts =~= q.parts);
    assert forall|i: int| 0 <= i < e.len() implies #[trigger] p.assignments[i]
        == q.assignments[i] by {
        if !plan::unplaced(p.parts, i) {
            let (j, k) = choose|j: int, k: int|
                0 <= j < p.parts.len() && 0 <= k < p.parts[j].len() && #[trigger] p.parts[j][k]
                    == i;
            assert(p.assignments[p.parts[j][k] as int] == plan::slot(e, p.parts, j, k));
            assert(q.assignments[q.parts[j][k] as int] == plan::slot(e, q.parts, j, k));
        } else {
            assert(q.assignments[i] == (1u16, 0u64));
        }
    }
    assert(p.assignments =~= q.assignments);
    match (p.boot, q.boot) {
        (Some(a), Some(b)) => {
            if a < b {
                assert(!plan::is_boot_entry(h, e, a as int));
            } else if b < a {
                assert(!plan::is_boot_entry(h, e, b as int));
            }
        },
        (Some(a), None) => {
            assert(!plan::is_boot_entry(h, e, a as int));
        },
        (None, Some(b)) => {
            assert(!plan::is_boot_entry(h, e, b as int));
        },
        (None, None) => {},
    }
}

// ---------------------------------------------------------------------------
// The header of a part
// ---------------------------------------------------------------------------
/// The header of a part keeps the magic number, gives the part and the number of parts, says
/// where its lookup table and XML data lie, and has no integrity table.
pub proof fn law_part_header(p: plan::PlanView, part_num: u16)
    requires
        p.wf(),
        1 <= part_num <= p.parts.len(),
    ensures
        ({
            let h = split::part_header(p, part_num);
            let res = p.parts[part_num - 1];
            let data = plan::total(p.entries, res);
            let lt_size = res.len() * LOOKUP_ENTRY_SIZE;
            &&& h.len() == HEADER_SIZE
            &&& h.subrange(0, 8) == header::magic()
            &&& bytes::u32_at(h, 16) == bytes::u32_at(p.header, 16) | 8
            &&& bytes::u16_at(h, 40) == part_num
            &&& bytes::u16_at(h, 42) == p.parts.len() % 0x1_0000
            &&& header::low56(bytes::u64_at(h, 48)) == lt_size
            &&& h[55] == p.header[55]
            &&& bytes::u64_at(h, 56) == HEADER_SIZE + data
            &&& bytes::u64_at(h, 64) == lt_size
            &&& header::low56(bytes::u64_at(h, 72)) == p.xml.len()
            &&& h[79] == p.header[79]
            &&& bytes::u64_at(h, 80) == HEADER_SIZE + data + lt_size
            &&& bytes::u64_at(h, 88) == p.xml.len()
            &&& h.subrange(124, 148) == bytes::zeros(24)
        }),
{
    let h = split::part_header(p, part_num);
    let res = p.parts[part_num - 1];
    let data = plan::total(p.entries, res);
    let lt_size = res.len() * LOOKUP_ENTRY_SIZE;
    split::lemma_part_len(p, part_num - 1);
    assert(HEADER_SIZE + p.entries.len() * 50 + p.xml.len() + data <= u64::MAX) by {
        assert(p.parts[part_num - 1] == res);
    }
    lemma_header_bytes(p, part_num);
    let a = header::sized(lt_size as u64, p.header[55]);
    let b = header::sized(p.xml.len() as u64, p.header[79]);
    assert(h.subrange(0, 8) =~= p.header.subrange(0, 8));
    bytes::lemma_u32_roundtrip(h, 16, bytes::u32_at(p.header, 16) | 8);
    bytes::lemma_u16_roundtrip(h, 40, part_num);
    bytes::lemma_u16_roundtrip(h, 42, (p.parts.len() % 0x1_0000) as u16);
    bytes::lemma_u64_roundtrip(h, 48, a);
    bytes::lemma_u64_roundtrip(h, 56, (HEADER_SIZE + data) as u64);
    bytes::lemma_u64_roundtrip(h, 64, lt_size as u64);
    bytes::lemma_u64_roundtrip(h, 72, b);
    bytes::lemma_u64_roundtrip(h, 80, (HEADER_SIZE + data + lt_size) as u64);
    bytes::lemma_u64_roundtrip(h, 88, p.xml.len() as u64);
    header::lemma_sized(lt_size as u64, p.header[55]);
    header::lemma_sized(p.xml.len() as u64, p.header[79]);
    lemma_top_byte(a, h, 48);
    lemma_top_byte(b, h, 72);
}

/// The last byte of a 64-bit field is its top byte.
proof fn lemma_top_byte(v: u64, h: Seq<u8>, i: int)
    requires
        0 <= i,
        i + 8 <= h.len(),
        h.subrange(i, i + 8) == bytes::u64_le(v),
    ensures
        h[i + 7] == v / 0x0100_0000_0000_0000,
{
    let t = h.subrange(i, i + 8);
    assert(t[7] == h[i + 7]);
    assert(v / 0x1_0000_0000 / 0x100_0000 == v / 0x0100_0000_0000_0000);
}

/// The header of a part is the header of the source file but for the fields that tell of the part:
/// the flags, the numbers of the part and of the parts, where its lookup table and XML data lie, the
/// boot metadata and the integrity table. In particular its version, the size of its chunks, its
/// identifier, the number of images and the index of the boot image are those of the source.
pub proof fn law_part_keeps_header(p: plan::PlanView, part_num: u16)
    requires
        p.wf(),
        1 <= part_num <= p.parts.len(),
    ensures
        ({
            let h = split::part_header(p, part_num);
            &&& h.len() == 208
            &&& forall|i: int|
                0 <= i < 208 && i != 16 && !(40 <= i < 44) && !(48 <= i < 55) && !(56 <= i < 79)
                    && !(80 <= i < 120) && !(124 <= i < 148) ==> #[trigger] h[i] == p.header[i]
            &&& bytes::number(h, 44, 4) == bytes::number(p.header, 44, 4)
            &&& bytes::number(h, 120, 4) == bytes::number(p.header, 120, 4)
        }),
{
    let h = split::part_header(p, part_num);
    lemma_part_header_kept(p, part_num);
    bytes::lemma_number_of_same(h, 44, p.header, 44, 4);
    bytes::lemma_number_of_same(h, 120, p.header, 120, 4);
}

/// The fields of a part's header that tell of the part, byte by byte: it is marked as one of
/// several, and numbered; the lookup table of fifty bytes for each resource follows the resources,
/// which follow the header; the XML data follow the table; and there is no integrity table.
pub proof fn law_part_header_bytes(p: plan::PlanView, part_num: u16)
    requires
        p.wf(),
        1 <= part_num <= p.parts.len(),
    ensures
        ({
            let h = split::part_header(p, part_num);
            let res = p.parts[part_num - 1];
            let data = plan::total(p.entries, res);
            &&& h[16] == p.header[16] | 8
            &&& h[40] + 256 * h[41] == part_num
            &&& h[42] + 256 * h[43] == p.parts.len() % 65536
            &&& bytes::number(h, 48, 7) == 50 * res.len()
            &&& bytes::number(h, 56, 8) == 208 + data
            &&& bytes::number(h, 64, 8) == 50 * res.len()
            &&& bytes::number(h, 72, 7) == p.xml.len()
            &&& bytes::number(h, 80, 8) == 208 + data + 50 * res.len()
            &&& bytes::number(h, 88, 8) == p.xml.len()
            &&& forall|i: int| 124 <= i < 148 ==> #[trigger] h[i] == 0
        }),
{
    law_part_header(p, part_num);
    let h = split::part_header(p, part_num);
    bytes::law_fields_are_numbers(h, 16);
    bytes::law_fields_are_numbers(h, 40);
    bytes::law_fields_are_numbers(h, 42);
    header::law_stored_size(h, 48);
    bytes::law_fields_are_numbers(h, 56);
    bytes::law_fields_are_numbers(h, 64);
    header::law_stored_size(h, 72);
    bytes::law_fields_are_numbers(h, 80);
    bytes::law_fields_are_numbers(h, 88);
    lemma_part_header_kept(p, part_num);
    reveal_with_fuel(bytes::number, 3);
    assert forall|i: int| 124 <= i < 148 implies #[trigger] h[i] == 0 by {
        assert(h.subrange(124, 148)[i - 124] == bytes::zeros(24)[i - 124]);
    }
}

/// The boot metadata in the header of a part: where the source file has none that can be found, the
/// field is that of the source; in the part that holds it, the field says where it lies in that
/// part, with the sizes and flags of the source; in any other part the field is zero.
pub proof fn law_boot_bytes(p: plan::PlanView, part_num: u16)
    requires
        p.wf(),
        1 <= part_num <= p.parts.len(),
    ensures
        ({
            let h = split::part_header(p, part_num);
            match p.boot {
                None => forall|i: int| 96 <= i < 120 ==> #[trigger] h[i] == p.header[i],
                Some(b) => if p.assignments[b as int].0 == part_num {
                    &&& bytes::number(h, 104, 8) == p.assignments[b as int].1
                    &&& forall|i: int|
                        96 <= i < 120 && !(104 <= i < 112) ==> #[trigger] h[i] == p.header[i]
                } else {
                    forall|i: int| 96 <= i < 120 ==> #[trigger] h[i] == 0
                },
            }
        }),
{
    let h = split::part_header(p, part_num);
    lemma_part_header_kept(p, part_num);
    if let Some(b) = p.boot {
        if p.assignments[b as int].0 == part_num {
            law_boot_metadata(p, part_num, b);
            bytes::law_fields_are_numbers(h, 104);
        }
    }
}

/// What the steps from the header of the source to that of a part leave alone.
#[verifier::rlimit(40)]
proof fn lemma_part_header_kept(p: plan::PlanView, part_num: u16)
    requires
        p.wf(),
        1 <= part_num <= p.parts.len(),
    ensures
        ({
            let h = split::part_header(p, part_num);
            &&& h.len() == 208
            &&& h[16] == p.header[16] | 8
            &&& forall|i: int|
                0 <= i < 208 && i != 16 && !(40 <= i < 44) && !(48 <= i < 55) && !(56 <= i < 79)
                    && !(80 <= i < 120) && !(124 <= i < 148) ==> #[trigger] h[i] == p.header[i]
            &&& p.boot is None ==> forall|i: int| 96 <= i < 120 ==> #[trigger] h[i] == p.header[i]
            &&& p.boot is Some && p.assignments[p.boot->0 as int].0 == part_num ==> forall|i: int|
                96 <= i < 120 && !(104 <= i < 112) ==> #[trigger] h[i] == p.header[i]
            &&& p.boot is Some && p.assignments[p.boot->0 as int].0 != part_num ==> forall|i: int|
                96 <= i < 120 ==> #[trigger] h[i] == 0
        }),
{
    reveal(split::part_header);
    let res = p.parts[part_num - 1];
    let data = plan::total(p.entries, res);
    let lt_size = res.len() * LOOKUP_ENTRY_SIZE;
    split::lemma_part_len(p, part_num - 1);
    assert(HEADER_SIZE + p.entries.len() * 50 + p.xml.len() + data <= u64::MAX) by {
        assert(p.parts[part_num - 1] == res);
    }
    let total = (p.parts.len() % 0x1_0000) as u16;
    let h1 = header::with_spanned_flag(p.header);
    let h2 = header::with_part_info(h1, part_num, total);
    let lt_at = (HEADER_SIZE + data) as u64;
    let h3 = header::with_resource(h2, 48, lt_at, lt_size as u64);
    let xml_at = (HEADER_SIZE + data + lt_size) as u64;
    let h4 = header::with_resource(h3, 72, xml_at, p.xml.len() as u64);
    let h5 = header::without_integrity(h4);
    header::law_spanned_flag(p.header);
    header::law_part_info(h1, part_num, total);
    header::law_resource_field(h2, 48, lt_at, lt_size as u64);
    header::law_resource_field(h3, 72, xml_at, p.xml.len() as u64);
    header::law_boot_and_integrity(h4, 0);
    if let Some(b) = p.boot {
        header::law_boot_and_integrity(h5, p.assignments[b as int].1);
    }
}

/// The bytes of the fields of a part's header.
#[verifier::rlimit(50)]
proof fn lemma_header_bytes(p: plan::PlanView, part_num: u16)
    requires
        p.header.len() == HEADER_SIZE,
    ensures
        ({
            let h = split::part_header(p, part_num);
            let res = p.parts[part_num - 1];
            let data = plan::total(p.entries, res);
            let lt_size = res.len() * LOOKUP_ENTRY_SIZE;
            &&& h.len() == HEADER_SIZE
            &&& forall|i: int| 0 <= i < 16 ==> h[i] == p.header[i]
            &&& h.subrange(16, 20) == bytes::u32_le(bytes::u32_at(p.header, 16) | 8)
            &&& h.subrange(40, 42) == bytes::u16_le(part_num)
            &&& h.subrange(42, 44) == bytes::u16_le((p.parts.len() % 0x1_0000) as u16)
            &&& h.subrange(48, 56) == bytes::u64_le(header::sized(lt_size as u64, p.header[55]))
            &&& h.subrange(56, 64) == bytes::u64_le((HEADER_SIZE + data) as u64)
            &&& h.subrange(64, 72) == bytes::u64_le(lt_size as u64)
            &&& h.subrange(72, 80) == bytes::u64_le(
                header::sized(p.xml.len() as u64, p.header[79]),
            )
            &&& h.subrange(80, 88) == bytes::u64_le((HEADER_SIZE + data + lt_size) as u64)
            &&& h.subrange(88, 96) == bytes::u64_le(p.xml.len() as u64)
            &&& h.subrange(124, 148) == bytes::zeros(24)
        }),
{
    reveal(split::part_header);
    let h = split::part_header(p, part_num);
    let res = p.parts[part_num - 1];
    let data = plan::total(p.entries, res);
    let lt_size = res.len() * LOOKUP_ENTRY_SIZE;
    let h1 = header::with_spanned_flag(p.header);
    let h2 = header::with_part_info(h1, part_num, (p.parts.len() % 0x1_0000) as u16);
    let h3 = header::with_resource(h2, 48, (HEADER_SIZE + data) as u64, lt_size as u64);
    let h4 = header::with_resource(
        h3,
        72,
        (HEADER_SIZE + data + lt_size) as u64,
        p.xml.len() as u64,
    );
    let h5 = header::without_integrity(h4);
    assert(h2[55] == p.header[55]);
    assert(h3[79] == p.header[79]);
    assert(h5.subrange(16, 20) =~= bytes::u32_le(bytes::u32_at(p.header, 16) | 8));
    assert(h5.subrange(40, 42) =~= bytes::u16_le(part_num));
    assert(h5.subrange(42, 44) =~= bytes::u16_le((p.parts.len() % 0x1_0000) as u16));
    assert(h5.subrange(48, 56) =~= bytes::u64_le(header::sized(lt_size as u64, p.header[55])));
    assert(h5.subrange(56, 64) =~= bytes::u64_le((HEADER_SIZE + data) as u64));
    assert(h5.subrange(64, 72) =~= bytes::u64_le(lt_size as u64));
    assert(h5.subrange(72, 80) =~= bytes::u64_le(
        header::sized(p.xml.len() as u64, p.header[79]),
    ));
    assert(h5.subrange(80, 88) =~= bytes::u64_le((HEADER_SIZE + data + lt_size) as u64));
    assert(h5.subrange(88, 96) =~= bytes::u64_le(p.xml.len() as u64));
    assert(h5.subrange(124, 148) =~= bytes::zeros(24));
    assert forall|i: int| 0 <= i < HEADER_SIZE && !(96 <= i < 120) implies h[i] == h5[i] by {}
    assert(h.subrange(16, 20) =~= h5.subrange(16, 20));
    assert(h.subrange(40, 42) =~= h5.subrange(40, 42));
    assert(h.subrange(42, 44) =~= h5.subrange(42, 44));
    assert(h.subrange(48, 56) =~= h5.subrange(48, 56));
    assert(h.subrange(56, 64) =~= h5.subrange(56, 64));
    assert(h.subrange(64, 72) =~= h5.subrange(64, 72));
    assert(h.subrange(72, 80) =~= h5.subrange(72, 80));
    assert(h.subrange(80, 88) =~= h5.subrange(80, 88));
    assert(h.subrange(88, 96) =~= h5.subrange(88, 96));
    assert(h.subrange(124, 148) =~= h5.subrange(124, 148));
}

/// The part that holds the boot metadata says where it lies there; the other parts have none.
pub proof fn law_boot_metadata(p: plan::PlanView, part_num: u16, b: usize)
    requires
        p.wf(),
        1 <= part_num <= p.parts.len(),
        p.boot == Some(b),
    ensures
        ({
            let h = split::part_header(p, part_num);
            if p.assignments[b as int].0 == part_num {
                &&& bytes::u64_at(h, 104) == p.assignments[b as int].1
                &&& header::low56(bytes::u64_at(h, 96)) == p.entries[b as int].compressed_size
            } else {
                h.subrange(96, 120) == bytes::zeros(24)
            }
        }),
{
    lemma_boot_bytes(p, part_num, b);
    let h = split::part_header(p, part_num);
    if p.assignments[b as int].0 == part_num {
        bytes::lemma_u64_roundtrip(h, 104, p.assignments[b as int].1);
        assert(bytes::u64_at(h, 96) == bytes::u64_at(p.header, 96));
    }
}

/// The bytes of the boot metadata fields of a part's header.
#[verifier::rlimit(50)]
proof fn lemma_boot_bytes(p: plan::PlanView, part_num: u16, b: usize)
    requires
        p.header.len() == HEADER_SIZE,
        p.boot == Some(b),
    ensures
        ({
            let h = split::part_header(p, part_num);
            &&& h.len() == HEADER_SIZE
            &&& if p.assignments[b as int].0 == part_num {
                &&& h.subrange(104, 112) == bytes::u64_le(p.assignments[b as int].1)
                &&& forall|i: int| 96 <= i < 104 ==> h[i] == p.header[i]
            } else {
                h.subrange(96, 120) == bytes::zeros(24)
            }
        }),
{
    reveal(split::part_header);
    let h = split::part_header(p, part_num);
    if p.assignments[b as int].0 == part_num {
        assert(h.subrange(104, 112) =~= bytes::u64_le(p.assignments[b as int].1));
    } else {
        assert(h.subrange(96, 120) =~= bytes::zeros(24));
    }
}

// ---------------------------------------------------------------------------
// The lookup table of a part
// ---------------------------------------------------------------------------
/// The lookup table of a part holds exactly the resources of the part, in order: each reads
/// back as in the source, but for its new offset, and names the part.
#[verifier::spinoff_prover]
#[verifier::rlimit(60)]
pub proof fn law_part_table(
    e: Seq<entry::EntryView>,
    a: Seq<(u16, u64)>,
    res: Seq<usize>,
    part_num: u16,
)
    requires
        forall|i: int| 0 <= i < e.len() ==> (#[trigger] e[i]).wf(),
        forall|k: int| 0 <= k < res.len() ==> #[trigger] res[k] < e.len(),
    ensures
        ({
            let t = split::part_table(e, a, res, part_num);
            &&& t.len() == res.len() * LOOKUP_ENTRY_SIZE
            &&& forall|k: int|
                0 <= k < res.len() ==> {
                    let i = #[trigger] res[k] as int;
                    &&& entry::entry_at(t, 50 * k) == (entry::EntryView {
                        source_offset: a[i].1,
                        ..e[i]
                    })
                    &&& bytes::u16_at(t, 50 * k + 24) == part_num
                }
        }),
    decreases res.len(),
{
    if res.len() > 0 {
        let s = res.drop_last();
        assert forall|k: int| 0 <= k < s.len() implies #[trigger] s[k] < e.len() by {
            assert(res[k] < e.len());
        }
        law_part_table(e, a, s, part_num);
        let u = split::part_table(e, a, s, part_num);
        let t = split::part_table(e, a, res, part_num);
        let n = s.len();
        let i = res[n as int] as int;
        let line = entry::entry_bytes(e[i], part_num, a[i].1);
        assert(e[i].wf());
        entry::law_entry_roundtrip(e[i], part_num, a[i].1);
        assert forall|k: int| 0 <= k < res.len() implies ({
            let i = #[trigger] res[k] as int;
            &&& entry::entry_at(t, 50 * k) == (entry::EntryView { source_offset: a[i].1, ..e[i] })
            &&& bytes::u16_at(t, 50 * k + 24) == part_num
        }) by {
            if k < n {
                assert(s[k] == res[k]);
                lemma_entry_before(u, line, k);
            } else {
                lemma_entry_after(u, line);
            }
        }
    }
}

/// Entries read the same after something was appended.
proof fn lemma_entry_before(u: Seq<u8>, line: Seq<u8>, k: int)
    requires
        0 <= k,
        50 * k + 50 <= u.len(),
    ensures
        entry::entry_at(u + line, 50 * k) == entry::entry_at(u, 50 * k),
        bytes::u16_at(u + line, 50 * k + 24) == bytes::u16_at(u, 50 * k + 24),
{
    let t = u + line;
    assert(t.subrange(50 * k, 50 * k + 50) =~= u.subrange(50 * k, 50 * k + 50));
    lemma_entry_in(t, 50 * k, u, 50 * k);
}

/// An appended entry reads as it does alone.
proof fn lemma_entry_after(u: Seq<u8>, line: Seq<u8>)
    requires
        line.len() == 50,
    ensures
        entry::entry_at(u + line, u.len() as int) == entry::entry_at(line, 0),
        bytes::u16_at(u + line, u.len() as int + 24) == bytes::u16_at(line, 24),
{
    let t = u + line;
    let n = u.len() as int;
    assert(t.subrange(n, n + 50) =~= line.subrange(0, 50));
    lemma_entry_in(t, n, line, 0);
}

/// An entry reads the same wherever its bytes stand.
proof fn lemma_entry_in(t: Seq<u8>, i: int, u: Seq<u8>, j: int)
    requires
        0 <= i,
        i + 50 <= t.len(),
        0 <= j,
        j + 50 <= u.len(),
        t.subrange(i, i + 50) == u.subrange(j, j + 50),
    ensures
        entry::entry_at(t, i) == entry::entry_at(u, j),
        bytes::u16_at(t, i + 24) == bytes::u16_at(u, j + 24),
{
    lemma_entry_alone(t, i);
    lemma_entry_alone(u, j);
}

/// An entry reads the same from its fifty bytes alone.
proof fn lemma_entry_alone(t: Seq<u8>, i: int)
    requires
        0 <= i,
        i + 50 <= t.len(),
    ensures
        entry::entry_at(t, i) == entry::entry_at(t.subrange(i, i + 50), 0),
        bytes::u16_at(t, i + 24) == bytes::u16_at(t.subrange(i, i + 50), 24),
{
    let one = t.subrange(i, i + 50);
    assert(one.subrange(30, 50) =~= t.subrange(i + 30, i + 50));
}

// ---------------------------------------------------------------------------
// The file of a part
// ---------------------------------------------------------------------------
/// The file that is written for a part where the source holds all its resources.
pub open spec fn part_image(p: plan::PlanView, part_num: u16, source: Seq<u8>) -> Seq<u8> {
    let res = p.parts[part_num - 1];
    split::part_header(p, part_num) + split::written(source, p.entries, res) + (split::part_table(
        p.entries,
        p.assignments,
        res,
        part_num,
    ) + p.xml)
}

/// Where all resources can be read, what is written are their bytes, one after another.
pub proof fn law_written(source: Seq<u8>, e: Seq<entry::EntryView>, res: Seq<usize>)
    requires
        split::all_readable(source, e, res),
    ensures
        split::written(source, e, res).len() == plan::total(e, res),
        forall|k: int|
            0 <= k < res.len() ==> {
                let i = #[trigger] res[k] as int;
                let at = plan::total(e, res.take(k)) as int;
                &&& at + e[i].compressed_size <= plan::total(e, res)
                &&& split::written(source, e, res).subrange(at, at + e[i].compressed_size)
                    == split::resource_at(source, e, i)->0
            },
    decreases res.len(),
{
    let w = split::written(source, e, res);
    if res.len() > 0 {
        let s = res.drop_last();
        assert forall|k: int| 0 <= k < s.len() implies split::resource_at(
            source,
            e,
            #[trigger] s[k] as int,
        ) is Some by {
            assert(res[k] == s[k]);
        }
        law_written(source, e, s);
        let v = split::written(source, e, s);
        let last = res[res.len() - 1] as int;
        let b = split::resource_at(source, e, last)->0;
        assert(split::resource_at(source, e, last) is Some);
        assert(w =~= v + b);
        assert forall|k: int| 0 <= k < res.len() implies ({
            let i = #[trigger] res[k] as int;
            let at = plan::total(e, res.take(k)) as int;
            &&& at + e[i].compressed_size <= plan::total(e, res)
            &&& w.subrange(at, at + e[i].compressed_size) == split::resource_at(source, e, i)->0
        }) by {
            let i = res[k] as int;
            let at = plan::total(e, res.take(k)) as int;
            if k < s.len() {
                assert(s[k] == res[k]);
                assert(s.take(k) =~= res.take(k));
                assert(w.subrange(at, at + e[i].compressed_size) =~= v.subrange(
                    at,
                    at + e[i].compressed_size,
                ));
            } else {
                assert(res.take(k) =~= s);
                assert(w.subrange(at, at + e[i].compressed_size) =~= b);
            }
        }
    }
}

/// The file of a part is a WIM file: its lookup table and XML data are read back from where
/// its header says they lie, and the bytes of each resource lie at its assigned offset.
pub proof fn law_part_file(p: plan::PlanView, part_num: u16, source: Seq<u8>)
    requires
        p.wf(),
        1 <= part_num <= p.parts.len(),
        split::all_readable(source, p.entries, p.parts[part_num - 1]),
    ensures
        ({
            let f = part_image(p, part_num, source);
            let res = p.parts[part_num - 1];
            &&& f.len() == HEADER_SIZE + plan::total(p.entries, res) + res.len()
                * LOOKUP_ENTRY_SIZE + p.xml.len()
            &&& split::unreadable(f) is None
            &&& split::table_of(f) == Some(
                split::part_table(p.entries, p.assignments, res, part_num),
            )
            &&& split::xml_of(f) == Some(p.xml)
            &&& forall|k: int|
                0 <= k < res.len() ==> source::bytes_at(
                    f,
                    p.assignments[#[trigger] res[k] as int].1 as int,
                    p.entries[res[k] as int].compressed_size as int,
                ) == split::resource_at(source, p.entries, res[k] as int)
        }),
{
    let f = part_image(p, part_num, source);
    let res = p.parts[part_num - 1];
    let e = p.entries;
    let h = split::part_header(p, part_num);
    let w = split::written(source, e, res);
    let t = split::part_table(e, p.assignments, res, part_num);
    law_part_header(p, part_num);
    law_written(source, e, res);
    assert forall|k: int| 0 <= k < res.len() implies #[trigger] res[k] < e.len() by {
        assert(p.parts[part_num - 1][k] < p.entries.len());
    }
    law_part_table(e, p.assignments, res, part_num);
    lemma_four_pieces(h, w, t, p.xml);
    lemma_prefix_field(f, h);
    assert forall|k: int| 0 <= k < res.len() implies source::bytes_at(
        f,
        p.assignments[#[trigger] res[k] as int].1 as int,
        p.entries[res[k] as int].compressed_size as int,
    ) == split::resource_at(source, p.entries, res[k] as int) by {
        let i = res[k] as int;
        assert(p.parts[part_num - 1][k] == res[k]);
        assert(p.assignments[i] == plan::slot(e, p.parts, part_num - 1, k));
        let from = plan::total(e, res.take(k)) as int;
        let size = e[i].compressed_size as int;
        assert(HEADER_SIZE + p.entries.len() * 50 + p.xml.len() + plan::total(
            p.entries,
            p.parts[part_num - 1],
        ) <= u64::MAX);
        assert(from + size <= w.len());
        lemma_behind_header(h, w, t + p.xml, from, size);
        assert(split::resource_at(source, e, res[k] as int) is Some);
    }
}

/// Where the four pieces of a file lie.
proof fn lemma_four_pieces(h: Seq<u8>, w: Seq<u8>, t: Seq<u8>, x: Seq<u8>)
    ensures
        ({
            let f = h + w + (t + x);
            let at = (h.len() + w.len()) as int;
            &&& f.len() == h.len() + w.len() + t.len() + x.len()
            &&& f.subrange(0, h.len() as int) == h
            &&& h.len() >= 8 ==> f.subrange(0, 8) == h.subrange(0, 8)
            &&& source::bytes_at(f, at, t.len() as int) == Some(t)
            &&& source::bytes_at(f, at + t.len(), x.len() as int) == Some(x)
        }),
{
    let f = h + w + (t + x);
    let at = (h.len() + w.len()) as int;
    assert(f.subrange(0, h.len() as int) =~= h);
    if h.len() >= 8 {
        assert(f.subrange(0, 8) =~= h.subrange(0, 8));
    }
    assert(f.subrange(at, at + t.len()) =~= t);
    assert(f.subrange(at + t.len(), at + t.len() + x.len()) =~= x);
    assert(t.len() == 0 ==> t =~= Seq::empty());
    assert(x.len() == 0 ==> x =~= Seq::empty());
}

/// What lies behind the header.
proof fn lemma_behind_header(h: Seq<u8>, w: Seq<u8>, rest: Seq<u8>, from: int, size: int)
    requires
        0 <= from,
        0 <= size,
        from + size <= w.len(),
    ensures
        source::bytes_at(h + w + rest, h.len() + from, size) == Some(w.subrange(from, from + size)),
{
    let f = h + w + rest;
    assert(f.subrange(h.len() + from, h.len() + from + size) =~= w.subrange(from, from + size));
    assert(size == 0 ==> w.subrange(from, from + size) =~= Seq::empty());
}

/// The fields of a header are those at the beginning of the file.
proof fn lemma_prefix_field(f: Seq<u8>, h: Seq<u8>)
    requires
        h.len() == HEADER_SIZE,
        f.len() >= HEADER_SIZE,
        f.subrange(0, HEADER_SIZE as int) == h,
    ensures
        bytes::u64_at(f, 48) == bytes::u64_at(h, 48),
        bytes::u64_at(f, 56) == bytes::u64_at(h, 56),
        bytes::u64_at(f, 72) == bytes::u64_at(h, 72),
        bytes::u64_at(f, 80) == bytes::u64_at(h, 80),
{
    assert forall|i: int| 0 <= i < HEADER_SIZE implies f[i] == h[i] by {
        assert(f.subrange(0, HEADER_SIZE as int)[i] == f[i]);
    }
}

/// Lists with the same members, none of them twice, have the same length.
proof fn lemma_same_len(a: Seq<usize>, b: Seq<usize>)
    requires
        sort::distinct(a),
        sort::distinct(b),
        sort::same_members(a, b),
    ensures
        a.len() == b.len(),
{
    assert(a.no_duplicates());
    assert(b.no_duplicates());
    a.unique_seq_to_set();
    b.unique_seq_to_set();
    assert forall|x: usize| a.to_set().contains(x) == b.to_set().contains(x) by {
        assert(a.contains(x) <==> b.contains(x));
    }
    assert(a.to_set() =~= b.to_set());
}

/// Where no limit is asked for, and FAT32 can hold a part of each single resource and one of the
/// metadata, it can hold the file of each part.
pub proof fn law_parts_fit_fat32(
    h: Seq<u8>,
    lt: Seq<u8>,
    xml: Seq<u8>,
    p: plan::PlanView,
    part_num: u16,
    source: Seq<u8>,
)
    requires
        plan::is_plan(h, lt, xml, 0, p),
        p.wf(),
        p.entries.len() <= usize::MAX,
        1 <= part_num <= p.parts.len(),
        split::all_readable(source, p.entries, p.parts[part_num - 1]),
        forall|i: int|
            0 <= i < p.entries.len() ==> HEADER_SIZE + (
            #[trigger] p.entries[i]).compressed_size + LOOKUP_ENTRY_SIZE + xml.len()
                < FAT32_MAX_FILE_SIZE,
        ({
            let meta = plan::selection(p.entries, true, p.entries.len());
            HEADER_SIZE + plan::total(p.entries, meta) + meta.len() * LOOKUP_ENTRY_SIZE + xml.len()
                < FAT32_MAX_FILE_SIZE
        }),
    ensures
        part_image(p, part_num, source).len() < FAT32_MAX_FILE_SIZE,
{
    let e = p.entries;
    let q = part_num - 1;
    let res = p.parts[q];
    law_part_file(p, part_num, source);
    law_parts_within_limit(h, lt, xml, 0, p);
    split::lemma_part_len(p, q);
    if plan::overhead(lt.len(), xml.len()) + plan::total(e, res) > plan::limit(0) {
        if res.len() == 1 {
            assert(res.drop_last() =~= Seq::empty());
            assert(plan::total(e, res.drop_last()) == 0);
            assert(p.parts[q][0] < e.len());
            assert(e[res[0] as int].compressed_size == plan::total(e, res));
        } else {
            let meta = plan::selection(e, true, e.len());
            plan::lemma_selection(e, true, e.len());
            law_metadata_first(h, lt, xml, 0, p);
            plan::lemma_part_distinct(p.parts, 0);
            assert(sort::same_members(res, meta)) by {
                assert forall|x: usize| #[trigger] res.contains(x) <==> meta.contains(x) by {
                    if res.contains(x) {
                        let k = choose|k: int| 0 <= k < res.len() && res[k] == x;
                        assert(p.parts[q][k] < e.len());
                        assert(e[p.parts[0][k] as int].is_metadata());
                        assert(plan::stored(e, x as int, true));
                    }
                    if meta.contains(x) {
                        let k = choose|k: int| 0 <= k < meta.len() && meta[k] == x;
                        assert(meta[k] < e.len());
                        assert(plan::stored(e, x as int, true));
                    }
                }
            }
            assert forall|k: int| 0 <= k < res.len() implies #[trigger] res[k] < e.len() by {
                assert(p.parts[q][k] < e.len());
            }
            plan::lemma_total_same_members(e, res, meta);
            lemma_same_len(res, meta);
        }
    }
    assert(e.len() == lt.len() / 50);
}

/// The parts together hold the bytes of all resources.
pub proof fn law_parts_hold_everything(
    h: Seq<u8>,
    lt: Seq<u8>,
    xml: Seq<u8>,
    max: u64,
    p: plan::PlanView,
)
    requires
        plan::is_plan(h, lt, xml, max, p),
        p.wf(),
        p.entries.len() <= usize::MAX,
    ensures
        plan::grand_total(p.entries, p.parts) == plan::sum_sizes(p.entries),
{
    plan::lemma_grand_total(h, lt, xml, max, p);
}

// ---------------------------------------------------------------------------
// The bytes of the tables
// ---------------------------------------------------------------------------
/// What is written for an entry, byte by byte: its stored size in seven bytes and its flags in one,
/// where it lies in the part, its size, the number of the part, the number of references, and its
/// checksum.
pub proof fn law_entry_written(e: entry::EntryView, part: u16, offset: u64)
    requires
        e.wf(),
    ensures
        ({
            let b = entry::entry_bytes(e, part, offset);
            &&& b.len() == 50
            &&& bytes::number(b, 0, 7) == e.compressed_size
            &&& b[7] == e.flags
            &&& bytes::number(b, 8, 8) == offset
            &&& bytes::number(b, 16, 8) == e.original_size
            &&& bytes::number(b, 24, 2) == part
            &&& bytes::number(b, 26, 4) == e.ref_count
            &&& b.subrange(30, 50) == e.sha1
        }),
{
    let b = entry::entry_bytes(e, part, offset);
    entry::law_entry_roundtrip(e, part, offset);
    law_entry_read(b, 0);
    bytes::law_fields_are_numbers(b, 24);
    assert(entry::entry_at(b, 0).sha1 == e.sha1);
}

/// What is read of an entry, byte by byte.
pub proof fn law_entry_read(s: Seq<u8>, i: int)
    requires
        0 <= i,
        i + 50 <= s.len(),
    ensures
        ({
            let e = entry::entry_at(s, i);
            &&& e.compressed_size == bytes::number(s, i, 7)
            &&& e.flags == s[i + 7]
            &&& e.source_offset == bytes::number(s, i + 8, 8)
            &&& e.original_size == bytes::number(s, i + 16, 8)
            &&& e.ref_count == bytes::number(s, i + 26, 4)
            &&& e.sha1 == s.subrange(i + 30, i + 50)
            &&& e.is_metadata() <==> s[i + 7] & 2 != 0
        }),
{
    header::law_stored_size(s, i);
    bytes::law_fields_are_numbers(s, i);
    bytes::lemma_eighth_byte(s, i);
    bytes::law_fields_are_numbers(s, i + 8);
    bytes::law_fields_are_numbers(s, i + 16);
    bytes::law_fields_are_numbers(s, i + 26);
    let f = s[i + 7];
    assert((f & 2 != 0) == (f / 2 % 2 == 1)) by (bit_vector);
}

/// The lookup table has an entry for each whole fifty bytes.
pub proof fn law_table_read(lt: Seq<u8>, i: int)
    requires
        0 <= i < lt.len() / 50,
    ensures
        plan::table_entries(lt).len() == lt.len() / 50,
        plan::table_entries(lt)[i] == entry::entry_at(lt.subrange(50 * i, 50 * i + 50), 0),
{
    let t = lt.subrange(50 * i, 50 * i + 50);
    let a = entry::entry_at(lt, 50 * i);
    let b = entry::entry_at(t, 0);
    law_entry_read(lt, 50 * i);
    law_entry_read(t, 0);
    bytes::lemma_number_of_same(lt, 50 * i, t, 0, 7);
    bytes::lemma_number_of_same(lt, 50 * i + 8, t, 8, 8);
    bytes::lemma_number_of_same(lt, 50 * i + 16, t, 16, 8);
    bytes::lemma_number_of_same(lt, 50 * i + 26, t, 26, 4);
    assert(a.sha1 =~= b.sha1);
}

/// The lookup table of a part, byte by byte: fifty bytes for each resource, in the order of the
/// resources.
pub proof fn law_table_written(
    e: Seq<entry::EntryView>,
    a: Seq<(u16, u64)>,
    res: Seq<usize>,
    part_num: u16,
    x: usize,
)
    requires
        e[x as int].wf(),
    ensures
        split::part_table(e, a, Seq::empty(), part_num).len() == 0,
        split::part_table(e, a, res.push(x), part_num) == split::part_table(e, a, res, part_num)
            + entry::entry_bytes(e[x as int], part_num, a[x as int].1),
{
    assert(res.push(x).drop_last() =~= res);
}

/// Where the lookup table and the XML data of a WIM file lie is told by its header: a place, and a
/// stored size in seven bytes. A file that is too short for its header, is marked otherwise, or ends
/// before its table or XML data cannot be read.
pub proof fn law_where_tables_lie(source: Seq<u8>)
    requires
        source.len() >= 208,
    ensures
        ({
            let at = bytes::number(source, 56, 8) as int;
            let n = bytes::number(source, 48, 7) as int;
            if n > 0 && at + n > source.len() {
                split::table_of(source) is None
            } else {
                split::table_of(source) == Some(
                    if n == 0 {
                        Seq::empty()
                    } else {
                        source.subrange(at, at + n)
                    },
                )
            }
        }),
        ({
            let at = bytes::number(source, 80, 8) as int;
            let n = bytes::number(source, 72, 7) as int;
            if n > 0 && at + n > source.len() {
                split::xml_of(source) is None
            } else {
                split::xml_of(source) == Some(
                    if n == 0 {
                        Seq::empty()
                    } else {
                        source.subrange(at, at + n)
                    },
                )
            }
        }),
{
    header::law_stored_size(source, 48);
    header::law_stored_size(source, 72);
    bytes::law_fields_are_numbers(source, 56);
    bytes::law_fields_are_numbers(source, 80);
}

/// What is told of a file that cannot be split: whether it is too short, no WIM file, or small
/// enough.
pub proof fn law_not_split(
    source: Seq<u8>,
    max: u64,
    r: std::result::Result<plan::PlanView, error::ErrorView>,
)
    requires
        split::splits_to(source, max, r),
    ensures
        source.len() < 208 ==> r == Err::<plan::PlanView, _>(
            error::ErrorView::Io("failed to fill whole buffer"@),
        ),
        source.len() >= 208 && !(source[0] == 0x4d && source[1] == 0x53 && source[2] == 0x57
            && source[3] == 0x49 && source[4] == 0x4d && source[5] == 0 && source[6] == 0
            && source[7] == 0) ==> r == Err::<plan::PlanView, _>(
            error::ErrorView::Other("Not a valid WIM file"@),
        ),
        source.len() >= 208 && header::is_wim(source) && (split::table_of(source) is None
            || split::xml_of(source) is None) ==> r == Err::<plan::PlanView, _>(
            error::ErrorView::Io("failed to fill whole buffer"@),
        ),
        source.len() >= 208 && header::is_wim(source) && split::table_of(source) is Some
            && split::xml_of(source) is Some && r is Err ==> r == Err::<plan::PlanView, _>(
            error::ErrorView::Other("WIM does not need splitting (fits in one part)"@),
        ) && plan::packing(split::table_of(source)->0, split::xml_of(source)->0.len(), max).len()
            <= 1,
        r is Ok ==> r->Ok_0.parts.len() > 1,
{
    header::law_wim_mark(source);
}

/// A file whose resources all go into one part, with what a part holds besides them, within the
/// limit, is not split.
pub proof fn law_small_is_not_split(
    source: Seq<u8>,
    max: u64,
    r: std::result::Result<plan::PlanView, error::ErrorView>,
)
    requires
        split::splits_to(source, max, r),
        split::unreadable(source) is None,
        split::table_of(source)->0.len() / 50 <= usize::MAX,
        ({
            let lt = split::table_of(source)->0;
            208 + lt.len() + split::xml_of(source)->0.len() + plan::sum_sizes(
                plan::table_entries(lt),
            ) <= if max == 0 {
                3800int * 1024 * 1024
            } else {
                max as int
            }
        }),
    ensures
        r is Err,
{
    if r is Ok {
        let lt = split::table_of(source)->0;
        let xml = split::xml_of(source)->0;
        let p = r->Ok_0;
        let h = source.subrange(0, 208);
        plan::law_parts_needed(h, lt, xml, max, p, 1);
        let x = choose|x: usize|
            #[trigger] p.parts[1].contains(x) && 208 + lt.len() + xml.len() + plan::total(
                p.entries,
                p.parts[0],
            ) + p.entries[x as int].compressed_size > if max == 0 {
                3800int * 1024 * 1024
            } else {
                max as int
            };
        let k = choose|k: int| 0 <= k < p.parts[1].len() && p.parts[1][k] == x;
        law_parts_hold_everything(h, lt, xml, max, p);
        lemma_two_parts(p, k);
    }
}

/// The first part and one resource of the second hold no more than all parts.
proof fn lemma_two_parts(p: plan::PlanView, k: int)
    requires
        p.wf(),
        0 <= k < p.parts[1].len(),
    ensures
        plan::total(p.entries, p.parts[0]) + p.entries[p.parts[1][k] as int].compressed_size
            <= plan::grand_total(p.entries, p.parts),
{
    let e = p.entries;
    let two = p.parts.take(2);
    plan::lemma_grand_total_take(e, p.parts, 2);
    assert(two.drop_last() =~= p.parts.take(1));
    assert(p.parts.take(1).drop_last() =~= p.parts.take(0));
    assert(p.parts.take(0) =~= Seq::empty());
    assert(plan::grand_total(e, p.parts.take(0)) == 0);
    assert(plan::grand_total(e, p.parts.take(1)) == plan::total(e, p.parts[0]));
    plan::lemma_total_take(e, p.parts[1], k);
    plan::lemma_total_take(e, p.parts[1], k + 1);
    assert(p.parts[1].take(k + 1).drop_last() =~= p.parts[1].take(k));
}

/// How a part is laid out: each resource is copied from its place in the source file, whole and in
/// order, and after each it is told how many bytes are written of how many.
pub proof fn law_copies(e: Seq<entry::EntryView>, res: Seq<usize>, k: int)
    requires
        0 <= k < res.len(),
        plan::total(e, res) <= u64::MAX,
    ensures
        split::copies_of(e, res).len() == res.len(),
        split::copies_of(e, res)[k].0 == e[res[k] as int].source_offset,
        split::copies_of(e, res)[k].1 == e[res[k] as int].compressed_size,
        split::copies_of(e, res)[k].2 == plan::total(e, res.take(k)) + e[res[k] as int].compressed_size,
        split::progress_of(e, res, res.len()).len() == res.len(),
        split::progress_of(e, res, res.len())[k].0 == split::copies_of(e, res)[k].2,
        split::progress_of(e, res, res.len())[k].1 == plan::total(e, res),
        split::progress_of(e, res, res.len()).last().0 == plan::total(e, res),
{
    plan::lemma_total_take(e, res, k);
    plan::lemma_total_take(e, res, k + 1);
    assert(res.take(k + 1).drop_last() =~= res.take(k));
    assert(res.take(res.len() as int) =~= res);
}

/// What is written of the resources of a part where the source file ends too early: all before the
/// first that it does not have, of that as much as can be copied, and nothing behind it; progress is
/// told of those before.
pub proof fn law_written_until_cut(
    source: Seq<u8>,
    e: Seq<entry::EntryView>,
    a: Seq<usize>,
    x: usize,
    b: Seq<usize>,
)
    requires
        split::all_readable(source, e, a),
        e[x as int].compressed_size > 0,
        e[x as int].source_offset + e[x as int].compressed_size > source.len(),
    ensures
        split::written(source, e, a.push(x) + b) == split::written(source, e, a)
            + source::copied_bytes(
            source,
            e[x as int].source_offset as int,
            e[x as int].compressed_size as int,
        ),
        split::finished(source, e, a.push(x) + b) == a.len(),
        !split::all_readable(source, e, a.push(x) + b),
    decreases b.len(),
{
    let all = a.push(x) + b;
    assert(all[a.len() as int] == x);
    assert(!split::all_readable(source, e, all));
    if b.len() == 0 {
        assert(all.drop_last() =~= a);
        assert(all.last() == x);
        if a.len() > 0 {
            assert(split::finished(source, e, a) == a.len());
        }
    } else {
        law_written_until_cut(source, e, a, x, b.drop_last());
        assert(all.drop_last() =~= a.push(x) + b.drop_last());
    }
}

/// The sizes of a WIM file can be counted in 64 bits wherever all its resources together, its table,
/// its XML data and a header can.
pub proof fn law_sizes_fit(lt: Seq<u8>, xml_len: nat, max: u64)
    requires
        lt.len() / 50 <= usize::MAX,
        208 + lt.len() + xml_len + plan::sum_sizes(plan::table_entries(lt)) <= u64::MAX,
    ensures
        plan::sizes_fit(lt, xml_len, max),
{
    let e = plan::table_entries(lt);
    let meta = plan::selection(e, true, e.len());
    let order = plan::data_order(e);
    plan::lemma_data_order_exists(e);
    plan::lemma_selection(e, true, e.len());
    plan::lemma_selection(e, false, e.len());
    lemma_distinct_order(e, order);
    assert(sort::distinct(meta));
    assert forall|k: int| 0 <= k < meta.len() implies #[trigger] meta[k] < e.len()
        && !order.contains(meta[k]) by {
        plan::law_selection(e, true, meta[k], 0, 0);
        assert(meta.contains(meta[k]));
        assert(plan::stored(e, meta[k] as int, true));
        if order.contains(meta[k]) {
            assert(plan::stored(e, meta[k] as int, false));
        }
    }
    lemma_adds_up(e, meta, order, plan::overhead(lt.len(), xml_len), plan::limit(max));
}

proof fn lemma_distinct_order(e: Seq<entry::EntryView>, o: Seq<usize>)
    requires
        plan::in_file_order(e, o),
    ensures
        sort::distinct(o),
{
    assert forall|k: int, l: int| 0 <= k < l < o.len() implies #[trigger] o[k] != #[trigger] o[l] by {
        assert(plan::comes_before(e, o[k] as int, o[l] as int));
    }
}

proof fn lemma_adds_up(
    e: Seq<entry::EntryView>,
    meta: Seq<usize>,
    order: Seq<usize>,
    oh: int,
    max: int,
)
    requires
        e.len() <= usize::MAX,
        0 <= oh,
        oh + plan::sum_sizes(e) <= u64::MAX,
        sort::distinct(meta),
        sort::distinct(order),
        forall|k: int| 0 <= k < meta.len() ==> #[trigger] meta[k] < e.len() && !order.contains(meta[k]),
        forall|k: int| 0 <= k < order.len() ==> #[trigger] order[k] < e.len(),
    ensures
        plan::adds_up(e, meta, order, oh, max),
    decreases order.len(),
{
    if order.len() == 0 {
        lemma_total_bound(e, meta, e.len());
    } else {
        let o = order.drop_last();
        let x = order.last();
        assert forall|k: int| 0 <= k < meta.len() implies #[trigger] meta[k] < e.len()
            && !o.contains(meta[k]) by {
            if o.contains(meta[k]) {
                let m = choose|m: int| 0 <= m < o.len() && o[m] == meta[k];
                assert(order[m] == meta[k]);
                assert(order.contains(meta[k]));
            }
        }
        lemma_adds_up(e, meta, o, oh, max);
        let p = plan::packed(e, meta, o, oh, max);
        plan::law_packed_in_order(e, meta, o, oh, max);
        let s = p.last().push(x);
        let head = p.drop_last().flatten_alt();
        assert(p.flatten_alt() == head + p.last());
        assert(head + p.last() == meta + o);
        let n = head.len() as int;
        assert forall|k: int| 0 <= k < s.len() implies #[trigger] s[k] == (meta + order)[n + k] by {
            if k < p.last().len() {
                assert((head + p.last())[n + k] == p.last()[k]);
                assert((meta + o)[n + k] == (meta + order)[n + k]);
            } else {
                assert((head + p.last()).len() == (meta + o).len());
            }
        }
        assert(sort::distinct(s)) by {
            assert forall|k: int, l: int| 0 <= k < l < s.len() implies #[trigger] s[k]
                != #[trigger] s[l] by {
                lemma_distinct_join(meta, order, n + k, n + l);
            }
        }
        assert forall|k: int| 0 <= k < s.len() implies #[trigger] s[k] < e.len() by {
            if n + k < meta.len() {
                assert(meta[n + k] < e.len());
            } else {
                assert(order[n + k - meta.len()] < e.len());
            }
        }
        lemma_total_bound(e, s, e.len());
        assert(s.drop_last() =~= p.last());
    }
}

proof fn lemma_distinct_join(a: Seq<usize>, b: Seq<usize>, k: int, l: int)
    requires
        sort::distinct(a),
        sort::distinct(b),
        forall|k: int| 0 <= k < a.len() ==> !b.contains(#[trigger] a[k]),
        0 <= k < l < a.len() + b.len(),
    ensures
        (a + b)[k] != (a + b)[l],
{
    if l < a.len() {
        assert(a[k] != a[l]);
    } else if k >= a.len() {
        assert(b[k - a.len()] != b[l - a.len()]);
    } else {
        assert(b.contains(b[l - a.len()]));
        assert(!b.contains(a[k]));
    }
}

/// Different resources hold no more bytes than all.
proof fn lemma_total_bound(e: Seq<entry::EntryView>, s: Seq<usize>, n: nat)
    requires
        n <= e.len(),
        e.len() <= usize::MAX,
        sort::distinct(s),
        forall|k: int| 0 <= k < s.len() ==> #[trigger] s[k] < n,
    ensures
        plan::total(e, s) <= plan::sum_sizes(e.take(n as int)),
        n == e.len() ==> plan::total(e, s) <= plan::sum_sizes(e),
    decreases n,
{
    assert(e.take(e.len() as int) =~= e);
    if n == 0 {
        if s.len() > 0 {
            assert(s[0] < n);
        }
    } else {
        let t = e.take(n as int);
        let x = (n - 1) as usize;
        assert(t.drop_last() =~= e.take(n - 1));
        assert(t.last() == e[n - 1]);
        if s.contains(x) {
            let k = choose|k: int| 0 <= k < s.len() && s[k] == x;
            let rest = s.remove(k);
            let a = s.take(k);
            let b = s.skip(k + 1);
            assert(s =~= a.push(x) + b);
            assert(rest =~= a + b);
            plan::lemma_total_concat(e, a.push(x), b);
            plan::lemma_total_concat(e, a, b);
            assert(a.push(x).drop_last() =~= a);
            assert(plan::total(e, s) == plan::total(e, rest) + e[n - 1].compressed_size);
            assert forall|i: int, j: int| 0 <= i < j < rest.len() implies #[trigger] rest[i]
                != #[trigger] rest[j] by {
                let i2 = if i < k { i } else { i + 1 };
                let j2 = if j < k { j } else { j + 1 };
                assert(s[i2] != s[j2]);
            }
            assert forall|i: int| 0 <= i < rest.len() implies #[trigger] rest[i] < n - 1 by {
                let i2 = if i < k { i } else { i + 1 };
                assert(s[i2] < n);
                if i2 < k {
                    assert(s[i2] != s[k]);
                } else {
                    assert(s[k] != s[i2]);
                }
            }
            lemma_total_bound(e, rest, (n - 1) as nat);
        } else {
            assert forall|i: int| 0 <= i < s.len() implies #[trigger] s[i] < n - 1 by {
                assert(s.contains(s[i]));
            }
            lemma_total_bound(e, s, (n - 1) as nat);
        }
    }
}

/// A plan is made of what stands in the source file: its first 208 bytes as the header, the entries
/// of its lookup table, and its XML data, all of them.
pub proof fn law_plan_of_source(
    source: Seq<u8>,
    max: u64,
    p: plan::PlanView,
    i: int,
)
    requires
        split::splits_to(source, max, Ok(p)),
    ensures
        source.len() >= 208,
        p.header == source.take(208),
        ({
            let at = bytes::number(source, 80, 8) as int;
            let n = bytes::number(source, 72, 7) as int;
            n > 0 ==> p.xml == source.subrange(at, at + n)
        }),
        bytes::number(source, 72, 7) == 0 ==> p.xml.len() == 0,
        ({
            let at = bytes::number(source, 56, 8) as int;
            let n = bytes::number(source, 48, 7) as int;
            &&& p.entries.len() == n / 50
            &&& 0 <= i < p.entries.len() ==> p.entries[i] == entry::entry_at(
                source.subrange(at + 50 * i, at + 50 * i + 50),
                0,
            )
        }),
{
    law_where_tables_lie(source);
    assert(source.take(208) =~= source.subrange(0, 208));
    let at = bytes::number(source, 56, 8) as int;
    let n = bytes::number(source, 48, 7) as int;
    let lt = split::table_of(source)->0;
    if 0 <= i < lt.len() / 50 {
        law_table_read(lt, i);
        assert(lt.subrange(50 * i, 50 * i + 50) =~= source.subrange(at + 50 * i, at + 50 * i + 50));
    }
}

/// A resource without stored bytes is assigned to the first part, with nothing there.
pub proof fn law_nothing_stored(p: plan::PlanView, i: int)
    requires
        p.wf(),
        0 <= i < p.entries.len(),
        p.entries[i].compressed_size == 0,
    ensures
        p.assignments[i].0 == 1,
        p.assignments[i].1 == 0,
{
    assert(plan::unplaced(p.parts, i)) by {
        assert forall|q: int, k: int|
            0 <= q < p.parts.len() && 0 <= k < p.parts[q].len() implies #[trigger] p.parts[q][k]
            != i by {
            assert(p.entries[p.parts[q][k] as int].compressed_size > 0);
        }
    }
}

/// The bytes of a resource are those of the source file at its place there, as many as are stored;
/// it can be read if and only if the file has them all. The resources of a part are written one
/// after another.
pub proof fn law_resources_written(
    source: Seq<u8>,
    e: Seq<entry::EntryView>,
    res: Seq<usize>,
    x: usize,
)
    ensures
        ({
            let at = e[x as int].source_offset as int;
            let n = e[x as int].compressed_size as int;
            let there = n == 0 || at + n <= source.len();
            &&& split::all_readable(source, e, res.push(x)) <==> split::all_readable(source, e, res)
                && there
            &&& split::all_readable(source, e, res) && there && n > 0 ==> split::written(
                source,
                e,
                res.push(x),
            ) == split::written(source, e, res) + source.subrange(at, at + n)
            &&& split::all_readable(source, e, res) && n == 0 ==> split::written(
                source,
                e,
                res.push(x),
            ) == split::written(source, e, res)
            &&& split::resource_at(source, e, x as int) is Some <==> there
            &&& there && n > 0 ==> split::resource_at(source, e, x as int) == Some(
                source.subrange(at, at + n),
            )
        }),
        split::all_readable(source, e, Seq::empty()),
        split::written(source, e, Seq::empty()).len() == 0,
{
    let all = res.push(x);
    assert(all.drop_last() =~= res);
    assert(all[res.len() as int] == x);
    if split::all_readable(source, e, all) {
        assert forall|k: int| 0 <= k < res.len() implies split::resource_at(
            source,
            e,
            #[trigger] res[k] as int,
        ) is Some by {
            assert(all[k] == res[k]);
        }
        assert(split::resource_at(source, e, all[res.len() as int] as int) is Some);
    }
    if split::all_readable(source, e, res) && split::resource_at(source, e, x as int) is Some {
        assert forall|k: int| 0 <= k < all.len() implies split::resource_at(
            source,
            e,
            #[trigger] all[k] as int,
        ) is Some by {
            if k < res.len() {
                assert(all[k] == res[k]);
            }
        }
    }
    let w = split::written(source, e, res);
    assert(w + Seq::<u8>::empty() =~= w);
}

/// A part, with a header, the whole lookup table and the XML data besides its resources, is within
/// the limit that is given, or 3800 mebibytes where none is, unless it holds a single resource or
/// only metadata.
pub proof fn law_parts_within_bytes(
    h: Seq<u8>,
    lt: Seq<u8>,
    xml: Seq<u8>,
    max: u64,
    p: plan::PlanView,
    q: int,
)
    requires
        plan::is_plan(h, lt, xml, max, p),
        p.wf(),
        p.entries.len() <= usize::MAX,
        0 <= q < p.parts.len(),
        p.parts[q].len() > 1,
        q > 0 || exists|k: int|
            0 <= k < p.parts[q].len() && p.entries[#[trigger] p.parts[q][k] as int].flags & 2 == 0,
    ensures
        208 + lt.len() + xml.len() + plan::total(p.entries, p.parts[q]) <= if max == 0 {
            3800int * 1024 * 1024
        } else {
            max as int
        },
{
    law_parts_within_limit(h, lt, xml, max, p);
    if q == 0 {
        let k = choose|k: int|
            0 <= k < p.parts[q].len() && p.entries[#[trigger] p.parts[q][k] as int].flags & 2 == 0;
        let f = p.entries[p.parts[q][k] as int].flags;
        assert((f & 2 == 0) == (f / 2 % 2 == 0)) by (bit_vector);
        assert(!p.entries[p.parts[q][k] as int].is_metadata());
    }
}

} // verus!
