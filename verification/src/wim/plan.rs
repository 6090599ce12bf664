//! How a WIM file is divided into parts.

use crate::bytes;
use crate::error;
use crate::error::Result;
use crate::sort;
use crate::sort::{Order, Ranking};
use crate::text;
use crate::wim::entry;
use crate::wim::entry::{LookupEntry, LOOKUP_ENTRY_SIZE};
use crate::wim::header;
use crate::wim::header::{WimHeader, HEADER_SIZE};
use vstd::prelude::*;

verus! {

/// The size that a part is kept under unless another is asked for.
pub const DEFAULT_MAX_PART_SIZE: u64 = 3_984_588_800;

/// The entries of a lookup table.
pub open spec fn table_entries(lt: Seq<u8>) -> Seq<entry::EntryView> {
    Seq::new((lt.len() / 50) as nat, |i: int| entry::entry_at(lt, 50 * i))
}

/// The entries of a list.
pub open spec fn entry_views(v: Seq<LookupEntry>) -> Seq<entry::EntryView> {
    v.map_values(|x: LookupEntry| x@)
}

/// The stored bytes of the listed entries.
pub open spec fn total(e: Seq<entry::EntryView>, s: Seq<usize>) -> nat
    decreases s.len(),
{
    if s.len() == 0 {
        0
    } else {
        total(e, s.drop_last()) + e[s.last() as int].compressed_size as nat
    }
}

/// Entry `i` has stored bytes, and is metadata or not as asked.
pub open spec fn stored(e: Seq<entry::EntryView>, i: int, meta: bool) -> bool {
    e[i].compressed_size > 0 && e[i].is_metadata() == meta
}

/// The stored entries among the first `n`, in the order of the table.
pub open spec fn selection(e: Seq<entry::EntryView>, meta: bool, n: nat) -> Seq<usize>
    decreases n,
{
    if n == 0 {
        Seq::empty()
    } else if stored(e, n - 1, meta) {
        selection(e, meta, (n - 1) as nat).push((n - 1) as usize)
    } else {
        selection(e, meta, (n - 1) as nat)
    }
}

/// Entry `i` is written before entry `j`: it lies before it in the source; of two at one
/// place metadata goes first, and then what stands first in the table.
pub open spec fn comes_before(e: Seq<entry::EntryView>, i: int, j: int) -> bool {
    ||| e[i].source_offset < e[j].source_offset
    ||| e[i].source_offset == e[j].source_offset && e[i].is_metadata() && !e[j].is_metadata()
    ||| e[i].source_offset == e[j].source_offset && e[i].is_metadata() == e[j].is_metadata() && i < j
}

/// The list names entries, each coming before those that follow it.
pub open spec fn in_file_order(e: Seq<entry::EntryView>, s: Seq<usize>) -> bool {
    &&& forall|k: int| 0 <= k < s.len() ==> #[trigger] s[k] < e.len()
    &&& forall|k: int, l: int|
        0 <= k < l < s.len() ==> comes_before(e, #[trigger] s[k] as int, #[trigger] s[l] as int)
}

/// `o` lists the stored entries that are no metadata, in file order.
pub open spec fn is_data_order(e: Seq<entry::EntryView>, o: Seq<usize>) -> bool {
    &&& in_file_order(e, o)
    &&& forall|i: usize| i < e.len() ==> (#[trigger] o.contains(i) <==> stored(e, i as int, false))
}

/// The stored entries that are no metadata, in file order.
pub open spec fn data_order(e: Seq<entry::EntryView>) -> Seq<usize> {
    choose|o: Seq<usize>| is_data_order(e, o)
}

/// The parts after the entries of `order` were put, one after another, into the last part,
/// or into a new one where they would take a part that holds something past `max`.
pub open spec fn packed(
    e: Seq<entry::EntryView>,
    meta: Seq<usize>,
    order: Seq<usize>,
    overhead: int,
    max: int,
) -> Seq<Seq<usize>>
    decreases order.len(),
{
    if order.len() == 0 {
        seq![meta]
    } else {
        let p = packed(e, meta, order.drop_last(), overhead, max);
        let x = order.last();
        let held = total(e, p.last());
        if held + e[x as int].compressed_size + overhead > max && held > 0 {
            p.push(seq![x])
        } else {
            p.update(p.len() - 1, p.last().push(x))
        }
    }
}

/// What each part takes beside its resources, at most.
pub open spec fn overhead(lt_len: nat, xml_len: nat) -> int {
    HEADER_SIZE + lt_len + xml_len
}

/// The limit in force where `max` was asked for.
pub open spec fn limit(max: u64) -> int {
    if max == 0 {
        DEFAULT_MAX_PART_SIZE as int
    } else {
        max as int
    }
}

/// The members of the parts before each part is brought into file order.
pub open spec fn packing(lt: Seq<u8>, xml_len: nat, max: u64) -> Seq<Seq<usize>> {
    let e = table_entries(lt);
    packed(
        e,
        selection(e, true, e.len()),
        data_order(e),
        overhead(lt.len(), xml_len),
        limit(max),
    )
}

/// The part and the offset of the `k`-th resource of the `q`-th part.
pub open spec fn slot(
    e: Seq<entry::EntryView>,
    parts: Seq<Seq<usize>>,
    q: int,
    k: int,
) -> (u16, u64) {
    (((q + 1) % 0x1_0000) as u16, (HEADER_SIZE + total(e, parts[q].take(k))) as u64)
}

/// Entry `i` stands in no part.
pub open spec fn unplaced(parts: Seq<Seq<usize>>, i: int) -> bool {
    forall|q: int, k: int| 0 <= q < parts.len() && 0 <= k < parts[q].len() ==> #[trigger] parts[q][k] != i
}

/// `idx` is the first entry that lies where the header puts the boot metadata.
pub open spec fn is_boot_entry(h: Seq<u8>, e: Seq<entry::EntryView>, i: int) -> bool {
    &&& e[i].source_offset == bytes::u64_at(h, 104)
    &&& e[i].compressed_size == header::low56(bytes::u64_at(h, 96))
}

pub open spec fn is_boot_index(h: Seq<u8>, e: Seq<entry::EntryView>, idx: Option<usize>) -> bool {
    if header::low56(bytes::u64_at(h, 96)) == 0 {
        idx is None
    } else {
        match idx {
            Some(b) => {
                &&& b < e.len()
                &&& is_boot_entry(h, e, b as int)
                &&& forall|i: int| 0 <= i < b ==> !is_boot_entry(h, e, i)
            },
            None => forall|i: int| 0 <= i < e.len() ==> !is_boot_entry(h, e, i),
        }
    }
}

/// A plan for splitting a WIM file.
pub struct PlanView {
    pub header: Seq<u8>,
    pub entries: Seq<entry::EntryView>,
    pub xml: Seq<u8>,
    pub parts: Seq<Seq<usize>>,
    pub assignments: Seq<(u16, u64)>,
    pub boot: Option<usize>,
}

impl PlanView {
    /// No entry stands twice, and those that stand in a part have stored bytes.
    pub open spec fn parts_wf(self) -> bool {
        &&& forall|q: int, k: int|
            0 <= q < self.parts.len() && 0 <= k < self.parts[q].len() ==> {
                &&& (#[trigger] self.parts[q][k]) < self.entries.len()
                &&& self.entries[self.parts[q][k] as int].compressed_size > 0
            }
        &&& no_repeats(self.parts)
    }

    /// Every entry that stands in a part is assigned its slot there; the others have none.
    pub open spec fn assigned(self) -> bool {
        &&& self.assignments.len() == self.entries.len()
        &&& forall|q: int, k: int|
            0 <= q < self.parts.len() && 0 <= k < self.parts[q].len()
                ==> self.assignments[#[trigger] self.parts[q][k] as int] == slot(
                self.entries,
                self.parts,
                q,
                k,
            )
        &&& forall|i: int|
            0 <= i < self.entries.len() && unplaced(self.parts, i)
                ==> #[trigger] self.assignments[i] == (1u16, 0u64)
    }

    /// The plan can be carried out: its numbers fit their fields.
    pub open spec fn wf(self) -> bool {
        &&& self.header.len() == HEADER_SIZE
        &&& self.header.subrange(0, 8) == header::magic()
        &&& self.parts.len() > 1
        &&& self.parts_wf()
        &&& self.assigned()
        &&& is_boot_index(self.header, self.entries, self.boot)
        &&& forall|i: int| 0 <= i < self.entries.len() ==> (#[trigger] self.entries[i]).wf()
        &&& self.entries.len() * 50 < 0x0100_0000_0000_0000
        &&& self.xml.len() < 0x0100_0000_0000_0000
        &&& forall|q: int|
            0 <= q < self.parts.len() ==> HEADER_SIZE + self.entries.len() * 50 + self.xml.len()
                + total(self.entries, #[trigger] self.parts[q]) <= u64::MAX
    }
}

/// No index stands at two places of the parts.
pub open spec fn no_repeats(parts: Seq<Seq<usize>>) -> bool {
    forall|q: int, k: int, r: int, l: int|
        0 <= q < parts.len() && 0 <= k < parts[q].len() && 0 <= r < parts.len() && 0 <= l
            < parts[r].len() && #[trigger] parts[q][k] == #[trigger] parts[r][l] ==> q == r && k == l
}

/// `b` is the part `a` brought into file order.
pub open spec fn arranged(e: Seq<entry::EntryView>, a: Seq<usize>, b: Seq<usize>) -> bool {
    in_file_order(e, b) && sort::same_members(a, b) && a.len() == b.len()
}

/// `p` is the plan for a WIM file with this header, lookup table and XML data.
pub open spec fn is_plan(
    h: Seq<u8>,
    lt: Seq<u8>,
    xml: Seq<u8>,
    max: u64,
    p: PlanView,
) -> bool {
    let e = table_entries(lt);
    let pk = packing(lt, xml.len(), max);
    &&& p.header == h
    &&& p.entries == e
    &&& p.xml == xml
    &&& p.parts.len() == pk.len()
    &&& forall|q: int| 0 <= q < pk.len() ==> arranged(e, pk[q], #[trigger] p.parts[q])
    &&& p.assigned()
    &&& is_boot_index(h, e, p.boot)
}

/// The sums made while the entries of `order` are put into parts fit in 64 bits.
pub open spec fn adds_up(
    e: Seq<entry::EntryView>,
    meta: Seq<usize>,
    order: Seq<usize>,
    overhead: int,
    max: int,
) -> bool
    decreases order.len(),
{
    if order.len() == 0 {
        total(e, meta) <= u64::MAX && overhead <= u64::MAX
    } else {
        let p = packed(e, meta, order.drop_last(), overhead, max);
        &&& adds_up(e, meta, order.drop_last(), overhead, max)
        &&& total(e, p.last()) + e[order.last() as int].compressed_size + overhead <= u64::MAX
    }
}

/// The sums made while a WIM file is divided into parts fit in 64 bits.
pub open spec fn sizes_fit(lt: Seq<u8>, xml_len: nat, max: u64) -> bool {
    let e = table_entries(lt);
    adds_up(
        e,
        selection(e, true, e.len()),
        data_order(e),
        overhead(lt.len(), xml_len),
        limit(max),
    )
}

// ---------------------------------------------------------------------------
// File order
// ---------------------------------------------------------------------------
/// The file order of entries.
struct ViewsByOffset {
    e: Seq<entry::EntryView>,
}

impl Order for ViewsByOffset {
    closed spec fn count(&self) -> nat {
        self.e.len()
    }

    closed spec fn before(&self, i: int, j: int) -> bool {
        comes_before(self.e, i, j)
    }

    proof fn total(&self, i: int, j: int) {
    }

    proof fn transitive(&self, i: int, j: int, k: int) {
    }
}

/// The file order of the entries of a table.
struct ByOffset<'a> {
    entries: &'a Vec<LookupEntry>,
}

impl<'a> Order for ByOffset<'a> {
    closed spec fn count(&self) -> nat {
        self.entries@.len()
    }

    closed spec fn before(&self, i: int, j: int) -> bool {
        comes_before(entry_views(self.entries@), i, j)
    }

    proof fn total(&self, i: int, j: int) {
    }

    proof fn transitive(&self, i: int, j: int, k: int) {
    }
}

impl<'a> Ranking for ByOffset<'a> {
    fn is_before(&self, i: usize, j: usize) -> (r: bool) {
        let a = &self.entries[i];
        let b = &self.entries[j];
        let ma = a.is_metadata();
        let mb = b.is_metadata();
        a.source_offset < b.source_offset || a.source_offset == b.source_offset && (ma && !mb || ma
            == mb && i < j)
    }
}

// ---------------------------------------------------------------------------
// Sums
// ---------------------------------------------------------------------------
spec fn sum_if(e: Seq<entry::EntryView>, s: Seq<usize>, n: nat) -> nat
    decreases n,
{
    if n == 0 {
        0
    } else {
        sum_if(e, s, (n - 1) as nat) + if s.contains((n - 1) as usize) {
            e[n - 1].compressed_size as nat
        } else {
            0
        }
    }
}

proof fn lemma_sum_if_push(e: Seq<entry::EntryView>, s: Seq<usize>, x: usize, n: nat)
    requires
        !s.contains(x),
        n <= usize::MAX,
    ensures
        sum_if(e, s.push(x), n) == sum_if(e, s, n) + if x < n {
            e[x as int].compressed_size as nat
        } else {
            0
        },
    decreases n,
{
    if n > 0 {
        lemma_sum_if_push(e, s, x, (n - 1) as nat);
        let y = (n - 1) as usize;
        assert(s.push(x).contains(y) <==> s.contains(y) || x == y) by {
            if s.contains(y) {
                let k = choose|k: int| 0 <= k < s.len() && s[k] == y;
                assert(s.push(x)[k] == y);
            }
            if x == y {
                assert(s.push(x)[s.len() as int] == y);
            }
            if s.push(x).contains(y) {
                let k = choose|k: int| 0 <= k < s.push(x).len() && s.push(x)[k] == y;
                if k < s.len() {
                    assert(s[k] == y);
                }
            }
        }
    }
}

proof fn lemma_sum_if_empty(e: Seq<entry::EntryView>, n: nat)
    ensures
        sum_if(e, Seq::<usize>::empty(), n) == 0,
    decreases n,
{
    if n > 0 {
        lemma_sum_if_empty(e, (n - 1) as nat);
    }
}

proof fn lemma_total_is_sum_if(e: Seq<entry::EntryView>, s: Seq<usize>)
    requires
        sort::distinct(s),
        forall|k: int| 0 <= k < s.len() ==> #[trigger] s[k] < e.len(),
        e.len() <= usize::MAX,
    ensures
        total(e, s) == sum_if(e, s, e.len()),
    decreases s.len(),
{
    if s.len() == 0 {
        assert(s =~= Seq::<usize>::empty());
        lemma_sum_if_empty(e, e.len());
    } else {
        let t = s.drop_last();
        assert forall|k: int, l: int| 0 <= k < l < t.len() implies #[trigger] t[k]
            != #[trigger] t[l] by {
            assert(s[k] != s[l]);
        }
        lemma_total_is_sum_if(e, t);
        if t.contains(s.last()) {
            let k = choose|k: int| 0 <= k < t.len() && t[k] == s.last();
            assert(s[k] != s[s.len() - 1]);
        }
        lemma_sum_if_push(e, t, s.last(), e.len());
        assert(t.push(s.last()) =~= s);
    }
}

/// Lists with the same members have the same total.
pub proof fn lemma_total_same_members(e: Seq<entry::EntryView>, a: Seq<usize>, b: Seq<usize>)
    requires
        sort::distinct(a),
        sort::distinct(b),
        sort::same_members(a, b),
        forall|k: int| 0 <= k < a.len() ==> #[trigger] a[k] < e.len(),
        forall|k: int| 0 <= k < b.len() ==> #[trigger] b[k] < e.len(),
        e.len() <= usize::MAX,
    ensures
        total(e, a) == total(e, b),
{
    lemma_total_is_sum_if(e, a);
    lemma_total_is_sum_if(e, b);
    lemma_sum_if_same(e, a, b, e.len());
}

proof fn lemma_sum_if_same(e: Seq<entry::EntryView>, a: Seq<usize>, b: Seq<usize>, n: nat)
    requires
        sort::same_members(a, b),
    ensures
        sum_if(e, a, n) == sum_if(e, b, n),
    decreases n,
{
    if n > 0 {
        lemma_sum_if_same(e, a, b, (n - 1) as nat);
        assert(a.contains((n - 1) as usize) <==> b.contains((n - 1) as usize));
    }
}

/// The total of a list is at least that of a beginning of it.
pub proof fn lemma_total_take(e: Seq<entry::EntryView>, s: Seq<usize>, k: int)
    requires
        0 <= k <= s.len(),
    ensures
        total(e, s.take(k)) <= total(e, s),
        k < s.len() ==> total(e, s.take(k + 1)) == total(e, s.take(k))
            + e[s[k] as int].compressed_size,
    decreases s.len() - k,
{
    if k == s.len() {
        assert(s.take(k) =~= s);
    } else {
        lemma_total_take(e, s, k + 1);
        assert(s.take(k + 1).drop_last() =~= s.take(k));
    }
}

/// The total of two lists, one after the other.
pub proof fn lemma_total_concat(e: Seq<entry::EntryView>, a: Seq<usize>, b: Seq<usize>)
    ensures
        total(e, a + b) == total(e, a) + total(e, b),
    decreases b.len(),
{
    if b.len() == 0 {
        assert(a + b =~= a);
    } else {
        assert((a + b).drop_last() =~= a + b.drop_last());
        lemma_total_concat(e, a, b.drop_last());
    }
}

// ---------------------------------------------------------------------------
// The selections and the packing
// ---------------------------------------------------------------------------
pub proof fn lemma_selection(e: Seq<entry::EntryView>, meta: bool, n: nat)
    requires
        n <= e.len(),
        n <= usize::MAX,
    ensures
        selection(e, meta, n).len() <= n,
        forall|k: int|
            0 <= k < selection(e, meta, n).len() ==> (#[trigger] selection(e, meta, n)[k]) < n,
        forall|k: int, l: int|
            0 <= k < l < selection(e, meta, n).len() ==> (#[trigger] selection(e, meta, n)[k])
                < (#[trigger] selection(e, meta, n)[l]),
        forall|i: usize|
            i < n ==> (#[trigger] selection(e, meta, n).contains(i) <==> stored(e, i as int, meta)),
    decreases n,
{
    if n > 0 {
        lemma_selection(e, meta, (n - 1) as nat);
        let prev = selection(e, meta, (n - 1) as nat);
        let s = selection(e, meta, n);
        let x = (n - 1) as usize;
        assert forall|i: usize| i < n implies (#[trigger] s.contains(i) <==> stored(
            e,
            i as int,
            meta,
        )) by {
            if stored(e, n - 1, meta) {
                if prev.contains(i) {
                    let k = choose|k: int| 0 <= k < prev.len() && prev[k] == i;
                    assert(s[k] == i);
                }
                if i == x {
                    assert(s[prev.len() as int] == i);
                }
                if s.contains(i) && i != x {
                    let k = choose|k: int| 0 <= k < s.len() && s[k] == i;
                    assert(prev[k] == i);
                }
            } else if i == x {
                if prev.contains(i) {
                    let k = choose|k: int| 0 <= k < prev.len() && prev[k] == i;
                    assert(prev[k] < n - 1);
                }
            }
        }
    }
}

/// Each member of the packing stands at one place, and comes from the metadata or the order.
proof fn lemma_packed(
    e: Seq<entry::EntryView>,
    meta: Seq<usize>,
    order: Seq<usize>,
    oh: int,
    max: int,
)
    requires
        sort::distinct(meta),
        sort::distinct(order),
        forall|x: usize| meta.contains(x) ==> !order.contains(x),
    ensures
        packed(e, meta, order, oh, max).len() >= 1,
        packed(e, meta, order, oh, max).len() <= order.len() + 1,
        no_repeats(packed(e, meta, order, oh, max)),
        forall|q: int, k: int|
            0 <= q < packed(e, meta, order, oh, max).len() && 0 <= k < packed(
                e,
                meta,
                order,
                oh,
                max,
            )[q].len() ==> meta.contains(#[trigger] packed(e, meta, order, oh, max)[q][k])
                || order.contains(packed(e, meta, order, oh, max)[q][k]),
        forall|x: usize|
            meta.contains(x) || order.contains(x) ==> held_somewhere(
                packed(e, meta, order, oh, max),
                x,
            ),
    decreases order.len(),
{
    let p = packed(e, meta, order, oh, max);
    if order.len() == 0 {
        assert(p =~= seq![meta]);
        assert forall|q: int, k: int, r: int, l: int|
            0 <= q < p.len() && 0 <= k < p[q].len() && 0 <= r < p.len() && 0 <= l < p[r].len()
                && #[trigger] p[q][k] == #[trigger] p[r][l] implies q == r && k == l by {
            assert(meta[k] == meta[l]);
        }
        assert forall|x: usize| meta.contains(x) || order.contains(x) implies held_somewhere(
            p,
            x,
        ) by {
            let k = choose|k: int| 0 <= k < meta.len() && meta[k] == x;
            assert(p[0][k] == x);
        }
        assert forall|q: int, k: int| 0 <= q < p.len() && 0 <= k < p[q].len() implies meta.contains(
            #[trigger] p[q][k],
        ) || order.contains(p[q][k]) by {
            assert(meta[k] == p[q][k]);
        }
    } else {
        let t = order.drop_last();
        let x = order.last();
        assert forall|k: int, l: int| 0 <= k < l < t.len() implies #[trigger] t[k]
            != #[trigger] t[l] by {
            assert(order[k] != order[l]);
        }
        assert forall|y: usize| t.contains(y) implies order.contains(y) && y != x by {
            let k = choose|k: int| 0 <= k < t.len() && t[k] == y;
            assert(order[k] == y);
            assert(order[k] != order[order.len() - 1]);
        }
        lemma_packed(e, meta, t, oh, max);
        let o = packed(e, meta, t, oh, max);
        assert(order.contains(x));
        let grown = total(e, o.last()) + e[x as int].compressed_size + oh > max && total(
            e,
            o.last(),
        ) > 0;
        let last = o.len() - 1;
        assert forall|q: int, k: int| 0 <= q < o.len() && 0 <= k < o[q].len() implies p[q][k]
            == #[trigger] o[q][k] && p[q].len() > k && o[q][k] != x by {}
        assert forall|q: int, k: int| 0 <= q < p.len() && 0 <= k < p[q].len() implies (q < o.len()
            && k < o[q].len() && #[trigger] p[q][k] == o[q][k]) || (p[q][k] == x && (if grown {
            q == o.len() && k == 0
        } else {
            q == last && k == o[last].len()
        })) by {}
        assert forall|q: int, k: int| 0 <= q < p.len() && 0 <= k < p[q].len() implies meta.contains(
            #[trigger] p[q][k],
        ) || order.contains(p[q][k]) by {
            if q < o.len() && k < o[q].len() {
                assert(meta.contains(o[q][k]) || t.contains(o[q][k]));
            }
        }
        assert forall|q: int, k: int, r: int, l: int|
            0 <= q < p.len() && 0 <= k < p[q].len() && 0 <= r < p.len() && 0 <= l < p[r].len()
                && #[trigger] p[q][k] == #[trigger] p[r][l] implies q == r && k == l by {
            let inq = q < o.len() && k < o[q].len();
            let inr = r < o.len() && l < o[r].len();
            if inq && inr {
                assert(o[q][k] == o[r][l]);
            }
            if inq && !inr {
                assert(o[q][k] != x);
            }
            if !inq && inr {
                assert(o[r][l] != x);
            }
        }
        assert forall|y: usize| meta.contains(y) || order.contains(y) implies held_somewhere(
            p,
            y,
        ) by {
            if y == x {
                if grown {
                    assert(p[o.len() as int][0] == x);
                } else {
                    assert(p[last][o[last].len() as int] == x);
                }
            } else {
                if order.contains(y) {
                    let k = choose|k: int| 0 <= k < order.len() && order[k] == y;
                    assert(t[k] == y);
                }
                assert(held_somewhere(o, y));
                let (q, k) = choose|q: int, k: int|
                    0 <= q < o.len() && 0 <= k < o[q].len() && #[trigger] o[q][k] == y;
                assert(p[q][k] == y);
            }
        }
    }
}

/// The sums made for a beginning of the order fit where those for the whole order do.
proof fn lemma_adds_up_prefix(
    e: Seq<entry::EntryView>,
    meta: Seq<usize>,
    order: Seq<usize>,
    oh: int,
    max: int,
    k: int,
)
    requires
        0 <= k <= order.len(),
        adds_up(e, meta, order, oh, max),
    ensures
        adds_up(e, meta, order.take(k), oh, max),
    decreases order.len(),
{
    if k == order.len() {
        assert(order.take(k) =~= order);
    } else {
        lemma_adds_up_prefix(e, meta, order.drop_last(), oh, max, k);
        assert(order.drop_last().take(k) =~= order.take(k));
    }
}

/// Where the sums fit, each part with everything that it takes beside its resources does,
/// as soon as there is data.
proof fn lemma_parts_fit(
    e: Seq<entry::EntryView>,
    meta: Seq<usize>,
    order: Seq<usize>,
    oh: int,
    max: int,
)
    requires
        adds_up(e, meta, order, oh, max),
        order.len() > 0,
        oh >= 0,
    ensures
        forall|q: int|
            0 <= q < packed(e, meta, order, oh, max).len() ==> total(
                e,
                #[trigger] packed(e, meta, order, oh, max)[q],
            ) + oh <= u64::MAX,
    decreases order.len(),
{
    let t = order.drop_last();
    let o = packed(e, meta, t, oh, max);
    let p = packed(e, meta, order, oh, max);
    let x = order.last();
    if t.len() > 0 {
        lemma_parts_fit(e, meta, t, oh, max);
    } else {
        assert(o =~= seq![meta]);
    }
    lemma_packed_nonempty(e, meta, t, oh, max);
    assert(seq![x].drop_last() =~= Seq::<usize>::empty());
    assert(total(e, Seq::<usize>::empty()) == 0);
    assert(total(e, seq![x]) == e[x as int].compressed_size);
    assert(o.last().push(x).drop_last() =~= o.last());
    assert forall|q: int| 0 <= q < p.len() implies total(e, #[trigger] p[q]) + oh <= u64::MAX by {
        if q < o.len() - 1 {
            assert(p[q] == o[q]);
        } else if q < o.len() {
            assert(o[q] == o.last());
        }
    }
}

proof fn lemma_packed_nonempty(
    e: Seq<entry::EntryView>,
    meta: Seq<usize>,
    order: Seq<usize>,
    oh: int,
    max: int,
)
    ensures
        packed(e, meta, order, oh, max).len() >= 1,
        packed(e, meta, order, oh, max).len() > 1 ==> order.len() > 0,
    decreases order.len(),
{
    if order.len() > 0 {
        lemma_packed_nonempty(e, meta, order.drop_last(), oh, max);
    }
}

/// `x` stands in one of the parts.
pub open spec fn held_somewhere(parts: Seq<Seq<usize>>, x: usize) -> bool {
    exists|q: int, k: int| 0 <= q < parts.len() && 0 <= k < parts[q].len() && #[trigger] parts[q][k] == x
}

/// The list of stored entries that are no metadata, in file order, is the only one.
pub proof fn lemma_data_order(e: Seq<entry::EntryView>, o: Seq<usize>)
    requires
        is_data_order(e, o),
        e.len() <= usize::MAX,
    ensures
        data_order(e) == o,
{
    let d = data_order(e);
    assert(is_data_order(e, d));
    lemma_file_order_unique(e, o, d);
}

/// A list can be brought into file order in one way only.
pub proof fn lemma_file_order_unique(e: Seq<entry::EntryView>, a: Seq<usize>, b: Seq<usize>)
    requires
        in_file_order(e, a),
        in_file_order(e, b),
        forall|i: usize| i < e.len() ==> (#[trigger] a.contains(i) <==> b.contains(i)),
        e.len() <= usize::MAX,
    ensures
        a == b,
{
    let r = ViewsByOffset { e };
    assert forall|x: usize| #[trigger] a.contains(x) <==> b.contains(x) by {
        if a.contains(x) {
            let k = choose|k: int| 0 <= k < a.len() && a[k] == x;
            assert(a[k] < e.len());
        }
        if b.contains(x) {
            let k = choose|k: int| 0 <= k < b.len() && b[k] == x;
            assert(b[k] < e.len());
        }
    }
    sort::lemma_arrangement_unique(&r, a, b);
}

// ---------------------------------------------------------------------------
// Planning
// ---------------------------------------------------------------------------
/// The index lists of the parts.
pub open spec fn lists(v: Seq<Vec<usize>>) -> Seq<Seq<usize>> {
    v.map_values(|x: Vec<usize>| x@)
}

/// A plan for splitting a WIM file.
#[derive(Debug)]
pub struct SplitPlan {
    header: WimHeader,
    entries: Vec<LookupEntry>,
    xml_data: Vec<u8>,
    parts: Vec<Vec<usize>>,
    assignments: Vec<(u16, u64)>,
    boot_metadata_idx: Option<usize>,
}

impl View for SplitPlan {
    type V = PlanView;

    closed spec fn view(&self) -> PlanView {
        PlanView {
            header: self.header@,
            entries: entry_views(self.entries@),
            xml: self.xml_data@,
            parts: lists(self.parts@),
            assignments: self.assignments@,
            boot: self.boot_metadata_idx,
        }
    }
}

/// Reads the entries of a lookup table.
fn read_entries(lt: &[u8]) -> (r: Vec<LookupEntry>)
    ensures
        entry_views(r@) == table_entries(lt@),
        r@.len() == lt@.len() / 50,
        forall|i: int| 0 <= i < r@.len() ==> (#[trigger] r@[i])@.wf(),
{
    let n: usize = lt.len() / LOOKUP_ENTRY_SIZE;
    let len: usize = lt.len();
    let mut r: Vec<LookupEntry> = Vec::new();
    let mut i: usize = 0;
    while i < n
        invariant
            i <= n,
            n == lt@.len() / 50,
            len == lt@.len(),
            r@.len() == i,
            forall|k: int| 0 <= k < i ==> (#[trigger] r@[k])@ == entry::entry_at(lt@, 50 * k),
            forall|k: int| 0 <= k < i ==> (#[trigger] r@[k])@.wf(),
        decreases n - i,
    {
        assert(50 * i + 50 <= len);
        let from: usize = i * LOOKUP_ENTRY_SIZE;
        let one: &[u8] = &lt[from..from + LOOKUP_ENTRY_SIZE];
        proof {
            assert(one@.subrange(30, 50) =~= lt@.subrange(from + 30, from + 50));
            assert(entry::entry_at(one@, 0) == entry::entry_at(lt@, 50 * i));
        }
        r.push(LookupEntry::parse(one));
        i += 1;
    }
    assert(entry_views(r@) =~= table_entries(lt@));
    r
}

/// The stored entries, metadata or not as asked, in the order of the table.
fn select(entries: &Vec<LookupEntry>, meta: bool) -> (r: Vec<usize>)
    ensures
        r@ == selection(entry_views(entries@), meta, entries@.len()),
{
    let n: usize = entries.len();
    let mut r: Vec<usize> = Vec::new();
    let mut i: usize = 0;
    let ghost e = entry_views(entries@);
    while i < n
        invariant
            i <= n,
            n == entries@.len(),
            e == entry_views(entries@),
            r@ == selection(e, meta, i as nat),
        decreases n - i,
    {
        assert(e[i as int] == entries@[i as int]@);
        if entries[i].is_metadata() == meta && entries[i].compressed_size > 0 {
            r.push(i);
        }
        i += 1;
    }
    r
}

/// The stored bytes of the listed entries, where they can be counted in 64 bits.
fn total_of(entries: &Vec<LookupEntry>, s: &Vec<usize>) -> (r: Option<u64>)
    requires
        forall|k: int| 0 <= k < s@.len() ==> #[trigger] s@[k] < entries@.len(),
    ensures
        match r {
            Some(n) => n == total(entry_views(entries@), s@),
            None => total(entry_views(entries@), s@) > u64::MAX,
        },
{
    let n: usize = s.len();
    let mut sum: u64 = 0;
    let mut k: usize = 0;
    let ghost e = entry_views(entries@);
    while k < n
        invariant
            k <= n,
            n == s@.len(),
            e == entry_views(entries@),
            forall|k: int| 0 <= k < s@.len() ==> #[trigger] s@[k] < entries@.len(),
            sum == total(e, s@.take(k as int)),
        decreases n - k,
    {
        proof {
            lemma_total_take(e, s@, k as int);
            lemma_total_take(e, s@, k + 1);
            assert(e[s@[k as int] as int] == entries@[s@[k as int] as int]@);
        }
        match sum.checked_add(entries[s[k]].compressed_size) {
            Some(more) => {
                sum = more;
            },
            None => {
                return None;
            },
        }
        k += 1;
    }
    assert(s@.take(n as int) =~= s@);
    Some(sum)
}

/// Puts the entries of `order` into parts, where the sums can be made in 64 bits.
fn pack(
    entries: &Vec<LookupEntry>,
    meta: Vec<usize>,
    order: &Vec<usize>,
    extra: u64,
    max: u64,
) -> (r: Option<Vec<Vec<usize>>>)
    requires
        forall|k: int| 0 <= k < meta@.len() ==> #[trigger] meta@[k] < entries@.len(),
        forall|k: int| 0 <= k < order@.len() ==> #[trigger] order@[k] < entries@.len(),
    ensures
        r is Some <==> adds_up(
            entry_views(entries@),
            meta@,
            order@,
            extra as int,
            max as int,
        ),
        r matches Some(parts) ==> lists(parts@) == packed(
            entry_views(entries@),
            meta@,
            order@,
            extra as int,
            max as int,
        ),
{
    let ghost e = entry_views(entries@);
    let ghost first = meta@;
    let ghost oh = extra as int;
    let ghost top = max as int;
    let n: usize = order.len();
    assert(order@.take(0) =~= Seq::empty());
    let mut held: u64 = match total_of(entries, &meta) {
        Some(h) => h,
        None => {
            proof {
                if adds_up(e, first, order@, oh, top) {
                    lemma_adds_up_prefix(e, first, order@, oh, top, 0);
                }
            }
            return None;
        },
    };
    let mut done: Vec<Vec<usize>> = Vec::new();
    let mut current: Vec<usize> = meta;
    let mut i: usize = 0;
    assert(lists(done@).push(current@) =~= seq![first]);
    while i < n
        invariant
            i <= n,
            n == order@.len(),
            e == entry_views(entries@),
            first == meta@,
            oh == extra,
            top == max,
            forall|k: int| 0 <= k < order@.len() ==> #[trigger] order@[k] < entries@.len(),
            held == total(e, current@),
            adds_up(e, first, order@.take(i as int), oh, top),
            lists(done@).push(current@) == packed(e, first, order@.take(i as int), oh, top),
        decreases n - i,
    {
        let idx: usize = order[i];
        let size: u64 = entries[idx].compressed_size;
        let ghost so_far = order@.take(i as int);
        let ghost next = order@.take(i + 1);
        let ghost p = packed(e, first, so_far, oh, top);
        let ghost p2 = packed(e, first, next, oh, top);
        proof {
            assert(e[idx as int] == entries@[idx as int]@);
            assert(next.drop_last() =~= so_far);
            assert(next.last() == idx);
            assert(p.last() == current@);
            if adds_up(e, first, order@, oh, top) {
                lemma_adds_up_prefix(e, first, order@, oh, top, i + 1);
            }
        }
        let grown: u64 = match held.checked_add(size) {
            Some(g) => g,
            None => {
                return None;
            },
        };
        let whole: u64 = match grown.checked_add(extra) {
            Some(w) => w,
            None => {
                return None;
            },
        };
        let ghost before = lists(done@);
        let ghost cur = current@;
        if whole > max && held > 0 {
            done.push(current);
            current = Vec::new();
            current.push(idx);
            held = size;
            proof {
                assert(lists(done@) =~= before.push(cur));
                assert(current@ =~= seq![idx]);
                assert(current@.drop_last() =~= Seq::<usize>::empty());
                assert(total(e, Seq::<usize>::empty()) == 0);
                assert(total(e, current@) == size);
                assert(lists(done@).push(current@) =~= p2);
            }
        } else {
            current.push(idx);
            held = grown;
            proof {
                assert(current@.drop_last() =~= cur);
                assert(p =~= before.push(cur));
                assert(lists(done@).push(current@) =~= p2);
            }
        }
        i += 1;
    }
    let ghost before = lists(done@);
    let ghost cur = current@;
    done.push(current);
    assert(lists(done@) =~= before.push(cur));
    assert(order@.take(n as int) =~= order@);
    Some(done)
}

/// Brings each part into file order.
fn arrange_parts(entries: &Vec<LookupEntry>, packed_parts: &Vec<Vec<usize>>) -> (r: Vec<Vec<usize>>)
    requires
        no_repeats(lists(packed_parts@)),
        forall|q: int, k: int|
            0 <= q < packed_parts@.len() && 0 <= k < packed_parts@[q]@.len()
                ==> #[trigger] packed_parts@[q]@[k] < entries@.len(),
    ensures
        r@.len() == packed_parts@.len(),
        forall|q: int|
            0 <= q < r@.len() ==> arranged(
                entry_views(entries@),
                packed_parts@[q]@,
                #[trigger] r@[q]@,
            ),
{
    let n: usize = packed_parts.len();
    let mut r: Vec<Vec<usize>> = Vec::new();
    let mut q: usize = 0;
    let ranking = ByOffset { entries };
    let ghost e = entry_views(entries@);
    while q < n
        invariant
            q <= n,
            n == packed_parts@.len(),
            e == entry_views(entries@),
            ranking.entries == entries,
            no_repeats(lists(packed_parts@)),
            forall|q: int, k: int|
                0 <= q < packed_parts@.len() && 0 <= k < packed_parts@[q]@.len()
                    ==> #[trigger] packed_parts@[q]@[k] < entries@.len(),
            r@.len() == q,
            forall|p: int| 0 <= p < q ==> arranged(e, packed_parts@[p]@, #[trigger] r@[p]@),
        decreases n - q,
    {
        let part = &packed_parts[q];
        proof {
            let all = lists(packed_parts@);
            assert forall|k: int, l: int| 0 <= k < l < part@.len() implies #[trigger] part@[k]
                != #[trigger] part@[l] by {
                assert(all[q as int][k] == part@[k]);
                assert(all[q as int][l] == part@[l]);
            }
        }
        let sorted = sort::sort_indices(&ranking, part);
        proof {
            assert forall|k: int| 0 <= k < sorted@.len() implies #[trigger] sorted@[k]
                < e.len() by {
                assert(sorted@[k] < ranking.count());
            }
            assert forall|k: int, l: int| 0 <= k < l < sorted@.len() implies comes_before(
                e,
                #[trigger] sorted@[k] as int,
                #[trigger] sorted@[l] as int,
            ) by {
                assert(ranking.before(sorted@[k] as int, sorted@[l] as int));
            }
        }
        r.push(sorted);
        q += 1;
    }
    r
}

/// No index stands at two places where each part only changed its order.
proof fn lemma_arranged_no_repeats(
    e: Seq<entry::EntryView>,
    a: Seq<Seq<usize>>,
    b: Seq<Seq<usize>>,
)
    requires
        a.len() == b.len(),
        no_repeats(a),
        forall|q: int| 0 <= q < b.len() ==> arranged(e, a[q], #[trigger] b[q]),
    ensures
        no_repeats(b),
        forall|x: usize| held_somewhere(a, x) <==> held_somewhere(b, x),
{
    assert forall|q: int, k: int, r: int, l: int|
        0 <= q < b.len() && 0 <= k < b[q].len() && 0 <= r < b.len() && 0 <= l < b[r].len()
            && #[trigger] b[q][k] == #[trigger] b[r][l] implies q == r && k == l by {
        let x = b[q][k];
        assert(arranged(e, a[q], b[q]));
        assert(arranged(e, a[r], b[r]));
        assert(b[q].contains(x) && b[r].contains(x));
        assert(a[q].contains(x) && a[r].contains(x));
        let i = choose|i: int| 0 <= i < a[q].len() && a[q][i] == x;
        let j = choose|j: int| 0 <= j < a[r].len() && a[r][j] == x;
        assert(a[q][i] == a[r][j]);
        assert(q == r);
        if k < l {
            assert(comes_before(e, b[q][k] as int, b[q][l] as int));
        }
        if l < k {
            assert(comes_before(e, b[q][l] as int, b[q][k] as int));
        }
    }
    assert forall|x: usize| held_somewhere(a, x) <==> held_somewhere(b, x) by {
        if held_somewhere(a, x) {
            let (q, k) = choose|q: int, k: int|
                0 <= q < a.len() && 0 <= k < a[q].len() && #[trigger] a[q][k] == x;
            assert(arranged(e, a[q], b[q]));
            assert(a[q].contains(x));
            assert(b[q].contains(x));
            let l = choose|l: int| 0 <= l < b[q].len() && b[q][l] == x;
            assert(b[q][l] == x);
        }
        if held_somewhere(b, x) {
            let (q, k) = choose|q: int, k: int|
                0 <= q < b.len() && 0 <= k < b[q].len() && #[trigger] b[q][k] == x;
            assert(arranged(e, a[q], b[q]));
            assert(b[q].contains(x));
            assert(a[q].contains(x));
            let l = choose|l: int| 0 <= l < a[q].len() && a[q][l] == x;
            assert(a[q][l] == x);
        }
    }
}

/// The members of a part without repeats are distinct.
pub proof fn lemma_part_distinct(parts: Seq<Seq<usize>>, q: int)
    requires
        no_repeats(parts),
        0 <= q < parts.len(),
    ensures
        sort::distinct(parts[q]),
{
    assert forall|k: int, l: int| 0 <= k < l < parts[q].len() implies #[trigger] parts[q][k]
        != #[trigger] parts[q][l] by {}
}

/// A part can be brought into file order in one way only.
pub proof fn lemma_arranged_unique(
    e: Seq<entry::EntryView>,
    part: Seq<usize>,
    a: Seq<usize>,
    b: Seq<usize>,
)
    requires
        arranged(e, part, a),
        arranged(e, part, b),
    ensures
        a == b,
{
    let r = ViewsByOffset { e };
    assert(sort::same_members(a, b)) by {
        assert forall|x: usize| #[trigger] a.contains(x) <==> b.contains(x) by {
            assert(part.contains(x) <==> a.contains(x));
            assert(part.contains(x) <==> b.contains(x));
        }
    }
    sort::lemma_arrangement_unique(&r, a, b);
}

/// Finds the part and the offset of every entry.
fn assign(entries: &Vec<LookupEntry>, parts: &Vec<Vec<usize>>) -> (r: Vec<(u16, u64)>)
    requires
        no_repeats(lists(parts@)),
        forall|q: int, k: int|
            0 <= q < parts@.len() && 0 <= k < parts@[q]@.len() ==> #[trigger] parts@[q]@[k]
                < entries@.len(),
        forall|q: int|
            0 <= q < parts@.len() ==> HEADER_SIZE + total(
                entry_views(entries@),
                #[trigger] lists(parts@)[q],
            ) <= u64::MAX,
    ensures
        r@.len() == entries@.len(),
        forall|q: int, k: int|
            0 <= q < parts@.len() && 0 <= k < parts@[q]@.len()
                ==> r@[#[trigger] lists(parts@)[q][k] as int] == slot(
                entry_views(entries@),
                lists(parts@),
                q,
                k,
            ),
        forall|i: int|
            0 <= i < entries@.len() && unplaced(lists(parts@), i) ==> #[trigger] r@[i] == (
                1u16,
                0u64,
            ),
{
    let count: usize = entries.len();
    let n: usize = parts.len();
    let ghost e = entry_views(entries@);
    let ghost all = lists(parts@);
    let mut r: Vec<(u16, u64)> = Vec::new();
    let mut c: usize = 0;
    while c < count
        invariant
            c <= count,
            r@.len() == c,
            forall|i: int| 0 <= i < c ==> #[trigger] r@[i] == (1u16, 0u64),
        decreases count - c,
    {
        r.push((1u16, 0u64));
        c += 1;
    }
    let mut q: usize = 0;
    while q < n
        invariant
            q <= n,
            n == parts@.len(),
            count == entries@.len(),
            e == entry_views(entries@),
            all == lists(parts@),
            no_repeats(all),
            forall|q: int, k: int|
                0 <= q < parts@.len() && 0 <= k < parts@[q]@.len() ==> #[trigger] parts@[q]@[k]
                    < entries@.len(),
            forall|q: int|
                0 <= q < parts@.len() ==> HEADER_SIZE + total(e, #[trigger] all[q]) <= u64::MAX,
            r@.len() == count,
            forall|p: int, k: int|
                0 <= p < q && 0 <= k < all[p].len() ==> r@[#[trigger] all[p][k] as int] == slot(
                    e,
                    all,
                    p,
                    k,
                ),
            forall|i: int|
                0 <= i < count && unplaced(all, i) ==> #[trigger] r@[i] == (1u16, 0u64),
        decreases n - q,
    {
        let part = &parts[q];
        let m: usize = part.len();
        let number: u16 = ((q + 1) % 0x1_0000) as u16;
        let mut offset: u64 = HEADER_SIZE as u64;
        let mut k: usize = 0;
        assert(all[q as int] == part@);
        assert(part@.take(0) =~= Seq::empty());
        while k < m
            invariant
                k <= m,
                q < n,
                n == parts@.len(),
                m == part@.len(),
                part@ == all[q as int],
                count == entries@.len(),
                e == entry_views(entries@),
                all == lists(parts@),
                no_repeats(all),
                number == ((q + 1) % 0x1_0000) as u16,
                forall|q: int, k: int|
                    0 <= q < parts@.len() && 0 <= k < parts@[q]@.len()
                        ==> #[trigger] parts@[q]@[k] < entries@.len(),
                HEADER_SIZE + total(e, part@) <= u64::MAX,
                offset == HEADER_SIZE + total(e, part@.take(k as int)),
                r@.len() == count,
                forall|p: int, l: int|
                    0 <= p < q && 0 <= l < all[p].len() ==> r@[#[trigger] all[p][l] as int] == slot(
                        e,
                        all,
                        p,
                        l,
                    ),
                forall|l: int|
                    0 <= l < k ==> r@[#[trigger] all[q as int][l] as int] == slot(
                        e,
                        all,
                        q as int,
                        l,
                    ),
                forall|i: int|
                    0 <= i < count && unplaced(all, i) ==> #[trigger] r@[i] == (1u16, 0u64),
            decreases m - k,
        {
            let idx: usize = part[k];
            assert(parts@[q as int]@[k as int] == idx);
            assert(e[idx as int] == entries@[idx as int]@);
            proof {
                lemma_total_take(e, part@, k as int);
                lemma_total_take(e, part@, k + 1);
            }
            let ghost before = r@;
            r.set(idx, (number, offset));
            proof {
                assert(all[q as int][k as int] == idx);
                assert forall|p: int, l: int| 0 <= p < q && 0 <= l < all[p].len() implies r@[
                    #[trigger] all[p][l] as int] == slot(e, all, p, l) by {
                    assert(all[p][l] != all[q as int][k as int]);
                    assert(before[all[p][l] as int] == slot(e, all, p, l));
                }
                assert forall|l: int| 0 <= l < k + 1 implies r@[
                    #[trigger] all[q as int][l] as int] == slot(e, all, q as int, l) by {
                    if l < k {
                        assert(all[q as int][l] != all[q as int][k as int]);
                        assert(before[all[q as int][l] as int] == slot(e, all, q as int, l));
                    }
                }
                assert forall|i: int| 0 <= i < count && unplaced(all, i) implies #[trigger] r@[i]
                    == (1u16, 0u64) by {
                    assert(i != idx);
                    assert(before[i] == (1u16, 0u64));
                }
            }
            offset += entries[idx].compressed_size;
            k += 1;
        }
        proof {
            assert forall|p: int, k: int| 0 <= p < q + 1 && 0 <= k < all[p].len() implies r@[
                #[trigger] all[p][k] as int] == slot(e, all, p, k) by {
                if p == q {
                    assert(r@[all[q as int][k] as int] == slot(e, all, q as int, k));
                }
            }
        }
        q += 1;
    }
    r
}

/// Finds the entry that lies where the header puts the boot metadata.
fn find_boot_entry(header: &WimHeader, entries: &Vec<LookupEntry>) -> (r: Option<usize>)
    requires
        header.wf(),
    ensures
        is_boot_index(header@, entry_views(entries@), r),
{
    let offset = header.boot_metadata_offset();
    let size = header.boot_metadata_compressed_size();
    if size == 0 {
        return None;
    }
    let n: usize = entries.len();
    let ghost e = entry_views(entries@);
    let mut i: usize = 0;
    while i < n
        invariant
            i <= n,
            n == entries@.len(),
            e == entry_views(entries@),
            offset == bytes::u64_at(header@, 104),
            size == header::low56(bytes::u64_at(header@, 96)),
            size > 0,
            forall|k: int| 0 <= k < i ==> !is_boot_entry(header@, e, k),
        decreases n - i,
    {
        assert(e[i as int] == entries@[i as int]@);
        if entries[i].source_offset == offset && entries[i].compressed_size == size {
            return Some(i);
        }
        i += 1;
    }
    None
}

/// The entries of a lookup table, with the stored ones sorted out: metadata in the order of
/// the table, and data in file order.
fn sort_entries(lt_data: &[u8]) -> (r: (Vec<LookupEntry>, Vec<usize>, Vec<usize>))
    ensures
        entry_views(r.0@) == table_entries(lt_data@),
        forall|i: int| 0 <= i < r.0@.len() ==> (#[trigger] r.0@[i])@.wf(),
        r.1@ == selection(table_entries(lt_data@), true, table_entries(lt_data@).len()),
        r.2@ == data_order(table_entries(lt_data@)),
        is_data_order(table_entries(lt_data@), r.2@),
        r.0@.len() <= usize::MAX,
{
    let entries = read_entries(lt_data);
    let ghost e = table_entries(lt_data@);
    let count: usize = entries.len();
    let meta = select(&entries, true);
    let data = select(&entries, false);
    let ranking = ByOffset { entries: &entries };
    proof {
        lemma_selection(e, false, e.len());
        assert(sort::distinct(data@));
        assert forall|k: int| 0 <= k < data@.len() implies #[trigger] data@[k]
            < ranking.count() by {}
    }
    let order = sort::sort_indices(&ranking, &data);
    proof {
        assert forall|k: int| 0 <= k < order@.len() implies #[trigger] order@[k] < e.len() by {
            assert(order@[k] < ranking.count());
        }
        assert forall|k: int, l: int| 0 <= k < l < order@.len() implies comes_before(
            e,
            #[trigger] order@[k] as int,
            #[trigger] order@[l] as int,
        ) by {
            assert(ranking.before(order@[k] as int, order@[l] as int));
        }
        assert(is_data_order(e, order@)) by {
            assert forall|i: usize| i < e.len() implies (#[trigger] order@.contains(i) <==> stored(
                e,
                i as int,
                false,
            )) by {
                assert(data@.contains(i) <==> order@.contains(i));
            }
        }
        lemma_data_order(e, order@);
    }
    (entries, meta, order)
}

/// The facts about the metadata and the data order that the packing rests on.
proof fn lemma_sorted_out(e: Seq<entry::EntryView>, meta: Seq<usize>, order: Seq<usize>)
    requires
        meta == selection(e, true, e.len()),
        is_data_order(e, order),
        e.len() <= usize::MAX,
    ensures
        sort::distinct(meta),
        sort::distinct(order),
        forall|x: usize| meta.contains(x) ==> !order.contains(x),
        forall|k: int| 0 <= k < meta.len() ==> #[trigger] meta[k] < e.len(),
        forall|k: int| 0 <= k < order.len() ==> #[trigger] order[k] < e.len(),
        forall|x: usize|
            meta.contains(x) || order.contains(x) ==> x < e.len() && e[x as int].compressed_size
                > 0,
{
    lemma_selection(e, true, e.len());
    assert forall|x: usize| meta.contains(x) implies !order.contains(x) && x < e.len() && stored(
        e,
        x as int,
        true,
    ) by {
        let k = choose|k: int| 0 <= k < meta.len() && meta[k] == x;
        assert(meta[k] < e.len());
        assert(stored(e, x as int, true));
        if order.contains(x) {
            assert(stored(e, x as int, false));
        }
    }
    assert forall|x: usize| order.contains(x) implies x < e.len() && stored(
        e,
        x as int,
        false,
    ) by {
        let k = choose|k: int| 0 <= k < order.len() && order[k] == x;
        assert(order[k] < e.len());
    }
    assert forall|k: int, l: int| 0 <= k < l < order.len() implies #[trigger] order[k]
        != #[trigger] order[l] by {
        assert(comes_before(e, order[k] as int, order[l] as int));
    }
}

/// Whether the sums made while a WIM file is divided into parts fit in 64 bits.
pub fn check_sizes(lt_data: &[u8], xml_len: u64, max_part_size: u64) -> (r: bool)
    ensures
        r == sizes_fit(lt_data@, xml_len as nat, max_part_size),
{
    let max: u64 = part_limit(max_part_size);
    let (entries, meta, order) = sort_entries(lt_data);
    let ghost e = table_entries(lt_data@);
    let ghost first = meta@;
    let ghost oh = overhead(lt_data@.len(), xml_len as nat);
    proof {
        lemma_sorted_out(e, meta@, order@);
    }
    let count: u64 = lt_data.len() as u64;
    let parts = match count.checked_add(HEADER_SIZE as u64) {
        Some(base) => match base.checked_add(xml_len) {
            Some(extra) => pack(&entries, meta, &order, extra, max),
            None => None,
        },
        None => None,
    };
    proof {
        if adds_up(e, first, order@, oh, max as int) {
            lemma_adds_up_prefix(e, first, order@, oh, max as int, 0);
        }
    }
    parts.is_some()
}

/// The limit in force where `max_part_size` was asked for.
fn part_limit(max_part_size: u64) -> (r: u64)
    ensures
        r == limit(max_part_size),
{
    if max_part_size == 0 {
        DEFAULT_MAX_PART_SIZE
    } else {
        max_part_size
    }
}

/// The plan for a WIM file with this header, lookup table and XML data. Parts are kept
/// under `max_part_size`, or under the default size where that is zero.
pub fn plan_parts(
    header: WimHeader,
    lt_data: &[u8],
    xml_data: Vec<u8>,
    max_part_size: u64,
) -> (r: Result<SplitPlan>)
    requires
        header.wf(),
        header@.subrange(0, 8) == header::magic(),
        lt_data@.len() == header::low56(bytes::u64_at(header@, 48)),
        xml_data@.len() == header::low56(bytes::u64_at(header@, 72)),
        sizes_fit(lt_data@, xml_data@.len(), max_part_size),
    ensures
        match r {
            Ok(p) => {
                &&& packing(lt_data@, xml_data@.len(), max_part_size).len() > 1
                &&& is_plan(header@, lt_data@, xml_data@, max_part_size, p@)
                &&& p@.wf()
            },
            Err(e) => {
                &&& packing(lt_data@, xml_data@.len(), max_part_size).len() <= 1
                &&& e@ == error::ErrorView::Other(
                    "WIM does not need splitting (fits in one part)"@,
                )
            },
        },
{
    let max: u64 = part_limit(max_part_size);
    proof {
        header::lemma_low56(bytes::u64_at(header@, 48));
        header::lemma_low56(bytes::u64_at(header@, 72));
    }
    let (entries, meta, order) = sort_entries(lt_data);
    let ghost e = table_entries(lt_data@);
    let ghost meta_seq = meta@;
    let ghost oh = overhead(lt_data@.len(), xml_data@.len());
    proof {
        lemma_sorted_out(e, meta_seq, order@);
        lemma_packed(e, meta_seq, order@, oh, max as int);
        lemma_adds_up_prefix(e, meta_seq, order@, oh, max as int, 0);
    }
    let extra: u64 = HEADER_SIZE as u64 + lt_data.len() as u64 + xml_data.len() as u64;
    let packed_parts = pack(&entries, meta, &order, extra, max).unwrap();
    let ghost pk = packing(lt_data@, xml_data@.len(), max_part_size);
    assert(lists(packed_parts@) == pk);
    if packed_parts.len() <= 1 {
        return Err(error::other("WIM does not need splitting (fits in one part)"));
    }
    proof {
        lemma_packed_nonempty(e, meta_seq, order@, oh, max as int);
        lemma_parts_fit(e, meta_seq, order@, oh, max as int);
        assert forall|q: int, k: int|
            0 <= q < packed_parts@.len() && 0 <= k < packed_parts@[q]@.len() implies #[trigger]
        packed_parts@[q]@[k] < entries@.len() by {
            assert(pk[q][k] == packed_parts@[q]@[k]);
        }
    }
    let parts = arrange_parts(&entries, &packed_parts);
    let ghost all = lists(parts@);
    proof {
        assert forall|q: int| 0 <= q < all.len() implies arranged(e, pk[q], #[trigger] all[q]) by {
            assert(arranged(e, packed_parts@[q]@, parts@[q]@));
        }
        lemma_arranged_no_repeats(e, pk, all);
        assert forall|q: int, k: int|
            0 <= q < parts@.len() && 0 <= k < parts@[q]@.len() implies #[trigger] parts@[q]@[k]
            < entries@.len() by {
            assert(arranged(e, packed_parts@[q]@, parts@[q]@));
        }
        assert forall|q: int| 0 <= q < all.len() implies oh + total(e, #[trigger] all[q])
            <= u64::MAX by {
            assert(arranged(e, pk[q], all[q]));
            lemma_part_distinct(pk, q);
            lemma_part_distinct(all, q);
            assert forall|k: int| 0 <= k < pk[q].len() implies #[trigger] pk[q][k] < e.len() by {
                assert(packed_parts@[q]@[k] == pk[q][k]);
            }
            lemma_total_same_members(e, pk[q], all[q]);
            assert(total(e, pk[q]) + oh <= u64::MAX);
        }
    }
    let assignments = assign(&entries, &parts);
    let boot_metadata_idx = find_boot_entry(&header, &entries);
    let plan = SplitPlan { header, entries, xml_data, parts, assignments, boot_metadata_idx };
    proof {
        assert forall|q: int, k: int|
            0 <= q < plan@.parts.len() && 0 <= k < plan@.parts[q].len() implies (#[trigger]
        plan@.parts[q][k]) < plan@.entries.len()
            && plan@.entries[plan@.parts[q][k] as int].compressed_size > 0 by {
            let x = plan@.parts[q][k];
            assert(parts@[q]@[k] == x);
            assert(all[q][k] == x);
            assert(held_somewhere(all, x));
            assert(held_somewhere(pk, x));
            let (a, b) = choose|a: int, b: int|
                0 <= a < pk.len() && 0 <= b < pk[a].len() && #[trigger] pk[a][b] == x;
            assert(meta_seq.contains(pk[a][b]) || order@.contains(pk[a][b]));
        }
        assert forall|i: int| 0 <= i < plan@.entries.len() implies (#[trigger]
        plan@.entries[i]).wf() by {
            assert(plan@.entries[i] == plan.entries@[i]@);
        }
        assert(plan@.assigned());
    }
    Ok(plan)
}

// ---------------------------------------------------------------------------
// What a plan says
// ---------------------------------------------------------------------------
/// The stored bytes of all resources in the parts.
pub open spec fn grand_total(e: Seq<entry::EntryView>, parts: Seq<Seq<usize>>) -> nat
    decreases parts.len(),
{
    if parts.len() == 0 {
        0
    } else {
        grand_total(e, parts.drop_last()) + total(e, parts.last())
    }
}

/// The name of the file that holds a part.
pub open spec fn part_name(part_num: u16) -> Seq<char> {
    if part_num == 1 {
        "install.swm"@
    } else {
        "install"@ + text::decimal(part_num as nat) + ".swm"@
    }
}

pub proof fn lemma_grand_total_take(e: Seq<entry::EntryView>, parts: Seq<Seq<usize>>, k: int)
    requires
        0 <= k <= parts.len(),
    ensures
        grand_total(e, parts.take(k)) <= grand_total(e, parts),
        k < parts.len() ==> grand_total(e, parts.take(k + 1)) == grand_total(e, parts.take(k))
            + total(e, parts[k]),
    decreases parts.len() - k,
{
    if k == parts.len() {
        assert(parts.take(k) =~= parts);
    } else {
        lemma_grand_total_take(e, parts, k + 1);
        assert(parts.take(k + 1).drop_last() =~= parts.take(k));
    }
}

impl SplitPlan {
    /// The header of the source.
    pub fn header(&self) -> (r: &WimHeader)
        ensures
            r@ == self@.header,
    {
        &self.header
    }

    /// The entries of the source's lookup table.
    pub fn entries(&self) -> (r: &Vec<LookupEntry>)
        ensures
            entry_views(r@) == self@.entries,
    {
        &self.entries
    }

    /// The XML data of the source.
    pub fn xml_data(&self) -> (r: &Vec<u8>)
        ensures
            r@ == self@.xml,
    {
        &self.xml_data
    }

    /// For each part the entries that it holds, in file order.
    pub fn parts(&self) -> (r: &Vec<Vec<usize>>)
        ensures
            lists(r@) == self@.parts,
    {
        &self.parts
    }

    /// For each entry the number of its part and its offset there.
    pub fn assignments(&self) -> (r: &Vec<(u16, u64)>)
        ensures
            r@ == self@.assignments,
    {
        &self.assignments
    }

    /// The entry that holds the boot metadata.
    pub fn boot_metadata_idx(&self) -> (r: Option<usize>)
        ensures
            r == self@.boot,
    {
        self.boot_metadata_idx
    }

    /// The number of parts, as the headers of the parts give it.
    pub fn total_parts(&self) -> (r: u16)
        ensures
            r == self@.parts.len() % 0x1_0000,
    {
        (self.parts.len() % 0x1_0000) as u16
    }

    /// The name of the file that holds a part.
    pub fn part_filename(&self, part_num: u16) -> (r: String)
        ensures
            r@ == part_name(part_num),
    {
        if part_num == 1 {
            "install.swm".to_owned()
        } else {
            let n = text::decimal_text(part_num as u128);
            text::concat3("install", n.as_str(), ".swm")
        }
    }

    /// The stored bytes of all resources in the parts.
    pub fn total_resources_size(&self) -> (r: u64)
        requires
            self@.wf(),
            grand_total(self@.entries, self@.parts) <= u64::MAX,
        ensures
            r == grand_total(self@.entries, self@.parts),
    {
        self.checked_resources_size().unwrap()
    }

    /// The stored bytes of all resources in the parts, where they can be counted in 64 bits.
    pub fn checked_resources_size(&self) -> (r: Option<u64>)
        requires
            self@.wf(),
        ensures
            match r {
                Some(n) => n == grand_total(self@.entries, self@.parts),
                None => grand_total(self@.entries, self@.parts) > u64::MAX,
            },
    {
        let n: usize = self.parts.len();
        let ghost e = self@.entries;
        let ghost all = self@.parts;
        let mut sum: u64 = 0;
        let mut q: usize = 0;
        while q < n
            invariant
                q <= n,
                n == self.parts@.len(),
                self@.wf(),
                e == self@.entries,
                all == self@.parts,
                sum == grand_total(e, all.take(q as int)),
            decreases n - q,
        {
            proof {
                lemma_grand_total_take(e, all, q as int);
                lemma_grand_total_take(e, all, q + 1);
                assert(all[q as int] == self.parts@[q as int]@);
                assert forall|k: int| 0 <= k < self.parts@[q as int]@.len() implies #[trigger]
                self.parts@[q as int]@[k] < self.entries@.len() by {
                    assert(all[q as int][k] < e.len());
                }
            }
            let one: u64 = total_of(&self.entries, &self.parts[q]).unwrap();
            match sum.checked_add(one) {
                Some(more) => {
                    sum = more;
                },
                None => {
                    return None;
                },
            }
            q += 1;
        }
        assert(all.take(n as int) =~= all);
        Some(sum)
    }

    /// The stored bytes of the resources in a part.
    pub fn part_resources_size(&self, part_num: u16) -> (r: u64)
        requires
            self@.wf(),
            1 <= part_num <= self@.parts.len(),
        ensures
            r == total(self@.entries, self@.parts[part_num - 1]),
    {
        let q: usize = part_num as usize - 1;
        proof {
            assert(self@.parts[q as int] == self.parts@[q as int]@);
            assert forall|k: int| 0 <= k < self.parts@[q as int]@.len() implies #[trigger]
            self.parts@[q as int]@[k] < self.entries@.len() by {
                assert(self@.parts[q as int][k] < self@.entries.len());
            }
        }
        total_of(&self.entries, &self.parts[q]).unwrap()
    }
}

// ---------------------------------------------------------------------------
// Facts about plans
// ---------------------------------------------------------------------------
/// The stored bytes of all entries.
pub open spec fn sum_sizes(e: Seq<entry::EntryView>) -> nat
    decreases e.len(),
{
    if e.len() == 0 {
        0
    } else {
        sum_sizes(e.drop_last()) + e.last().compressed_size as nat
    }
}

/// The data order of a table exists and is in file order.
pub proof fn lemma_data_order_exists(e: Seq<entry::EntryView>)
    requires
        e.len() <= usize::MAX,
    ensures
        is_data_order(e, data_order(e)),
{
    let r = ViewsByOffset { e };
    let s = selection(e, false, e.len());
    lemma_selection(e, false, e.len());
    let o = sort::lemma_arrangement_exists(&r, s);
    assert(in_file_order(e, o)) by {
        assert forall|k: int| 0 <= k < o.len() implies #[trigger] o[k] < e.len() by {
            assert(o[k] < r.count());
        }
        assert forall|k: int, l: int| 0 <= k < l < o.len() implies comes_before(
            e,
            #[trigger] o[k] as int,
            #[trigger] o[l] as int,
        ) by {
            assert(r.before(o[k] as int, o[l] as int));
        }
    }
    assert forall|i: usize| i < e.len() implies (#[trigger] o.contains(i) <==> stored(
        e,
        i as int,
        false,
    )) by {
        assert(s.contains(i) <==> o.contains(i));
    }
    assert(is_data_order(e, o));
}

/// Each stored entry stands in a part of its plan.
pub proof fn lemma_plan_members(h: Seq<u8>, lt: Seq<u8>, xml: Seq<u8>, max: u64, p: PlanView)
    requires
        is_plan(h, lt, xml, max, p),
        p.entries.len() <= usize::MAX,
    ensures
        forall|i: usize|
            i < p.entries.len() && p.entries[i as int].compressed_size > 0
                ==> #[trigger] held_somewhere(p.parts, i),
{
    let e = p.entries;
    let pk = packing(lt, xml.len(), max);
    let meta = selection(e, true, e.len());
    let order = data_order(e);
    lemma_data_order_exists(e);
    lemma_sorted_out(e, meta, order);
    lemma_selection(e, true, e.len());
    lemma_packed(e, meta, order, overhead(lt.len(), xml.len()), limit(max));
    lemma_arranged_no_repeats(e, pk, p.parts);
    assert forall|i: usize| i < e.len() && e[i as int].compressed_size > 0 implies #[trigger]
    held_somewhere(p.parts, i) by {
        if e[i as int].is_metadata() {
            assert(meta.contains(i));
        } else {
            assert(order.contains(i));
        }
        assert(held_somewhere(pk, i));
    }
}

/// The first part of a packing begins with the metadata.
proof fn lemma_packed_first(
    e: Seq<entry::EntryView>,
    meta: Seq<usize>,
    order: Seq<usize>,
    oh: int,
    max: int,
)
    ensures
        packed(e, meta, order, oh, max).len() >= 1,
        packed(e, meta, order, oh, max)[0].len() >= meta.len(),
        packed(e, meta, order, oh, max)[0].take(meta.len() as int) == meta,
    decreases order.len(),
{
    if order.len() == 0 {
        assert(meta.take(meta.len() as int) =~= meta);
    } else {
        let t = order.drop_last();
        lemma_packed_first(e, meta, t, oh, max);
        let o = packed(e, meta, t, oh, max);
        let p = packed(e, meta, order, oh, max);
        if p.len() == o.len() && o.len() == 1 {
            assert(p[0] =~= o[0].push(order.last()));
            assert(p[0].take(meta.len() as int) =~= o[0].take(meta.len() as int));
        } else {
            assert(p[0] == o[0]);
        }
    }
}

/// The metadata entries stand in the first part of a plan.
pub proof fn lemma_plan_metadata(h: Seq<u8>, lt: Seq<u8>, xml: Seq<u8>, max: u64, p: PlanView)
    requires
        is_plan(h, lt, xml, max, p),
        p.entries.len() <= usize::MAX,
    ensures
        forall|i: usize|
            i < p.entries.len() && p.entries[i as int].is_metadata()
                && p.entries[i as int].compressed_size > 0 ==> #[trigger] p.parts[0].contains(i),
{
    let e = p.entries;
    let pk = packing(lt, xml.len(), max);
    let meta = selection(e, true, e.len());
    lemma_selection(e, true, e.len());
    lemma_packed_first(e, meta, data_order(e), overhead(lt.len(), xml.len()), limit(max));
    assert(arranged(e, pk[0], p.parts[0]));
    assert forall|i: usize|
        i < e.len() && e[i as int].is_metadata() && e[i as int].compressed_size > 0 implies #[trigger]
    p.parts[0].contains(i) by {
        assert(meta.contains(i));
        let k = choose|k: int| 0 <= k < meta.len() && meta[k] == i;
        assert(pk[0].take(meta.len() as int)[k] == i);
        assert(pk[0][k] == i);
        assert(pk[0].contains(i));
    }
}

/// A part of a packing is over the limit only where it is a single entry or the metadata.
proof fn lemma_packed_limits(
    e: Seq<entry::EntryView>,
    meta: Seq<usize>,
    order: Seq<usize>,
    oh: int,
    max: int,
)
    requires
        forall|k: int| 0 <= k < meta.len() ==> e[#[trigger] meta[k] as int].compressed_size > 0,
        forall|k: int| 0 <= k < order.len() ==> e[#[trigger] order[k] as int].compressed_size > 0,
    ensures
        packed(e, meta, order, oh, max).len() >= 1,
        forall|q: int|
            0 <= q < packed(e, meta, order, oh, max).len() && oh + total(
                e,
                #[trigger] packed(e, meta, order, oh, max)[q],
            ) > max ==> packed(e, meta, order, oh, max)[q].len() == 1 || q == 0 && packed(
                e,
                meta,
                order,
                oh,
                max,
            )[q] == meta,
        total(e, packed(e, meta, order, oh, max).last()) == 0 ==> packed(
            e,
            meta,
            order,
            oh,
            max,
        ).last().len() == 0,
    decreases order.len(),
{
    if order.len() == 0 {
        if meta.len() > 0 {
            assert(e[meta[meta.len() - 1] as int].compressed_size > 0);
        }
        assert(packed(e, meta, order, oh, max) =~= seq![meta]);
    } else {
        let t = order.drop_last();
        let x = order.last();
        assert forall|k: int| 0 <= k < t.len() implies e[
            #[trigger] t[k] as int].compressed_size > 0 by {
            assert(t[k] == order[k]);
        }
        lemma_packed_limits(e, meta, t, oh, max);
        let o = packed(e, meta, t, oh, max);
        let p = packed(e, meta, order, oh, max);
        assert(e[order[order.len() - 1] as int].compressed_size > 0);
        assert(o.last().push(x).drop_last() =~= o.last());
        assert(seq![x].drop_last() =~= Seq::<usize>::empty());
        assert(total(e, seq![x]) == total(e, Seq::<usize>::empty()) + e[x as int].compressed_size);
        assert forall|q: int| 0 <= q < p.len() && oh + total(e, #[trigger] p[q]) > max implies p[q].len()
            == 1 || q == 0 && p[q] == meta by {
            if q < o.len() - 1 {
                assert(p[q] == o[q]);
            } else if q == o.len() - 1 && p.len() > o.len() {
                assert(p[q] == o[q]);
            }
        }
    }
}

/// A part of a plan is over the limit only where it is a single entry or, being the first,
/// only metadata.
pub proof fn lemma_plan_limits(h: Seq<u8>, lt: Seq<u8>, xml: Seq<u8>, max: u64, p: PlanView)
    requires
        is_plan(h, lt, xml, max, p),
        p.wf(),
        p.entries.len() <= usize::MAX,
    ensures
        forall|q: int|
            0 <= q < p.parts.len() && overhead(lt.len(), xml.len()) + total(
                p.entries,
                #[trigger] p.parts[q],
            ) > limit(max) ==> p.parts[q].len() == 1 || q == 0 && forall|k: int|
                0 <= k < p.parts[q].len() ==> p.entries[#[trigger] p.parts[q][k] as int].is_metadata(),
{
    let e = p.entries;
    let pk = packing(lt, xml.len(), max);
    let meta = selection(e, true, e.len());
    let order = data_order(e);
    let oh = overhead(lt.len(), xml.len());
    lemma_data_order_exists(e);
    lemma_sorted_out(e, meta, order);
    lemma_selection(e, true, e.len());
    lemma_packed(e, meta, order, oh, limit(max));
    assert forall|k: int| 0 <= k < meta.len() implies e[
        #[trigger] meta[k] as int].compressed_size > 0 by {
        assert(meta.contains(meta[k]));
    }
    assert forall|k: int| 0 <= k < order.len() implies e[
        #[trigger] order[k] as int].compressed_size > 0 by {
        assert(order.contains(order[k]));
    }
    lemma_packed_limits(e, meta, order, oh, limit(max));
    assert forall|q: int|
        0 <= q < p.parts.len() && oh + total(e, #[trigger] p.parts[q]) > limit(max) implies p.parts[q].len()
        == 1 || q == 0 && forall|k: int|
        0 <= k < p.parts[q].len() ==> e[#[trigger] p.parts[q][k] as int].is_metadata() by {
        assert(arranged(e, pk[q], p.parts[q]));
        lemma_part_distinct(pk, q);
        lemma_part_distinct(p.parts, q);
        assert forall|k: int| 0 <= k < pk[q].len() implies #[trigger] pk[q][k] < e.len() by {
            assert(meta.contains(pk[q][k]) || order.contains(pk[q][k]));
        }
        lemma_total_same_members(e, pk[q], p.parts[q]);
        if p.parts[q].len() != 1 {
            assert(q == 0 && pk[q] == meta);
            assert forall|k: int| 0 <= k < p.parts[q].len() implies e[
                #[trigger] p.parts[q][k] as int].is_metadata() by {
                let x = p.parts[q][k];
                assert(p.parts[q].contains(x));
                assert(pk[q].contains(x));
                assert(meta.contains(x));
                let j = choose|j: int| 0 <= j < meta.len() && meta[j] == x;
                assert(meta[j] < e.len());
                assert(stored(e, x as int, true));
            }
        }
    }
}

/// All members of the parts, one part after another.
spec fn flat(parts: Seq<Seq<usize>>) -> Seq<usize>
    decreases parts.len(),
{
    if parts.len() == 0 {
        Seq::empty()
    } else {
        flat(parts.drop_last()) + parts.last()
    }
}

proof fn lemma_flat_total(e: Seq<entry::EntryView>, parts: Seq<Seq<usize>>)
    ensures
        total(e, flat(parts)) == grand_total(e, parts),
    decreases parts.len(),
{
    if parts.len() > 0 {
        lemma_flat_total(e, parts.drop_last());
        lemma_total_concat(e, flat(parts.drop_last()), parts.last());
    }
}

proof fn lemma_flat_members(parts: Seq<Seq<usize>>)
    requires
        no_repeats(parts),
    ensures
        sort::distinct(flat(parts)),
        forall|x: usize| #[trigger] flat(parts).contains(x) <==> held_somewhere(parts, x),
    decreases parts.len(),
{
    let f = flat(parts);
    if parts.len() == 0 {
        assert forall|x: usize| #[trigger] f.contains(x) <==> held_somewhere(parts, x) by {}
    } else {
        let d = parts.drop_last();
        let m = d.len() as int;
        assert(no_repeats(d)) by {
            assert forall|q: int, k: int, r: int, j: int|
                0 <= q < d.len() && 0 <= k < d[q].len() && 0 <= r < d.len() && 0 <= j < d[r].len()
                    && #[trigger] d[q][k] == #[trigger] d[r][j] implies q == r && k == j by {
                assert(parts[q][k] == parts[r][j]);
            }
        }
        lemma_flat_members(d);
        lemma_part_distinct(parts, m);
        let g = flat(d);
        assert forall|x: usize| #[trigger] f.contains(x) <==> held_somewhere(parts, x) by {
            if f.contains(x) {
                let i = choose|i: int| 0 <= i < f.len() && f[i] == x;
                if i < g.len() {
                    assert(g[i] == x);
                    assert(g.contains(x));
                    let (q, k) = choose|q: int, k: int|
                        0 <= q < d.len() && 0 <= k < d[q].len() && #[trigger] d[q][k] == x;
                    assert(parts[q][k] == x);
                } else {
                    assert(parts[m][i - g.len()] == x);
                }
            }
            if held_somewhere(parts, x) {
                let (q, k) = choose|q: int, k: int|
                    0 <= q < parts.len() && 0 <= k < parts[q].len() && #[trigger] parts[q][k] == x;
                if q < m {
                    assert(d[q][k] == x);
                    assert(held_somewhere(d, x));
                    assert(g.contains(x));
                    let i = choose|i: int| 0 <= i < g.len() && g[i] == x;
                    assert(f[i] == x);
                } else {
                    assert(f[g.len() + k] == x);
                }
            }
        }
        assert forall|i: int, j: int| 0 <= i < j < f.len() implies #[trigger] f[i]
            != #[trigger] f[j] by {
            if j < g.len() {
                assert(g[i] != g[j]);
            } else if i >= g.len() {
                assert(parts[m][i - g.len()] != parts[m][j - g.len()]);
            } else {
                if f[i] == f[j] {
                    let x = f[i];
                    assert(g[i] == x);
                    assert(g.contains(x));
                    let (q, k) = choose|q: int, k: int|
                        0 <= q < d.len() && 0 <= k < d[q].len() && #[trigger] d[q][k] == x;
                    assert(parts[q][k] == parts[m][j - g.len()]);
                }
            }
        }
    }
}

proof fn lemma_sum_if_stored(e: Seq<entry::EntryView>, s: Seq<usize>, n: nat)
    requires
        n <= e.len(),
        e.len() <= usize::MAX,
        forall|i: usize|
            i < e.len() ==> (#[trigger] s.contains(i) <==> e[i as int].compressed_size > 0),
    ensures
        sum_if(e, s, n) == sum_sizes(e.take(n as int)),
    decreases n,
{
    if n > 0 {
        lemma_sum_if_stored(e, s, (n - 1) as nat);
        assert(e.take(n as int).drop_last() =~= e.take(n - 1));
        let i = (n - 1) as usize;
        assert(s.contains(i) <==> e[i as int].compressed_size > 0);
    }
}

/// The parts of a plan together hold the bytes of all entries.
pub proof fn lemma_grand_total(h: Seq<u8>, lt: Seq<u8>, xml: Seq<u8>, max: u64, p: PlanView)
    requires
        is_plan(h, lt, xml, max, p),
        p.wf(),
        p.entries.len() <= usize::MAX,
    ensures
        grand_total(p.entries, p.parts) == sum_sizes(p.entries),
{
    let e = p.entries;
    let f = flat(p.parts);
    lemma_flat_total(e, p.parts);
    lemma_flat_members(p.parts);
    lemma_plan_members(h, lt, xml, max, p);
    assert forall|i: usize| i < e.len() implies (#[trigger] f.contains(i)
        <==> e[i as int].compressed_size > 0) by {
        if held_somewhere(p.parts, i) {
            let (q, k) = choose|q: int, k: int|
                0 <= q < p.parts.len() && 0 <= k < p.parts[q].len() && #[trigger] p.parts[q][k]
                    == i;
            assert(p.entries[p.parts[q][k] as int].compressed_size > 0);
        }
    }
    assert forall|k: int| 0 <= k < f.len() implies #[trigger] f[k] < e.len() by {
        assert(f.contains(f[k]));
        let (a, b) = choose|a: int, b: int|
            0 <= a < p.parts.len() && 0 <= b < p.parts[a].len() && #[trigger] p.parts[a][b] == f[k];
        assert(p.parts[a][b] < e.len());
    }
    lemma_total_is_sum_if(e, f);
    lemma_sum_if_stored(e, f, e.len());
    assert(e.take(e.len() as int) =~= e);
}

// ---------------------------------------------------------------------------
// What holds of the packing
// ---------------------------------------------------------------------------
/// The parts hold the metadata resources and then the others in their order, one part after
/// another.
pub proof fn law_packed_in_order(
    e: Seq<entry::EntryView>,
    meta: Seq<usize>,
    order: Seq<usize>,
    oh: int,
    max: int,
)
    ensures
        packed(e, meta, order, oh, max).len() >= 1,
        packed(e, meta, order, oh, max).flatten_alt() == meta + order,
    decreases order.len(),
{
    let p = packed(e, meta, order, oh, max);
    if order.len() == 0 {
        assert(p.drop_last() =~= Seq::<Seq<usize>>::empty());
        assert(p.drop_last().flatten_alt() =~= Seq::<usize>::empty());
        assert(p.flatten_alt() =~= meta + order);
    } else {
        law_packed_in_order(e, meta, order.drop_last(), oh, max);
        let b = packed(e, meta, order.drop_last(), oh, max);
        let x = order.last();
        assert(order =~= order.drop_last().push(x));
        if total(e, b.last()) + e[x as int].compressed_size + oh > max && total(e, b.last()) > 0 {
            assert(p.drop_last() =~= b);
            assert(p.flatten_alt() == b.flatten_alt() + seq![x]);
            assert(p.flatten_alt() =~= meta + order);
        } else {
            let head = b.drop_last().flatten_alt();
            assert(p.drop_last() =~= b.drop_last());
            assert(p.last() == b.last().push(x));
            assert(b.flatten_alt() == head + b.last());
            assert(p.flatten_alt() == head + b.last().push(x));
            assert(head + b.last().push(x) =~= (head + b.last()).push(x));
            assert((meta + order.drop_last()).push(x) =~= meta + order);
        }
    }
}

/// A part is begun only where it is needed: the part before it holds something, and with the first
/// resource of the new one and what a part holds besides resources it would be over the limit.
pub proof fn law_part_begun_when_full(
    e: Seq<entry::EntryView>,
    meta: Seq<usize>,
    order: Seq<usize>,
    oh: int,
    max: int,
    q: int,
)
    requires
        1 <= q < packed(e, meta, order, oh, max).len(),
    ensures
        ({
            let p = packed(e, meta, order, oh, max);
            &&& p[q].len() > 0
            &&& total(e, p[q - 1]) > 0
            &&& oh + total(e, p[q - 1]) + e[p[q][0] as int].compressed_size > max
        }),
    decreases order.len(),
{
    let p = packed(e, meta, order, oh, max);
    if order.len() > 0 {
        law_packed_in_order(e, meta, order.drop_last(), oh, max);
        let b = packed(e, meta, order.drop_last(), oh, max);
        let x = order.last();
        if total(e, b.last()) + e[x as int].compressed_size + oh > max && total(e, b.last()) > 0 {
            if q == b.len() {
                assert(p[q - 1] == b.last());
                assert(p[q] == seq![x]);
            } else {
                law_part_begun_when_full(e, meta, order.drop_last(), oh, max, q);
                assert(p[q] == b[q] && p[q - 1] == b[q - 1]);
            }
        } else {
            law_part_begun_when_full(e, meta, order.drop_last(), oh, max, q);
            assert(p[q - 1] == b[q - 1]);
            if q == b.len() - 1 {
                assert(p[q] == b[q].push(x));
                assert(p[q][0] == b[q][0]);
            } else {
                assert(p[q] == b[q]);
            }
        }
    }
}

/// The same of the parts of a plan: some resource of each part but the first would not have gone
/// into the part before it, within the limit that is given, or 3800 mebibytes where none is.
pub proof fn law_parts_needed(
    h: Seq<u8>,
    lt: Seq<u8>,
    xml: Seq<u8>,
    max: u64,
    p: PlanView,
    q: int,
)
    requires
        is_plan(h, lt, xml, max, p),
        p.wf(),
        p.entries.len() <= usize::MAX,
        1 <= q < p.parts.len(),
    ensures
        exists|x: usize|
            #[trigger] p.parts[q].contains(x) && 208 + lt.len() + xml.len() + total(
                p.entries,
                p.parts[q - 1],
            ) + p.entries[x as int].compressed_size > if max == 0 {
                3800int * 1024 * 1024
            } else {
                max as int
            },
{
    let e = p.entries;
    let pk = packing(lt, xml.len(), max);
    let meta = selection(e, true, e.len());
    let order = data_order(e);
    let oh = overhead(lt.len(), xml.len());
    lemma_data_order_exists(e);
    lemma_sorted_out(e, meta, order);
    lemma_selection(e, true, e.len());
    lemma_packed(e, meta, order, oh, limit(max));
    law_part_begun_when_full(e, meta, order, oh, limit(max), q);
    assert(arranged(e, pk[q], p.parts[q]));
    assert(arranged(e, pk[q - 1], p.parts[q - 1]));
    lemma_part_distinct(pk, q - 1);
    lemma_part_distinct(p.parts, q - 1);
    assert forall|k: int| 0 <= k < pk[q - 1].len() implies #[trigger] pk[q - 1][k] < e.len() by {
        assert(meta.contains(pk[q - 1][k]) || order.contains(pk[q - 1][k]));
    }
    lemma_total_same_members(e, pk[q - 1], p.parts[q - 1]);
    let x = pk[q][0];
    assert(pk[q].contains(x));
    assert(p.parts[q].contains(x));
}

/// Resources lie in each part in the order in which they lie in the source file; of two at the same
/// place the metadata come first, and else the one that the table lists first.
pub proof fn law_source_order(
    h: Seq<u8>,
    lt: Seq<u8>,
    xml: Seq<u8>,
    max: u64,
    p: PlanView,
    q: int,
    k: int,
    l: int,
)
    requires
        is_plan(h, lt, xml, max, p),
        0 <= q < p.parts.len(),
        0 <= k < l < p.parts[q].len(),
    ensures
        p.entries[p.parts[q][k] as int].source_offset <= p.entries[p.parts[q][l] as int].source_offset,
        ({
            let i = p.parts[q][k];
            let j = p.parts[q][l];
            let a = p.entries[i as int];
            let b = p.entries[j as int];
            a.source_offset == b.source_offset ==> if a.flags & 2 != 0 {
                b.flags & 2 != 0 ==> i < j
            } else {
                b.flags & 2 == 0 && i < j
            }
        }),
{
    let e = p.entries;
    let (f, g) = (e[p.parts[q][k] as int].flags, e[p.parts[q][l] as int].flags);
    assert((f & 2 != 0) == (f / 2 % 2 == 1)) by (bit_vector);
    assert((g & 2 != 0) == (g / 2 % 2 == 1)) by (bit_vector);
    assert(arranged(e, packing(lt, xml.len(), max)[q], p.parts[q]));
    assert(comes_before(e, p.parts[q][k] as int, p.parts[q][l] as int));
}

/// The order in which the resources that are no metadata are dealt out: each with stored bytes once,
/// by its place in the source file.
pub proof fn law_data_order(e: Seq<entry::EntryView>, i: usize, k: int, l: int)
    requires
        e.len() <= usize::MAX,
        i < e.len(),
    ensures
        data_order(e).contains(i) <==> e[i as int].compressed_size > 0 && e[i as int].flags & 2 == 0,
        0 <= k < l < data_order(e).len() ==> data_order(e)[k] != data_order(e)[l]
            && e[data_order(e)[k] as int].source_offset <= e[data_order(e)[l] as int].source_offset,
        0 <= k < l < data_order(e).len() && e[data_order(e)[k] as int].source_offset
            == e[data_order(e)[l] as int].source_offset ==> data_order(e)[k] < data_order(e)[l],
{
    lemma_data_order_exists(e);
    let o = data_order(e);
    let f = e[i as int].flags;
    assert((f & 2 == 0) == (f / 2 % 2 == 0)) by (bit_vector);
    assert(o.contains(i) <==> stored(e, i as int, false));
    if 0 <= k < l < o.len() {
        assert(o.contains(o[k]) && o.contains(o[l]));
        assert(stored(e, o[k] as int, false) && stored(e, o[l] as int, false));
    }
    if 0 <= k < l < o.len() {
        assert(comes_before(e, o[k] as int, o[l] as int));
    }
}

/// The metadata resources with stored bytes, in the order of the table.
pub proof fn law_selection(e: Seq<entry::EntryView>, meta: bool, i: usize, k: int, l: int)
    requires
        e.len() <= usize::MAX,
        i < e.len(),
    ensures
        selection(e, meta, e.len()).contains(i) <==> e[i as int].compressed_size > 0 && (
        e[i as int].flags & 2 != 0) == meta,
        0 <= k < l < selection(e, meta, e.len()).len() ==> selection(e, meta, e.len())[k]
            < selection(e, meta, e.len())[l],
{
    let f = e[i as int].flags;
    assert((f & 2 == 0) == (f / 2 % 2 == 0)) by (bit_vector);
    lemma_selected(e, meta, e.len(), i, k, l);
}

proof fn lemma_selected(e: Seq<entry::EntryView>, meta: bool, n: nat, i: usize, k: int, l: int)
    requires
        n <= e.len(),
        e.len() <= usize::MAX,
    ensures
        ({
            let s = selection(e, meta, n);
            &&& s.contains(i) <==> i < n && stored(e, i as int, meta)
            &&& 0 <= k < s.len() ==> s[k] < n
            &&& 0 <= k < l < s.len() ==> s[k] < s[l]
        }),
    decreases n,
{
    if n > 0 {
        let b = selection(e, meta, (n - 1) as nat);
        let s = selection(e, meta, n);
        lemma_selected(e, meta, (n - 1) as nat, i, k, l);
        if stored(e, n - 1, meta) {
            if b.contains(i) {
                let m = choose|m: int| 0 <= m < b.len() && b[m] == i;
                assert(s[m] == i);
            }
            if i == n - 1 {
                assert(s[b.len() as int] == i);
            }
            if s.contains(i) && i != n - 1 {
                let m = choose|m: int| 0 <= m < s.len() && s[m] == i;
                assert(b[m] == i);
            }
        }
    }
}

/// The bytes of a list of resources add up.
pub proof fn law_total(
    e: Seq<entry::EntryView>,
    s: Seq<usize>,
    x: usize,
    parts: Seq<Seq<usize>>,
)
    ensures
        total(e, Seq::empty()) == 0,
        total(e, s.push(x)) == total(e, s) + e[x as int].compressed_size,
        grand_total(e, Seq::empty()) == 0,
        grand_total(e, parts.push(s)) == grand_total(e, parts) + total(e, s),
{
    assert(s.push(x).drop_last() =~= s);
    assert(parts.push(s).drop_last() =~= parts);
}

/// Where a resource is assigned: to its part, counted from one, and behind the header and the
/// resources before it there.
pub proof fn law_assigned(p: PlanView, q: int, k: int)
    requires
        p.wf(),
        0 <= q < p.parts.len(),
        0 <= k < p.parts[q].len(),
    ensures
        ({
            let i = p.parts[q][k] as int;
            &&& p.assignments[i].0 == (q + 1) % 65536
            &&& p.assignments[i].1 == 208 + total(p.entries, p.parts[q].take(k))
        }),
{
    let i = p.parts[q][k] as int;
    assert(p.assignments[i] == slot(p.entries, p.parts, q, k));
    lemma_total_take(p.entries, p.parts[q], k);
}

/// The boot metadata is the first entry of the table that lies where the header of the source file
/// puts it, with the stored size that stands there; there is none where that size is zero.
pub proof fn law_boot_index(h: Seq<u8>, e: Seq<entry::EntryView>, idx: Option<usize>, i: int)
    requires
        is_boot_index(h, e, idx),
        0 <= i < e.len(),
        e[i].source_offset == bytes::number(h, 104, 8),
        e[i].compressed_size == bytes::number(h, 96, 7),
    ensures
        bytes::number(h, 96, 7) == 0 ==> idx is None,
        bytes::number(h, 96, 7) > 0 ==> idx is Some && idx->0 <= i && e[idx->0 as int].source_offset
            == bytes::number(h, 104, 8) && e[idx->0 as int].compressed_size == bytes::number(
            h,
            96,
            7,
        ),
{
    bytes::law_fields_are_numbers(h, 104);
    header::law_stored_size(h, 96);
    assert(is_boot_entry(h, e, i));
}

/// The file of the first part is `install.swm`; that of any other has its number behind `install`.
/// No two parts have the same file.
pub proof fn law_part_names(a: u16, b: u16)
    ensures
        part_name(1) == "install.swm"@,
        a != 1 ==> part_name(a) == "install"@ + text::decimal(a as nat) + ".swm"@,
        part_name(a) == part_name(b) ==> a == b,
{
    reveal_strlit("install.swm");
    reveal_strlit("install");
    reveal_strlit(".swm");
    text::law_decimal(a as nat);
    text::law_decimal(b as nat);
    let da = text::decimal(a as nat);
    let db = text::decimal(b as nat);
    if part_name(a) == part_name(b) {
        if a != 1 && b != 1 {
            assert(part_name(a).len() == 7 + da.len() + 4);
            assert(part_name(b).len() == 7 + db.len() + 4);
            assert(da.len() == db.len());
            assert(da =~= db) by {
                assert forall|i: int| 0 <= i < da.len() implies da[i] == db[i] by {
                    assert(part_name(a)[7 + i] == da[i]);
                    assert(part_name(b)[7 + i] == db[i]);
                }
            }
        } else if a != 1 {
            assert(part_name(a).len() == 7 + da.len() + 4);
            assert(part_name(b).len() == 11);
        } else if b != 1 {
            assert(part_name(b).len() == 7 + db.len() + 4);
            assert(part_name(a).len() == 11);
        }
    }
}

} // verus!
