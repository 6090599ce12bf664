//! The entries of a WIM lookup table.

use crate::bytes;
use crate::wim::header;
use vstd::prelude::*;

verus! {

/// The length of an entry of the lookup table.
pub const LOOKUP_ENTRY_SIZE: usize = 50;

/// A resource of a WIM file.
#[derive(Debug)]
pub struct LookupEntry {
    pub compressed_size: u64,
    pub source_offset: u64,
    pub original_size: u64,
    pub flags: u8,
    pub ref_count: u32,
    pub sha1: Vec<u8>,
}

/// A resource of a WIM file.
pub struct EntryView {
    pub compressed_size: u64,
    pub source_offset: u64,
    pub original_size: u64,
    pub flags: u8,
    pub ref_count: u32,
    pub sha1: Seq<u8>,
}

impl EntryView {
    /// The size fits its seven bytes and the hash its twenty.
    pub open spec fn wf(self) -> bool {
        self.compressed_size < 0x0100_0000_0000_0000 && self.sha1.len() == 20
    }

    /// The resource describes an image rather than holding file data.
    pub open spec fn is_metadata(self) -> bool {
        self.flags / 2 % 2 == 1
    }
}

impl View for LookupEntry {
    type V = EntryView;

    open spec fn view(&self) -> EntryView {
        EntryView {
            compressed_size: self.compressed_size,
            source_offset: self.source_offset,
            original_size: self.original_size,
            flags: self.flags,
            ref_count: self.ref_count,
            sha1: self.sha1@,
        }
    }
}

/// The entry that stands at `i`.
pub open spec fn entry_at(s: Seq<u8>, i: int) -> EntryView {
    EntryView {
        compressed_size: header::low56(bytes::u64_at(s, i)),
        flags: (bytes::u64_at(s, i) / 0x0100_0000_0000_0000) as u8,
        source_offset: bytes::u64_at(s, i + 8),
        original_size: bytes::u64_at(s, i + 16),
        ref_count: bytes::u32_at(s, i + 26),
        sha1: s.subrange(i + 30, i + 50),
    }
}

/// The bytes of an entry in part `part`, for a resource that lies at `offset` there.
pub open spec fn entry_bytes(e: EntryView, part: u16, offset: u64) -> Seq<u8> {
    bytes::u64_le(header::sized(e.compressed_size, e.flags)) + bytes::u64_le(offset)
        + bytes::u64_le(e.original_size) + bytes::u16_le(part) + bytes::u32_le(e.ref_count) + e.sha1
}

/// What is written for an entry reads back as that entry, at its new offset and in its part.
pub proof fn law_entry_roundtrip(e: EntryView, part: u16, offset: u64)
    requires
        e.wf(),
    ensures
        entry_bytes(e, part, offset).len() == LOOKUP_ENTRY_SIZE,
        entry_at(entry_bytes(e, part, offset), 0) == (EntryView { source_offset: offset, ..e }),
        bytes::u16_at(entry_bytes(e, part, offset), 24) == part,
{
    let s = entry_bytes(e, part, offset);
    header::lemma_sized(e.compressed_size, e.flags);
    assert(s.subrange(0, 8) =~= bytes::u64_le(header::sized(e.compressed_size, e.flags)));
    bytes::lemma_u64_roundtrip(s, 0, header::sized(e.compressed_size, e.flags));
    assert(s.subrange(8, 16) =~= bytes::u64_le(offset));
    bytes::lemma_u64_roundtrip(s, 8, offset);
    assert(s.subrange(16, 24) =~= bytes::u64_le(e.original_size));
    bytes::lemma_u64_roundtrip(s, 16, e.original_size);
    assert(s.subrange(24, 26) =~= bytes::u16_le(part));
    bytes::lemma_u16_roundtrip(s, 24, part);
    assert(s.subrange(26, 30) =~= bytes::u32_le(e.ref_count));
    bytes::lemma_u32_roundtrip(s, 26, e.ref_count);
    assert(s.subrange(30, 50) =~= e.sha1);
}

impl LookupEntry {
    /// Reads the entry at the beginning of `data`.
    pub fn parse(data: &[u8]) -> (r: LookupEntry)
        requires
            data@.len() >= LOOKUP_ENTRY_SIZE,
        ensures
            r@ == entry_at(data@, 0),
            r@.wf(),
    {
        let size_flags = bytes::get_u64(data, 0);
        proof {
            header::lemma_low56(size_flags);
        }
        LookupEntry {
            compressed_size: size_flags & 0x00FF_FFFF_FFFF_FFFF,
            flags: ((size_flags >> 56) & 0xFF) as u8,
            source_offset: bytes::get_u64(data, 8),
            original_size: bytes::get_u64(data, 16),
            ref_count: bytes::get_u32(data, 26),
            sha1: bytes::slice_vec(data, 30, 20),
        }
    }

    /// Whether the resource describes an image rather than holding file data.
    pub fn is_metadata(&self) -> (r: bool)
        ensures
            r == self@.is_metadata(),
    {
        let f: u8 = self.flags;
        assert((f & 0x02 != 0) == (f / 2 % 2 == 1)) by (bit_vector);
        f & 0x02 != 0
    }

    /// The bytes of the entry in part `part_number`, for a resource that lies at `offset` there.
    pub fn serialize(&self, part_number: u16, offset: u64) -> (r: Vec<u8>)
        requires
            self@.wf(),
        ensures
            r@ == entry_bytes(self@, part_number, offset),
            r@.len() == LOOKUP_ENTRY_SIZE,
    {
        let mut buf = bytes::u64_bytes(self.compressed_size | ((self.flags as u64) << 56));
        let at = bytes::u64_bytes(offset);
        let original = bytes::u64_bytes(self.original_size);
        let part = bytes::u16_bytes(part_number);
        let count = bytes::u32_bytes(self.ref_count);
        bytes::push_all(&mut buf, &at);
        bytes::push_all(&mut buf, &original);
        bytes::push_all(&mut buf, &part);
        bytes::push_all(&mut buf, &count);
        bytes::push_all(&mut buf, &self.sha1);
        buf
    }
}

/// Contracts speak of an entry by all that it holds.
pub proof fn law_view(e: LookupEntry)
    ensures
        e@.compressed_size == e.compressed_size,
        e@.source_offset == e.source_offset,
        e@.original_size == e.original_size,
        e@.flags == e.flags,
        e@.ref_count == e.ref_count,
        e@.sha1 == e.sha1@,
{
}

} // verus!
