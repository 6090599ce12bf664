//! The header of a WIM file.

use crate::bytes;
use crate::error;
use crate::error::Result;
use vstd::prelude::*;

verus! {

/// The length of a WIM header.
pub const HEADER_SIZE: usize = 208;

/// Where the size of the lookup table stands, with the flags of that resource in its top byte.
pub const LOOKUP_FIELD: usize = 48;

/// Where the size of the XML data stands, with the flags of that resource in its top byte.
pub const XML_FIELD: usize = 72;

/// Where the size of the boot metadata stands, with the flags of that resource in its top byte.
pub const BOOT_FIELD: usize = 96;

/// The bytes with which a WIM file begins: `MSWIM` and three zeros.
pub open spec fn magic() -> Seq<u8> {
    seq![0x4d, 0x53, 0x57, 0x49, 0x4d, 0, 0, 0]
}

/// The lower seven bytes of a size field.
pub open spec fn low56(x: u64) -> u64 {
    x % 0x0100_0000_0000_0000
}

/// `data` begins with a WIM header.
pub open spec fn is_wim(data: Seq<u8>) -> bool {
    data.len() >= HEADER_SIZE && data.subrange(0, 8) == magic()
}

/// The size field that keeps the flags byte `flags` and holds `size`.
pub open spec fn sized(size: u64, flags: u8) -> u64 {
    size | ((flags as u64) << 56)
}

/// A header with the three fields of the resource at `field` set to `size` stored bytes at
/// `offset`; the flags byte stays.
pub open spec fn with_resource(h: Seq<u8>, field: int, offset: u64, size: u64) -> Seq<u8> {
    bytes::overwrite(
        bytes::overwrite(
            bytes::overwrite(h, field, bytes::u64_le(sized(size, h[field + 7]))),
            field + 8,
            bytes::u64_le(offset),
        ),
        field + 16,
        bytes::u64_le(size),
    )
}

/// A header marked as belonging to one of several parts.
pub open spec fn with_spanned_flag(h: Seq<u8>) -> Seq<u8> {
    bytes::overwrite(h, 16, bytes::u32_le(bytes::u32_at(h, 16) | 8))
}

/// A header that says which of how many parts it belongs to.
pub open spec fn with_part_info(h: Seq<u8>, part: u16, total: u16) -> Seq<u8> {
    bytes::overwrite(bytes::overwrite(h, 40, bytes::u16_le(part)), 42, bytes::u16_le(total))
}

/// A header whose boot metadata lies at `offset`.
pub open spec fn with_boot_offset(h: Seq<u8>, offset: u64) -> Seq<u8> {
    bytes::overwrite(h, 104, bytes::u64_le(offset))
}

/// A header without boot metadata.
pub open spec fn without_boot(h: Seq<u8>) -> Seq<u8> {
    bytes::overwrite(h, 96, bytes::zeros(24))
}

/// A header without an integrity table.
pub open spec fn without_integrity(h: Seq<u8>) -> Seq<u8> {
    bytes::overwrite(h, 124, bytes::zeros(24))
}

/// Masking a size field leaves its lower seven bytes.
pub proof fn lemma_low56(x: u64)
    ensures
        x & 0x00FF_FFFF_FFFF_FFFF == low56(x),
        low56(x) < 0x0100_0000_0000_0000,
        (x >> 56) & 0xFF == x / 0x0100_0000_0000_0000,
        x / 0x0100_0000_0000_0000 < 256,
{
    assert(x & 0x00FF_FFFF_FFFF_FFFF == x % 0x0100_0000_0000_0000) by (bit_vector);
    assert((x >> 56) & 0xFF == x / 0x0100_0000_0000_0000) by (bit_vector);
    assert(x / 0x0100_0000_0000_0000 < 256) by (bit_vector);
}

/// A size of seven bytes and a flags byte share a size field without touching each other.
pub proof fn lemma_sized(size: u64, flags: u8)
    requires
        size < 0x0100_0000_0000_0000,
    ensures
        sized(size, flags) == size + flags * 0x0100_0000_0000_0000,
        low56(sized(size, flags)) == size,
        sized(size, flags) / 0x0100_0000_0000_0000 == flags,
{
    let f = flags as u64;
    assert(size < 0x0100_0000_0000_0000 && f < 256 ==> size | (f << 56) == size + f
        * 0x0100_0000_0000_0000) by (bit_vector);
}

/// What says which of how many parts a header belongs to changes the four bytes for that and no
/// others: two for the number of the part, two for the number of parts.
pub proof fn law_part_info(h: Seq<u8>, part: u16, total: u16)
    requires
        h.len() == 208,
    ensures
        ({
            let g = with_part_info(h, part, total);
            &&& g.len() == 208
            &&& forall|i: int| 0 <= i < 208 && !(40 <= i < 44) ==> #[trigger] g[i] == h[i]
            &&& g[40] + 256 * g[41] == part
            &&& g[42] + 256 * g[43] == total
        }),
{
}

/// Marking a header as belonging to one of several parts sets one bit of its flags, and changes no
/// other.
pub proof fn law_spanned_flag(h: Seq<u8>)
    requires
        h.len() == 208,
    ensures
        ({
            let g = with_spanned_flag(h);
            &&& g.len() == 208
            &&& forall|i: int| 0 <= i < 208 && i != 16 ==> #[trigger] g[i] == h[i]
            &&& g[16] == h[16] | 8
        }),
{
    let a = bytes::u32_at(h, 16);
    let b = a | 8;
    assert(b % 0x100 == (a % 0x100) | 8 && b / 0x100 == a / 0x100) by (bit_vector)
        requires
            b == a | 8u32,
    ;
    let low = h[16];
    assert(a % 0x100 == low);
    assert((low as u32) | 8 == (low | 8) as u32) by (bit_vector);
    assert(a / 0x100 % 0x100 == h[17]);
    assert(a / 0x1_0000 % 0x100 == h[18]);
    assert(a / 0x100_0000 == h[19]);
    assert(b / 0x1_0000 == a / 0x1_0000);
    assert(b / 0x100_0000 == a / 0x100_0000);
}

/// Saying where a resource lies writes its stored size into the first seven bytes of the field, its
/// place into the second eight and its size into the third; the flags in the byte between stay, and
/// so does the rest of the header.
pub proof fn law_resource_field(h: Seq<u8>, field: int, offset: u64, size: u64)
    requires
        h.len() == 208,
        0 <= field <= 184,
        size < 0x0100_0000_0000_0000,
    ensures
        ({
            let g = with_resource(h, field, offset, size);
            &&& g.len() == 208
            &&& forall|i: int|
                0 <= i < 208 && !(field <= i < field + 24) ==> #[trigger] g[i] == h[i]
            &&& bytes::number(g, field, 7) == size
            &&& g[field + 7] == h[field + 7]
            &&& bytes::number(g, field + 8, 8) == offset
            &&& bytes::number(g, field + 16, 8) == size
        }),
{
    let g = with_resource(h, field, offset, size);
    let v = sized(size, h[field + 7]);
    let (a, b, c) = (bytes::u64_le(v), bytes::u64_le(offset), bytes::u64_le(size));
    lemma_sized(size, h[field + 7]);
    bytes::law_numbers_are_written(0, 0, v);
    bytes::law_numbers_are_written(0, 0, offset);
    bytes::law_numbers_are_written(0, 0, size);
    lemma_three_patches(h, field, a, b, c);
    bytes::lemma_number_in(g, field, a);
    bytes::lemma_number_in(g, field + 8, b);
    bytes::lemma_number_in(g, field + 16, c);
    bytes::lemma_eighth_byte(g, field);
}

/// Three pieces of eight bytes written one behind another.
proof fn lemma_three_patches(h: Seq<u8>, field: int, a: Seq<u8>, b: Seq<u8>, c: Seq<u8>)
    requires
        h.len() == 208,
        0 <= field <= 184,
        a.len() == 8,
        b.len() == 8,
        c.len() == 8,
    ensures
        ({
            let g = bytes::overwrite(
                bytes::overwrite(bytes::overwrite(h, field, a), field + 8, b),
                field + 16,
                c,
            );
            &&& g.len() == 208
            &&& forall|i: int|
                0 <= i < 208 && !(field <= i < field + 24) ==> #[trigger] g[i] == h[i]
            &&& g.subrange(field, field + 8) == a
            &&& g.subrange(field + 8, field + 16) == b
            &&& g.subrange(field + 16, field + 24) == c
        }),
{
    let g = bytes::overwrite(
        bytes::overwrite(bytes::overwrite(h, field, a), field + 8, b),
        field + 16,
        c,
    );
    assert(g.subrange(field, field + 8) =~= a);
    assert(g.subrange(field + 8, field + 16) =~= b);
    assert(g.subrange(field + 16, field + 24) =~= c);
}

/// Where the boot metadata lies is written into the second eight bytes of its field. Taking the
/// boot metadata or the integrity table away makes its field zero. The rest of the header stays.
pub proof fn law_boot_and_integrity(h: Seq<u8>, offset: u64)
    requires
        h.len() == 208,
    ensures
        ({
            let g = with_boot_offset(h, offset);
            &&& g.len() == 208
            &&& forall|i: int| 0 <= i < 208 && !(104 <= i < 112) ==> #[trigger] g[i] == h[i]
            &&& bytes::number(g, 104, 8) == offset
        }),
        ({
            let g = without_boot(h);
            &&& g.len() == 208
            &&& forall|i: int|
                0 <= i < 208 ==> #[trigger] g[i] == if 96 <= i < 120 {
                    0
                } else {
                    h[i]
                }
        }),
        ({
            let g = without_integrity(h);
            &&& g.len() == 208
            &&& forall|i: int|
                0 <= i < 208 ==> #[trigger] g[i] == if 124 <= i < 148 {
                    0
                } else {
                    h[i]
                }
        }),
{
    let g = with_boot_offset(h, offset);
    bytes::law_numbers_are_written(0, 0, offset);
    bytes::lemma_number_of_same(g, 104, bytes::u64_le(offset), 0, 8);
}

/// A file is taken for a WIM file if and only if it has a whole header that begins with the letters
/// `MSWIM` and three zeros.
pub proof fn law_wim_mark(data: Seq<u8>)
    ensures
        is_wim(data) <==> data.len() >= 208 && data[0] == 0x4d && data[1] == 0x53 && data[2] == 0x57
            && data[3] == 0x49 && data[4] == 0x4d && data[5] == 0 && data[6] == 0 && data[7] == 0,
{
    if data.len() >= 208 {
        let a = data.subrange(0, 8);
        if a == magic() {
            assert(a[0] == magic()[0] && a[1] == magic()[1] && a[2] == magic()[2] && a[3]
                == magic()[3] && a[4] == magic()[4] && a[5] == magic()[5] && a[6] == magic()[6]
                && a[7] == magic()[7]);
        } else if data[0] == 0x4d && data[1] == 0x53 && data[2] == 0x57 && data[3] == 0x49 && data[4]
            == 0x4d && data[5] == 0 && data[6] == 0 && data[7] == 0 {
            assert(a =~= magic());
        }
    }
}

/// The stored size in a size field is the number of its first seven bytes.
pub proof fn law_stored_size(h: Seq<u8>, field: int)
    ensures
        low56(bytes::u64_at(h, field)) == bytes::number(h, field, 7),
{
    bytes::law_fields_are_numbers(h, field);
    bytes::lemma_eighth_byte(h, field);
}

/// A WIM header.
#[derive(Debug)]
pub struct WimHeader {
    raw: Vec<u8>,
}

impl View for WimHeader {
    type V = Seq<u8>;

    closed spec fn view(&self) -> Seq<u8> {
        self.raw@
    }
}

impl WimHeader {
    /// The header has its full length.
    pub open spec fn wf(&self) -> bool {
        self@.len() == HEADER_SIZE
    }

    /// Takes the header off the beginning of a file.
    pub fn parse(data: &[u8]) -> (r: Result<WimHeader>)
        ensures
            match r {
                Ok(h) => is_wim(data@) && h.wf() && h@ == data@.subrange(0, HEADER_SIZE as int),
                Err(e) => !is_wim(data@) && e@ == error::ErrorView::Other(
                    "Not a valid WIM file"@,
                ),
            },
    {
        if data.len() < HEADER_SIZE || !(data[0] == 0x4d && data[1] == 0x53 && data[2] == 0x57
            && data[3] == 0x49 && data[4] == 0x4d && data[5] == 0 && data[6] == 0 && data[7] == 0) {
            proof {
                if is_wim(data@) {
                    let t = data@.subrange(0, 8);
                    assert(t[0] == data@[0] && t[1] == data@[1] && t[2] == data@[2] && t[3]
                        == data@[3] && t[4] == data@[4] && t[5] == data@[5] && t[6] == data@[6]
                        && t[7] == data@[7]);
                    assert(false);
                }
            }
            return Err(error::other("Not a valid WIM file"));
        }
        assert(data@.subrange(0, 8) =~= magic());
        Ok(WimHeader { raw: bytes::slice_vec(data, 0, HEADER_SIZE) })
    }

    /// The bytes of the header.
    pub fn as_bytes(&self) -> (r: &Vec<u8>)
        ensures
            r@ == self@,
    {
        &self.raw
    }

    /// A copy of the header.
    pub fn duplicate(&self) -> (r: WimHeader)
        ensures
            r@ == self@,
    {
        let n = self.raw.len();
        let raw = bytes::slice_vec(&self.raw, 0, n);
        assert(self.raw@.subrange(0, n as int) =~= self.raw@);
        WimHeader { raw }
    }

    /// Where the lookup table begins.
    pub fn lookup_table_offset(&self) -> (r: u64)
        requires
            self.wf(),
        ensures
            r == bytes::u64_at(self@, 56),
    {
        bytes::get_u64(&self.raw, 56)
    }

    /// How many bytes the lookup table takes.
    pub fn lookup_table_size(&self) -> (r: u64)
        requires
            self.wf(),
        ensures
            r == low56(bytes::u64_at(self@, 48)),
    {
        let x = bytes::get_u64(&self.raw, 48);
        proof {
            lemma_low56(x);
        }
        x & 0x00FF_FFFF_FFFF_FFFF
    }

    /// Where the XML data begins.
    pub fn xml_offset(&self) -> (r: u64)
        requires
            self.wf(),
        ensures
            r == bytes::u64_at(self@, 80),
    {
        bytes::get_u64(&self.raw, 80)
    }

    /// How many bytes the XML data takes.
    pub fn xml_size(&self) -> (r: u64)
        requires
            self.wf(),
        ensures
            r == low56(bytes::u64_at(self@, 72)),
    {
        let x = bytes::get_u64(&self.raw, 72);
        proof {
            lemma_low56(x);
        }
        x & 0x00FF_FFFF_FFFF_FFFF
    }

    /// Marks the header as belonging to one of several parts.
    pub fn set_spanned_flag(&mut self)
        requires
            old(self).wf(),
        ensures
            final(self)@ == with_spanned_flag(old(self)@),
    {
        let flags = bytes::get_u32(&self.raw, 16);
        let patch = bytes::u32_bytes(flags | 0x08);
        bytes::put(&mut self.raw, 16, &patch);
    }

    /// Says which of how many parts the header belongs to.
    pub fn set_part_info(&mut self, part: u16, total: u16)
        requires
            old(self).wf(),
        ensures
            final(self)@ == with_part_info(old(self)@, part, total),
    {
        let p = bytes::u16_bytes(part);
        let t = bytes::u16_bytes(total);
        bytes::put(&mut self.raw, 40, &p);
        bytes::put(&mut self.raw, 42, &t);
    }

    fn set_resource(&mut self, field: usize, offset: u64, size: u64)
        requires
            old(self).wf(),
            field + 24 <= HEADER_SIZE,
        ensures
            final(self)@ == with_resource(old(self)@, field as int, offset, size),
    {
        let flags: u8 = self.raw[field + 7];
        let with_flags = bytes::u64_bytes(size | ((flags as u64) << 56));
        let at = bytes::u64_bytes(offset);
        let original = bytes::u64_bytes(size);
        bytes::put(&mut self.raw, field, &with_flags);
        bytes::put(&mut self.raw, field + 8, &at);
        bytes::put(&mut self.raw, field + 16, &original);
    }

    /// Says where the lookup table lies; its flags byte stays.
    pub fn set_lookup_table(&mut self, offset: u64, size: u64)
        requires
            old(self).wf(),
        ensures
            final(self)@ == with_resource(old(self)@, 48, offset, size),
    {
        self.set_resource(LOOKUP_FIELD, offset, size);
    }

    /// Says where the XML data lies; its flags byte stays.
    pub fn set_xml_data(&mut self, offset: u64, size: u64)
        requires
            old(self).wf(),
        ensures
            final(self)@ == with_resource(old(self)@, 72, offset, size),
    {
        self.set_resource(XML_FIELD, offset, size);
    }

    /// Where the boot metadata begins.
    pub fn boot_metadata_offset(&self) -> (r: u64)
        requires
            self.wf(),
        ensures
            r == bytes::u64_at(self@, 104),
    {
        bytes::get_u64(&self.raw, 104)
    }

    /// How many bytes the boot metadata takes.
    pub fn boot_metadata_compressed_size(&self) -> (r: u64)
        requires
            self.wf(),
        ensures
            r == low56(bytes::u64_at(self@, 96)),
    {
        let x = bytes::get_u64(&self.raw, BOOT_FIELD);
        proof {
            lemma_low56(x);
        }
        x & 0x00FF_FFFF_FFFF_FFFF
    }

    /// Says where the boot metadata lies.
    pub fn set_boot_metadata_offset(&mut self, offset: u64)
        requires
            old(self).wf(),
        ensures
            final(self)@ == with_boot_offset(old(self)@, offset),
    {
        let at = bytes::u64_bytes(offset);
        bytes::put(&mut self.raw, 104, &at);
    }

    /// Takes the boot metadata out of the header.
    pub fn clear_boot_metadata(&mut self)
        requires
            old(self).wf(),
        ensures
            final(self)@ == without_boot(old(self)@),
    {
        let z = bytes::zero_vec(24);
        bytes::put(&mut self.raw, BOOT_FIELD, &z);
    }

    /// Takes the integrity table out of the header.
    pub fn clear_integrity(&mut self)
        requires
            old(self).wf(),
        ensures
            final(self)@ == without_integrity(old(self)@),
    {
        let z = bytes::zero_vec(24);
        bytes::put(&mut self.raw, 124, &z);
    }
}

} // verus!
