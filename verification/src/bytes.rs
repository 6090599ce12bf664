//! Little-endian fields inside byte buffers.

use vstd::prelude::*;

verus! {

/// The 16-bit little-endian number at `i`.
pub open spec fn u16_at(s: Seq<u8>, i: int) -> u16 {
    (s[i] + 0x100 * s[i + 1]) as u16
}

/// The 32-bit little-endian number at `i`.
pub open spec fn u32_at(s: Seq<u8>, i: int) -> u32 {
    (s[i] + 0x100 * s[i + 1] + 0x1_0000 * s[i + 2] + 0x100_0000 * s[i + 3]) as u32
}

/// The 64-bit little-endian number at `i`.
pub open spec fn u64_at(s: Seq<u8>, i: int) -> u64 {
    (u32_at(s, i) + 0x1_0000_0000 * u32_at(s, i + 4)) as u64
}

/// The two bytes of `v`, low byte first.
pub open spec fn u16_le(v: u16) -> Seq<u8> {
    seq![(v % 0x100) as u8, (v / 0x100) as u8]
}

/// The four bytes of `v`, low byte first.
pub open spec fn u32_le(v: u32) -> Seq<u8> {
    seq![
        (v % 0x100) as u8,
        (v / 0x100 % 0x100) as u8,
        (v / 0x1_0000 % 0x100) as u8,
        (v / 0x100_0000) as u8,
    ]
}

/// The eight bytes of `v`, low byte first.
pub open spec fn u64_le(v: u64) -> Seq<u8> {
    u32_le((v % 0x1_0000_0000) as u32) + u32_le((v / 0x1_0000_0000) as u32)
}

/// `s` with `patch` written over it from `off` on; bytes past the end of `s` are dropped.
pub open spec fn overwrite(s: Seq<u8>, off: int, patch: Seq<u8>) -> Seq<u8> {
    Seq::new(
        s.len(),
        |i: int|
            if off <= i < off + patch.len() {
                patch[i - off]
            } else {
                s[i]
            },
    )
}

/// `n` zero bytes.
pub open spec fn zeros(n: nat) -> Seq<u8> {
    Seq::new(n, |i: int| 0u8)
}

/// Writing a 16-bit number and reading it back gives the number.
pub proof fn lemma_u16_roundtrip(s: Seq<u8>, i: int, v: u16)
    requires
        0 <= i,
        i + 2 <= s.len(),
        s.subrange(i, i + 2) == u16_le(v),
    ensures
        u16_at(s, i) == v,
{
    let t = s.subrange(i, i + 2);
    assert(t[0] == s[i] && t[1] == s[i + 1]);
}

/// Writing a 32-bit number and reading it back gives the number.
pub proof fn lemma_u32_roundtrip(s: Seq<u8>, i: int, v: u32)
    requires
        0 <= i,
        i + 4 <= s.len(),
        s.subrange(i, i + 4) == u32_le(v),
    ensures
        u32_at(s, i) == v,
{
    let t = s.subrange(i, i + 4);
    assert(t[0] == s[i] && t[1] == s[i + 1] && t[2] == s[i + 2] && t[3] == s[i + 3]);
    assert(v == v % 0x100 + 0x100 * (v / 0x100 % 0x100) + 0x1_0000 * (v / 0x1_0000 % 0x100)
        + 0x100_0000 * (v / 0x100_0000));
}

/// Writing a 64-bit number and reading it back gives the number.
pub proof fn lemma_u64_roundtrip(s: Seq<u8>, i: int, v: u64)
    requires
        0 <= i,
        i + 8 <= s.len(),
        s.subrange(i, i + 8) == u64_le(v),
    ensures
        u64_at(s, i) == v,
{
    let lo = (v % 0x1_0000_0000) as u32;
    let hi = (v / 0x1_0000_0000) as u32;
    let t = s.subrange(i, i + 8);
    assert(s.subrange(i, i + 4) =~= t.subrange(0, 4));
    assert(t.subrange(0, 4) =~= u32_le(lo));
    assert(s.subrange(i + 4, i + 8) =~= t.subrange(4, 8));
    assert(t.subrange(4, 8) =~= u32_le(hi));
    lemma_u32_roundtrip(s, i, lo);
    lemma_u32_roundtrip(s, i + 4, hi);
}

/// The number whose bytes stand in `s` from `i` on, `n` of them, each counting 256 times as much as
/// the one before it.
pub open spec fn number(s: Seq<u8>, i: int, n: nat) -> nat
    decreases n,
{
    if n == 0 {
        0
    } else {
        s[i] as nat + 256 * number(s, i + 1, (n - 1) as nat)
    }
}

/// A field of two, four or eight bytes is read as the number of its bytes, with the lowest byte
/// first.
pub proof fn law_fields_are_numbers(s: Seq<u8>, i: int)
    ensures
        u16_at(s, i) == number(s, i, 2),
        u32_at(s, i) == number(s, i, 4),
        u64_at(s, i) == number(s, i, 8),
{
    reveal_with_fuel(number, 9);
}

/// A number is written as bytes that are that number, as many as its type has.
pub proof fn law_numbers_are_written(a: u16, b: u32, c: u64)
    ensures
        u16_le(a).len() == 2 && number(u16_le(a), 0, 2) == a,
        u32_le(b).len() == 4 && number(u32_le(b), 0, 4) == b,
        u64_le(c).len() == 8 && number(u64_le(c), 0, 8) == c,
{
    law_fields_are_numbers(u16_le(a), 0);
    law_fields_are_numbers(u32_le(b), 0);
    law_fields_are_numbers(u64_le(c), 0);
    assert(u16_le(a).subrange(0, 2) =~= u16_le(a));
    assert(u32_le(b).subrange(0, 4) =~= u32_le(b));
    assert(u64_le(c).subrange(0, 8) =~= u64_le(c));
    lemma_u16_roundtrip(u16_le(a), 0, a);
    lemma_u32_roundtrip(u32_le(b), 0, b);
    lemma_u64_roundtrip(u64_le(c), 0, c);
}

/// The same bytes are the same number wherever they stand.
pub proof fn lemma_number_of_same(s: Seq<u8>, i: int, t: Seq<u8>, j: int, n: nat)
    requires
        forall|k: int| 0 <= k < n ==> #[trigger] s[i + k] == t[j + k],
    ensures
        number(s, i, n) == number(t, j, n),
    decreases n,
{
    if n > 0 {
        assert(s[i + 0] == t[j + 0]);
        assert forall|k: int| 0 <= k < n - 1 implies #[trigger] s[(i + 1) + k] == t[(j + 1) + k] by {
            assert(s[i + (k + 1)] == t[j + (k + 1)]);
        }
        lemma_number_of_same(s, i + 1, t, j + 1, (n - 1) as nat);
    }
}

/// The number of the bytes `t` where they stand in `s` at `i`.
pub proof fn lemma_number_in(s: Seq<u8>, i: int, t: Seq<u8>)
    requires
        0 <= i,
        i + t.len() <= s.len(),
        s.subrange(i, i + t.len()) == t,
    ensures
        number(s, i, t.len()) == number(t, 0, t.len()),
{
    assert forall|k: int| 0 <= k < t.len() implies #[trigger] s[i + k] == t[0 + k] by {
        assert(s.subrange(i, i + t.len())[k] == t[k]);
    }
    lemma_number_of_same(s, i, t, 0, t.len());
}

/// The last of eight bytes counts two to the 56th times.
pub proof fn lemma_eighth_byte(s: Seq<u8>, i: int)
    ensures
        number(s, i, 8) == number(s, i, 7) + 0x0100_0000_0000_0000 * s[i + 7],
        number(s, i, 7) < 0x0100_0000_0000_0000,
{
    reveal_with_fuel(number, 9);
}

/// Writing bytes over others puts them where they were to go, and leaves all others and the length
/// as they were.
pub proof fn law_overwrite(s: Seq<u8>, off: int, patch: Seq<u8>)
    requires
        0 <= off,
        off + patch.len() <= s.len(),
    ensures
        overwrite(s, off, patch) == s.take(off) + patch + s.skip(off + patch.len()),
{
    assert(overwrite(s, off, patch) =~= s.take(off) + patch + s.skip(off + patch.len()));
}

/// Every byte of a run of zeros is zero.
pub proof fn law_zeros(n: nat)
    ensures
        zeros(n).len() == n,
        forall|i: int| 0 <= i < n ==> #[trigger] zeros(n)[i] == 0,
{
}

/// Reads the 16-bit little-endian number at `i`.
pub fn get_u16(data: &[u8], i: usize) -> (r: u16)
    requires
        i + 2 <= data@.len(),
    ensures
        r == u16_at(data@, i as int),
{
    data[i] as u16 + 0x100 * (data[i + 1] as u16)
}

/// Reads the 32-bit little-endian number at `i`.
pub fn get_u32(data: &[u8], i: usize) -> (r: u32)
    requires
        i + 4 <= data@.len(),
    ensures
        r == u32_at(data@, i as int),
{
    data[i] as u32 + 0x100 * (data[i + 1] as u32) + 0x1_0000 * (data[i + 2] as u32) + 0x100_0000 * (
    data[i + 3] as u32)
}

/// Reads the 64-bit little-endian number at `i`.
pub fn get_u64(data: &[u8], i: usize) -> (r: u64)
    requires
        i + 8 <= data@.len(),
    ensures
        r == u64_at(data@, i as int),
{
    let rest = data.len() - i;
    assert(rest >= 8);
    get_u32(data, i) as u64 + 0x1_0000_0000 * (get_u32(data, i + 4) as u64)
}

/// Copies `patch` over `buf` from `off` on.
pub fn put(buf: &mut Vec<u8>, off: usize, patch: &[u8])
    requires
        off + patch@.len() <= old(buf)@.len(),
    ensures
        final(buf)@ == overwrite(old(buf)@, off as int, patch@),
{
    let ghost start = buf@;
    let n: usize = patch.len();
    let end: usize = buf.len();
    let mut k: usize = 0;
    while k < n
        invariant
            k <= n,
            n == patch@.len(),
            end == start.len(),
            off + n <= end,
            buf@ =~= overwrite(start, off as int, patch@.take(k as int)),
        decreases n - k,
    {
        buf.set(off + k, patch[k]);
        k += 1;
    }
    assert(patch@.take(n as int) =~= patch@);
}

/// Copies `n` bytes of `data` from `i` on into a vector.
pub fn slice_vec(data: &[u8], i: usize, n: usize) -> (r: Vec<u8>)
    requires
        i + n <= data@.len(),
    ensures
        r@ == data@.subrange(i as int, i + n),
{
    let mut r: Vec<u8> = Vec::new();
    let end: usize = data.len();
    let mut k: usize = 0;
    while k < n
        invariant
            k <= n,
            end == data@.len(),
            i + n <= end,
            r@ =~= data@.subrange(i as int, i + k),
        decreases n - k,
    {
        r.push(data[i + k]);
        k += 1;
    }
    r
}

/// A vector of `n` zero bytes.
pub fn zero_vec(n: usize) -> (r: Vec<u8>)
    ensures
        r@ == zeros(n as nat),
{
    let r: Vec<u8> = vec![0u8; n];
    assert(r@ =~= zeros(n as nat));
    r
}

/// Appends the bytes of `more` to `buf`.
pub fn push_all(buf: &mut Vec<u8>, more: &[u8])
    ensures
        final(buf)@ == old(buf)@ + more@,
{
    let ghost start = buf@;
    let n: usize = more.len();
    let mut k: usize = 0;
    while k < n
        invariant
            k <= n,
            n == more@.len(),
            buf@ =~= start + more@.take(k as int),
        decreases n - k,
    {
        buf.push(more[k]);
        k += 1;
    }
    assert(more@.take(n as int) =~= more@);
}

/// The two bytes of `v`, low byte first.
pub fn u16_bytes(v: u16) -> (r: Vec<u8>)
    ensures
        r@ == u16_le(v),
{
    let r: Vec<u8> = vec![(v % 0x100) as u8, (v / 0x100) as u8];
    assert(r@ =~= u16_le(v));
    r
}

/// The four bytes of `v`, low byte first.
pub fn u32_bytes(v: u32) -> (r: Vec<u8>)
    ensures
        r@ == u32_le(v),
{
    let r: Vec<u8> = vec![
        (v % 0x100) as u8,
        (v / 0x100 % 0x100) as u8,
        (v / 0x1_0000 % 0x100) as u8,
        (v / 0x100_0000) as u8,
    ];
    assert(r@ =~= u32_le(v));
    r
}

/// The eight bytes of `v`, low byte first.
pub fn u64_bytes(v: u64) -> (r: Vec<u8>)
    ensures
        r@ == u64_le(v),
{
    let mut r = u32_bytes((v % 0x1_0000_0000) as u32);
    let hi = u32_bytes((v / 0x1_0000_0000) as u32);
    push_all(&mut r, &hi);
    r
}

/// Appends the four bytes of a number, low byte first.
pub fn append_u32_le(buf: &mut Vec<u8>, v: u32)
    ensures
        final(buf)@ == old(buf)@ + u32_le(v),
{
    let more = u32_bytes(v);
    push_all(buf, &more);
}

/// Appends the eight bytes of a number, low byte first.
pub fn append_u64_le(buf: &mut Vec<u8>, v: u64)
    ensures
        final(buf)@ == old(buf)@ + u64_le(v),
{
    let more = u64_bytes(v);
    push_all(buf, &more);
}

} // verus!
