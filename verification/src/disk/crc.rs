//! The checksum of a GUID partition table.

use vstd::prelude::*;

verus! {

/// One bit of the remainder is shifted out; where it is set, the polynomial is taken off.
pub open spec fn crc_bit(crc: u32) -> u32 {
    if crc & 1 != 0 {
        (crc >> 1) ^ 0xEDB8_8320
    } else {
        crc >> 1
    }
}

/// `n` bits of the remainder are shifted out.
pub open spec fn crc_bits(crc: u32, n: nat) -> u32
    decreases n,
{
    if n == 0 {
        crc
    } else {
        crc_bit(crc_bits(crc, (n - 1) as nat))
    }
}

/// The remainder after the bytes of `data`.
pub open spec fn crc_rest(data: Seq<u8>) -> u32
    decreases data.len(),
{
    if data.len() == 0 {
        0xFFFF_FFFF
    } else {
        crc_bits(crc_rest(data.drop_last()) ^ (data.last() as u32), 8)
    }
}

/// The CRC-32 of `data`, with the reflected polynomial of IEEE 802.3.
pub open spec fn crc_of(data: Seq<u8>) -> u32 {
    !crc_rest(data)
}

/// Data with their checksum behind them, low byte first, have one and the same checksum, whatever
/// they are; no data at all have the checksum zero.
pub proof fn law_checksum_checks(data: Seq<u8>, a: u8, b: u8, c: u8, d: u8)
    requires
        crc_of(data) == a + 0x100 * b + 0x1_0000 * c + 0x100_0000 * d,
    ensures
        crc_of(data + seq![a, b, c, d]) == 0x2144_DF1C,
        crc_of(Seq::empty()) == 0,
{
    let r = crc_rest(data);
    let sum = !r;
    let (wa, wb, wc, wd) = (a as u32, b as u32, c as u32, d as u32);
    assert(sum == wa + 0x100 * wb + 0x1_0000 * wc + 0x100_0000 * wd);
    let d0 = data + seq![a, b, c, d];
    let d1 = d0.drop_last();
    let d2 = d1.drop_last();
    let d3 = d2.drop_last();
    assert(d3.drop_last() =~= data);
    assert(d3.last() == a && d2.last() == b && d1.last() == c && d0.last() == d);
    let x1 = crc_rest(d3);
    let x2 = crc_rest(d2);
    let x3 = crc_rest(d1);
    let x4 = crc_rest(d0);
    assert(r ^ wa == (r & 0xFFFF_FF00) | 0xFF) by (bit_vector)
        requires
            !r == wa + 0x100 * wb + 0x1_0000 * wc + 0x100_0000 * wd,
            wa < 0x100,
            wb < 0x100,
            wc < 0x100,
            wd < 0x100,
    ;
    lemma_eight_bits(r ^ wa);
    assert(x1 == (r >> 8) ^ 0x2D02_EF8D) by (bit_vector)
        requires
            x1 == eight_bits((r & 0xFFFF_FF00) | 0xFF),
    ;
    assert(x1 ^ wb == ((r >> 8) & 0xFFFF_FF00 ^ 0x2D02_EF00) | 0x72) by (bit_vector)
        requires
            x1 == (r >> 8) ^ 0x2D02_EF8D,
            !r == wa + 0x100 * wb + 0x1_0000 * wc + 0x100_0000 * wd,
            wa < 0x100,
            wb < 0x100,
            wc < 0x100,
            wd < 0x100,
    ;
    lemma_eight_bits(x1 ^ wb);
    assert(x2 == (r >> 16) ^ 0xBE26_12FF) by (bit_vector)
        requires
            x2 == eight_bits(((r >> 8) & 0xFFFF_FF00 ^ 0x2D02_EF00) | 0x72),
    ;
    assert(x2 ^ wc == ((r >> 16) & 0xFFFF_FF00 ^ 0xBE26_1200)) by (bit_vector)
        requires
            x2 == (r >> 16) ^ 0xBE26_12FF,
            !r == wa + 0x100 * wb + 0x1_0000 * wc + 0x100_0000 * wd,
            wa < 0x100,
            wb < 0x100,
            wc < 0x100,
            wd < 0x100,
    ;
    lemma_eight_bits(x2 ^ wc);
    assert(x3 == (r >> 24) ^ 0x00BE_2612) by (bit_vector)
        requires
            x3 == eight_bits((r >> 16) & 0xFFFF_FF00 ^ 0xBE26_1200),
    ;
    assert(x3 ^ wd == 0x00BE_26ED) by (bit_vector)
        requires
            x3 == (r >> 24) ^ 0x00BE_2612,
            !r == wa + 0x100 * wb + 0x1_0000 * wc + 0x100_0000 * wd,
            wa < 0x100,
            wb < 0x100,
            wc < 0x100,
            wd < 0x100,
    ;
    lemma_eight_bits(x3 ^ wd);
    assert(eight_bits(0x00BE_26ED) == 0xDEBB_20E3) by (bit_vector);
    assert(!0xDEBB_20E3u32 == 0x2144_DF1C) by (bit_vector);
    assert(!0xFFFF_FFFFu32 == 0) by (bit_vector);
}

/// Eight bits of the remainder are shifted out.
spec fn eight_bits(crc: u32) -> u32 {
    crc_bit(crc_bit(crc_bit(crc_bit(crc_bit(crc_bit(crc_bit(crc_bit(crc))))))))
}

proof fn lemma_eight_bits(crc: u32)
    ensures
        crc_bits(crc, 8) == eight_bits(crc),
{
    reveal_with_fuel(crc_bits, 9);
}

/// The CRC-32 of `data`.
pub fn crc32(data: &[u8]) -> (r: u32)
    ensures
        r == crc_of(data@),
{
    let n: usize = data.len();
    let mut crc: u32 = 0xFFFF_FFFF;
    let mut i: usize = 0;
    assert(data@.take(0) =~= Seq::empty());
    while i < n
        invariant
            i <= n,
            n == data@.len(),
            crc == crc_rest(data@.take(i as int)),
        decreases n - i,
    {
        crc = crc ^ (data[i] as u32);
        let ghost first = crc;
        let mut k: u32 = 0;
        while k < 8
            invariant
                k <= 8,
                crc == crc_bits(first, k as nat),
            decreases 8 - k,
        {
            if crc & 1 != 0 {
                crc = (crc >> 1) ^ 0xEDB8_8320;
            } else {
                crc = crc >> 1;
            }
            k += 1;
        }
        assert(data@.take(i + 1).drop_last() =~= data@.take(i as int));
        i += 1;
    }
    assert(data@.take(n as int) =~= data@);
    !crc
}

} // verus!
