//! The names of files in an image.

use crate::text;
use vstd::prelude::*;
use vstd::string::*;
use vstd::utf8;

verus! {

/// The first of a pair of surrogates.
pub open spec fn is_high(u: u16) -> bool {
    0xD800 <= u <= 0xDBFF
}

/// The second of a pair of surrogates.
pub open spec fn is_low(u: u16) -> bool {
    0xDC00 <= u <= 0xDFFF
}

/// The text that UTF-16 code units write; a surrogate without its other half becomes the
/// replacement character.
pub open spec fn utf16_lossy(u: Seq<u16>) -> Seq<char>
    decreases u.len(),
{
    if u.len() == 0 {
        Seq::empty()
    } else if is_high(u[0]) && u.len() > 1 && is_low(u[1]) {
        seq![(0x1_0000 + (u[0] - 0xD800) * 0x400 + (u[1] - 0xDC00)) as char] + utf16_lossy(
            u.skip(2),
        )
    } else if is_high(u[0]) || is_low(u[0]) {
        seq!['\u{FFFD}'] + utf16_lossy(u.skip(1))
    } else {
        seq![u[0] as char] + utf16_lossy(u.skip(1))
    }
}

/// The big-endian 16-bit numbers in `data`; a last odd byte is a number of its own.
pub open spec fn units_be(data: Seq<u8>) -> Seq<u16> {
    Seq::new(
        ((data.len() + 1) / 2) as nat,
        |i: int|
            if 2 * i + 1 < data.len() {
                (data[2 * i] * 0x100 + data[2 * i + 1]) as u16
            } else {
                data[2 * i] as u16
            },
    )
}

/// The text of bytes that should be UTF-8, with replacements where they are not.
pub uninterp spec fn utf8_lossy(data: Seq<u8>) -> Seq<char>;

/// The text of bytes that should be UTF-8: where they are, what they write.
pub open spec fn utf8_text(data: Seq<u8>) -> Seq<char> {
    if utf8::valid_utf8(data) {
        utf8::decode_utf8(data)
    } else {
        utf8_lossy(data)
    }
}

/// The name in a record whose names are big-endian UCS-2, without its version.
pub open spec fn ucs2_name(data: Seq<u8>) -> Seq<char> {
    text::before_last(utf16_lossy(units_be(data)), ';')
}

/// The name in a record whose names are bytes, without its version.
pub open spec fn plain_name(data: Seq<u8>) -> Seq<char> {
    text::before_last(utf8_text(data), ';')
}

/// The name that an identifier holds whose first byte tells how the rest is written.
pub open spec fn udf_name(data: Seq<u8>) -> Seq<char> {
    if data.len() == 0 {
        Seq::empty()
    } else if data[0] == 16 {
        utf16_lossy(units_be(data.skip(1)))
    } else if data[0] == 8 {
        utf8_text(data.skip(1))
    } else {
        utf8_text(data)
    }
}

/// The path of what is called `name` in the directory `prefix`.
pub open spec fn child_path(prefix: Seq<char>, name: Seq<char>) -> Seq<char> {
    if prefix.len() == 0 {
        name
    } else {
        prefix + "/"@ + name
    }
}

/// Bytes that are ASCII give the characters with these numbers.
pub proof fn law_ascii_text(data: Seq<u8>)
    requires
        forall|i: int| 0 <= i < data.len() ==> #[trigger] data[i] < 0x80,
    ensures
        utf8_text(data) == data.map_values(|b: u8| b as char),
{
    let c = data.map_values(|b: u8| b as char);
    assert(utf8::is_ascii_chars(c));
    utf8::is_ascii_chars_encode_utf8(c);
    assert(utf8::encode_utf8(c) =~= data);
    utf8::encode_utf8_valid_utf8(c);
    utf8::encode_utf8_decode_utf8(c);
}

/// An identifier of ASCII characters gives these as they are, without the first byte where that
/// tells that bytes follow.
pub proof fn law_ascii_udf_name(data: Seq<u8>)
    requires
        forall|i: int| 0 <= i < data.len() ==> #[trigger] data[i] < 0x80,
        data.len() > 0,
        data[0] != 16,
    ensures
        udf_name(data) == if data[0] == 8 {
            data.skip(1).map_values(|b: u8| b as char)
        } else {
            data.map_values(|b: u8| b as char)
        },
{
    law_ascii_text(data);
    law_ascii_text(data.skip(1));
}

/// `char::from_u32` gives the character with that number, where there is one.
pub assume_specification[ char::from_u32 ](i: u32) -> (r: Option<char>)
    ensures
        r == if i <= 0xD7FF || 0xE000 <= i <= 0x10FFFF {
            Some(i as char)
        } else {
            None
        },
;

/// `String::from_utf8_lossy`: the text is a function of the bytes, named `utf8_lossy`; bytes
/// that are valid UTF-8 give the text that they write.
#[verifier::external_body]
pub(crate) fn from_utf8_lossy(data: &[u8]) -> (r: String)
    ensures
        r@ == utf8_lossy(data@),
        utf8::valid_utf8(data@) ==> r@ == utf8::decode_utf8(data@),
{
    String::from_utf8_lossy(data).into_owned()
}

/// Decodes UTF-16 code units.
pub fn from_utf16_lossy(u: &[u16]) -> (r: String)
    ensures
        r@ == utf16_lossy(u@),
{
    let n: usize = u.len();
    let mut r = String::new();
    let mut i: usize = 0;
    assert(u@.skip(0) =~= u@);
    assert(Seq::<char>::empty() + utf16_lossy(u@) =~= utf16_lossy(u@));
    while i < n
        invariant
            i <= n,
            n == u@.len(),
            r@ + utf16_lossy(u@.skip(i as int)) == utf16_lossy(u@),
        decreases n - i,
    {
        let ghost rest = u@.skip(i as int);
        let ghost before = r@;
        let a: u16 = u[i];
        let high: bool = 0xD800 <= a && a <= 0xDBFF;
        let low: bool = 0xDC00 <= a && a <= 0xDFFF;
        assert(rest.len() == n - i);
        assert(rest[0] == a);
        assert(rest.skip(1) =~= u@.skip(i + 1));
        if high && i + 1 < n && 0xDC00 <= u[i + 1] && u[i + 1] <= 0xDFFF {
            let b: u16 = u[i + 1];
            assert(rest[1] == b);
            assert(rest.skip(2) =~= u@.skip(i + 2));
            let code: u32 = 0x1_0000 + (a as u32 - 0xD800) * 0x400 + (b as u32 - 0xDC00);
            let c: char = char::from_u32(code).unwrap();
            r.push(c);
            proof {
                assert(code == 0x1_0000 + (rest[0] - 0xD800) * 0x400 + (rest[1] - 0xDC00));
                assert(r@ + utf16_lossy(u@.skip(i + 2)) =~= before + utf16_lossy(rest));
            }
            i += 2;
        } else {
            let c: char = if high || low {
                '\u{FFFD}'
            } else {
                char::from_u32(a as u32).unwrap()
            };
            r.push(c);
            assert(r@ + utf16_lossy(u@.skip(i + 1)) =~= before + utf16_lossy(rest));
            i += 1;
        }
    }
    assert(r@ + utf16_lossy(u@.skip(i as int)) =~= r@);
    r
}

/// Reads big-endian 16-bit numbers.
fn be_units(data: &[u8]) -> (r: Vec<u16>)
    ensures
        r@ == units_be(data@),
{
    let n: usize = data.len();
    let mut r: Vec<u16> = Vec::new();
    let mut i: usize = 0;
    while i < n
        invariant
            n == data@.len(),
            i == 2 * r@.len() || i == n && n % 2 == 1 && r@.len() == (n + 1) / 2,
            i <= n,
            forall|k: int| 0 <= k < r@.len() ==> #[trigger] r@[k] == units_be(data@)[k],
        decreases n - i,
    {
        if n - i >= 2 {
            r.push(data[i] as u16 * 0x100 + data[i + 1] as u16);
            i += 2;
        } else {
            r.push(data[i] as u16);
            i += 1;
        }
    }
    assert(r@ =~= units_be(data@));
    r
}

/// Decodes a name of big-endian UCS-2 and takes its version off.
pub fn decode_ucs2_be(data: &[u8]) -> (r: String)
    requires
        data@.len() % 2 == 0,
    ensures
        r@ == ucs2_name(data@),
{
    let units = be_units(data);
    let name = from_utf16_lossy(&units);
    strip_version(name.as_str())
}

/// Decodes a name of bytes and takes its version off.
pub fn decode_plain(data: &[u8]) -> (r: String)
    ensures
        r@ == plain_name(data@),
        utf8::valid_utf8(data@) ==> r@ == text::before_last(utf8::decode_utf8(data@), ';'),
{
    let name = from_utf8_lossy(data);
    strip_version(name.as_str())
}

/// Decodes an identifier whose first byte tells how the rest is written.
pub fn decode_udf_name(data: &[u8]) -> (r: String)
    ensures
        r@ == udf_name(data@),
        data@.len() > 0 && data@[0] == 8 && utf8::valid_utf8(data@.skip(1)) ==> r@
            == utf8::decode_utf8(data@.skip(1)),
        data@.len() > 0 && data@[0] != 8 && data@[0] != 16 && utf8::valid_utf8(data@) ==> r@
            == utf8::decode_utf8(data@),
{
    let n: usize = data.len();
    if n == 0 {
        return String::new();
    }
    let rest: &[u8] = &data[1..n];
    assert(rest@ =~= data@.skip(1));
    if data[0] == 16 {
        let units = be_units(rest);
        from_utf16_lossy(&units)
    } else if data[0] == 8 {
        from_utf8_lossy(rest)
    } else {
        from_utf8_lossy(data)
    }
}

/// Takes the version, the last semicolon and what follows it, off a name.
pub fn strip_version(s: &str) -> (r: String)
    ensures
        r@ == text::before_last(s@, ';'),
{
    text::cut_at_last(s, ';')
}

/// The path of what is called `name` in the directory `prefix`.
pub fn join_path(prefix: &str, name: &str) -> (r: String)
    ensures
        r@ == child_path(prefix@, name@),
{
    if prefix.is_empty() {
        name.to_owned()
    } else {
        text::concat3(prefix, "/", name)
    }
}

} // verus!
