//! Checking a file against its SHA-1 checksum.

use crate::text;
use sha1::Digest;
use vstd::prelude::*;

verus! {

/// How many bytes are hashed or transferred at a time.
pub const CHUNK_SIZE: usize = 262_144;

/// A SHA-1 checksum in the making. It holds a `sha1::Sha1`.
#[verifier::external_body]
pub struct Sha1Stream {
    hasher: sha1::Sha1,
}

/// The bytes that went into a checksum so far.
pub uninterp spec fn hashed(s: Sha1Stream) -> Seq<u8>;

/// The SHA-1 checksum of `data`.
pub uninterp spec fn sha1_of(data: Seq<u8>) -> Seq<u8>;

impl Sha1Stream {
    /// `Digest::new` of sha1: nothing has gone into the checksum.
    #[verifier::external_body]
    fn new() -> (r: Sha1Stream)
        ensures
            hashed(r) == Seq::<u8>::empty(),
    {
        Sha1Stream { hasher: sha1::Sha1::new() }
    }

    /// `Digest::update` of sha1: the bytes go into the checksum behind those before.
    #[verifier::external_body]
    fn update(&mut self, data: &[u8])
        ensures
            hashed(*final(self)) == hashed(*old(self)) + data@,
    {
        self.hasher.update(data);
    }

    /// `Digest::finalize` of sha1: the twenty bytes of the checksum. They are a function of what
    /// went into it, named `sha1_of`.
    #[verifier::external_body]
    fn finish(self) -> (r: Vec<u8>)
        ensures
            r@ == sha1_of(hashed(self)),
            r@.len() == 20,
    {
        self.hasher.finalize().to_vec()
    }
}

/// A checksum is the one that is expected, written in hexadecimal digits of either case.
pub open spec fn is_expected(checksum: Seq<u8>, expected: Seq<char>) -> bool {
    text::same_ignoring_case(text::hex(checksum), expected)
}

/// Whether a checksum is the one that is expected.
pub fn checksum_matches(checksum: &[u8], expected: &str) -> (r: bool)
    ensures
        r == is_expected(checksum@, expected@),
{
    let hex = text::hex_text(checksum);
    text::eq_ignore_ascii_case(hex.as_str(), expected)
}

/// A file that is checked piece by piece.
pub struct FileCheck {
    stream: Sha1Stream,
}

impl View for FileCheck {
    type V = Seq<u8>;

    closed spec fn view(&self) -> Seq<u8> {
        hashed(self.stream)
    }
}

impl FileCheck {
    /// A check that has seen nothing of the file.
    pub fn begin() -> (r: FileCheck)
        ensures
            r@ == Seq::<u8>::empty(),
    {
        FileCheck { stream: Sha1Stream::new() }
    }

    /// Goes on with the next piece of the file.
    pub fn feed(&mut self, piece: &[u8])
        ensures
            final(self)@ == old(self)@ + piece@,
    {
        self.stream.update(piece);
    }

    /// Whether the checksum of what was fed is the one that is expected.
    pub fn matches(self, expected: &str) -> (r: bool)
        ensures
            r == is_expected(sha1_of(self@), expected@),
    {
        let checksum = self.stream.finish();
        checksum_matches(&checksum, expected)
    }
}

/// Whether the checksum of `data` is the one that is expected.
pub fn verify_sha1(data: &[u8], expected: &str) -> (r: bool)
    ensures
        r == is_expected(sha1_of(data@), expected@),
{
    let n: usize = data.len();
    let mut check = FileCheck::begin();
    let mut i: usize = 0;
    assert(data@.take(0) =~= Seq::empty());
    while i < n
        invariant
            i <= n,
            n == data@.len(),
            check@ == data@.take(i as int),
        decreases n - i,
    {
        let step: usize = if n - i < CHUNK_SIZE {
            n - i
        } else {
            CHUNK_SIZE
        };
        check.feed(&data[i..i + step]);
        assert(data@.take(i as int) + data@.subrange(i as int, i + step) =~= data@.take(i + step));
        i += step;
    }
    assert(data@.take(n as int) =~= data@);
    check.matches(expected)
}

/// A checksum is the expected one if and only if that has two characters for each of its bytes, and
/// these are the byte in hexadecimal digits of either case; so no two checksums are taken for the
/// same.
pub proof fn law_expected(a: Seq<u8>, b: Seq<u8>, expected: Seq<char>)
    ensures
        is_expected(a, text::hex(a)),
        is_expected(a, expected) <==> text::same_ignoring_case(text::hex(a), expected),
        is_expected(a, expected) ==> expected.len() == 2 * a.len(),
        is_expected(a, expected) && is_expected(b, expected) ==> a == b,
{
    if is_expected(a, expected) && is_expected(b, expected) {
        assert(text::hex(a).len() == 2 * a.len());
        assert(text::hex(b).len() == 2 * b.len());
        assert forall|i: int| 0 <= i < a.len() implies a[i] == b[i] by {
            lemma_same_digit(a, b, expected, i);
        }
        assert(a =~= b);
    }
}

proof fn lemma_same_digit(a: Seq<u8>, b: Seq<u8>, expected: Seq<char>, i: int)
    requires
        is_expected(a, expected),
        is_expected(b, expected),
        0 <= i < a.len(),
        a.len() == b.len(),
    ensures
        a[i] == b[i],
{
    let x = text::hex(a);
    let y = text::hex(b);
    text::law_hex(a, i);
    text::law_hex(b, i);
    assert(text::ascii_lower(x[2 * i]) == text::ascii_lower(expected[2 * i]));
    assert(text::ascii_lower(y[2 * i]) == text::ascii_lower(expected[2 * i]));
    assert(text::ascii_lower(x[2 * i + 1]) == text::ascii_lower(expected[2 * i + 1]));
    assert(text::ascii_lower(y[2 * i + 1]) == text::ascii_lower(expected[2 * i + 1]));
    assert(x[2 * i] == y[2 * i]);
    assert(x[2 * i + 1] == y[2 * i + 1]);
    assert(a[i] / 16 == b[i] / 16);
    assert(a[i] % 16 == b[i] % 16);
}

} // verus!
