//! Reading from a file that is held in memory.

use crate::bytes;
use crate::error;
use crate::error::{Error, Result};
use vstd::prelude::*;

verus! {

/// How many bytes are copied at a time.
pub const COPY_CHUNK: usize = 1_048_576;

/// The `n` bytes of `s` from `off` on, where `s` holds them; nothing is asked of `off` where
/// no bytes are.
pub open spec fn bytes_at(s: Seq<u8>, off: int, n: int) -> Option<Seq<u8>> {
    if n == 0 {
        Some(Seq::empty())
    } else if off + n <= s.len() {
        Some(s.subrange(off, off + n))
    } else {
        None
    }
}

/// A file that ends before what it should hold.
pub open spec fn cut_short() -> error::ErrorView {
    error::ErrorView::Io("failed to fill whole buffer"@)
}

/// The error of a file that ends too early.
pub fn cut_short_error() -> (r: Error)
    ensures
        r@ == cut_short(),
{
    Error::Io("failed to fill whole buffer".to_owned())
}

/// Reads `n` bytes from `off` on.
pub fn read_exact_at(source: &[u8], off: u64, n: u64) -> (r: Result<Vec<u8>>)
    ensures
        match r {
            Ok(v) => bytes_at(source@, off as int, n as int) == Some(v@),
            Err(e) => bytes_at(source@, off as int, n as int) is None && e@ == cut_short(),
        },
{
    if n == 0 {
        let v: Vec<u8> = Vec::new();
        assert(v@ =~= Seq::<u8>::empty());
        return Ok(v);
    }
    let len: u64 = source.len() as u64;
    if off <= len && n <= len - off {
        Ok(bytes::slice_vec(source, off as usize, n as usize))
    } else {
        Err(cut_short_error())
    }
}

/// What is copied where `size` bytes from `off` on are wanted: those bytes, or, where the
/// source ends before them, those of their chunks that the source holds.
pub open spec fn copied_bytes(source: Seq<u8>, off: int, size: int) -> Seq<u8> {
    match bytes_at(source, off, size) {
        Some(b) => b,
        None => if off < source.len() {
            source.subrange(off, off + (source.len() - off) / COPY_CHUNK as int * COPY_CHUNK)
        } else {
            Seq::empty()
        },
    }
}

/// Copies `size` bytes from `off` on, chunk after chunk, as far as the source goes.
pub fn copy_range(source: &[u8], off: u64, size: u64, writer: &mut Vec<u8>) -> (r: bool)
    ensures
        r == (bytes_at(source@, off as int, size as int) is Some),
        final(writer)@ == old(writer)@ + copied_bytes(source@, off as int, size as int),
{
    let ghost start = writer@;
    let len: u64 = source.len() as u64;
    assert(writer@ =~= start + Seq::<u8>::empty());
    if size == 0 {
        return true;
    }
    if off > len {
        return false;
    }
    let avail: u64 = len - off;
    let mut done: u64 = 0;
    assert(source@.subrange(off as int, off as int) =~= Seq::<u8>::empty());
    while done < size
        invariant
            done <= size,
            len == source@.len(),
            len <= usize::MAX,
            off + avail == len,
            done <= avail,
            size > 0,
            done == size || done % COPY_CHUNK as u64 == 0,
            writer@ == start + source@.subrange(off as int, off + done),
            start == old(writer)@,
        decreases size - done,
    {
        let rest: u64 = size - done;
        let chunk: u64 = if rest < COPY_CHUNK as u64 {
            rest
        } else {
            COPY_CHUNK as u64
        };
        if avail - done < chunk {
            proof {
                assert(done as int / COPY_CHUNK as int * COPY_CHUNK == done);
                assert(avail as int / COPY_CHUNK as int == done as int / COPY_CHUNK as int);
                if off == len {
                    assert(source@.subrange(off as int, off as int) =~= Seq::<u8>::empty());
                }
            }
            return false;
        }
        let piece = bytes::slice_vec(source, (off + done) as usize, chunk as usize);
        bytes::push_all(writer, &piece);
        assert(source@.subrange(off as int, off + done) + source@.subrange(
            off + done,
            off + done + chunk,
        ) =~= source@.subrange(off as int, off + done + chunk));
        done += chunk;
    }
    true
}

// ---------------------------------------------------------------------------
// Several ranges, one after another
// ---------------------------------------------------------------------------
/// The places that a list of ranges covers, in order; a range is an offset and a length.
pub open spec fn places(runs: Seq<(u64, u64)>) -> Seq<int>
    decreases runs.len(),
{
    if runs.len() == 0 {
        Seq::empty()
    } else {
        Seq::new(runs[0].1 as nat, |i: int| runs[0].0 + i) + places(runs.skip(1))
    }
}

/// The file holds the range.
pub open spec fn holds(s: Seq<u8>, run: (u64, u64)) -> bool {
    bytes_at(s, run.0 as int, run.1 as int) is Some
}

/// The file holds all ranges.
pub open spec fn holds_all(s: Seq<u8>, runs: Seq<(u64, u64)>) -> bool {
    forall|k: int| 0 <= k < runs.len() ==> holds(s, #[trigger] runs[k])
}

/// What is copied for a list of ranges, up to and with the first that the file cuts short.
pub open spec fn copied_runs(s: Seq<u8>, runs: Seq<(u64, u64)>) -> Seq<u8>
    decreases runs.len(),
{
    if runs.len() == 0 {
        Seq::empty()
    } else {
        let b = copied_bytes(s, runs[0].0 as int, runs[0].1 as int);
        if holds(s, runs[0]) {
            b + copied_runs(s, runs.skip(1))
        } else {
            b
        }
    }
}

/// The bytes of the ranges before the first that the file cuts short.
pub open spec fn whole_runs(s: Seq<u8>, runs: Seq<(u64, u64)>) -> Seq<u8>
    decreases runs.len(),
{
    if runs.len() == 0 {
        Seq::empty()
    } else {
        match bytes_at(s, runs[0].0 as int, runs[0].1 as int) {
            None => Seq::empty(),
            Some(b) => b + whole_runs(s, runs.skip(1)),
        }
    }
}

/// Where the file holds all ranges, they give the bytes at their places.
pub proof fn lemma_runs(s: Seq<u8>, runs: Seq<(u64, u64)>)
    requires
        holds_all(s, runs),
    ensures
        copied_runs(s, runs) == places(runs).map_values(|p: int| s[p]),
        whole_runs(s, runs) == places(runs).map_values(|p: int| s[p]),
    decreases runs.len(),
{
    let f = |p: int| s[p];
    if runs.len() == 0 {
        assert(copied_runs(s, runs) =~= places(runs).map_values(f));
        assert(whole_runs(s, runs) =~= places(runs).map_values(f));
    } else {
        let rest = runs.skip(1);
        assert forall|k: int| 0 <= k < rest.len() implies holds(s, #[trigger] rest[k]) by {
            assert(rest[k] == runs[k + 1]);
        }
        lemma_runs(s, rest);
        assert(holds(s, runs[0]));
        let here = Seq::new(runs[0].1 as nat, |i: int| runs[0].0 + i);
        let b = bytes_at(s, runs[0].0 as int, runs[0].1 as int)->0;
        assert(b =~= here.map_values(f));
        assert((here + places(rest)).map_values(f) =~= here.map_values(f) + places(
            rest,
        ).map_values(f));
    }
}

/// The file holds a list of ranges where it holds the first and the others.
pub proof fn lemma_holds_first(s: Seq<u8>, runs: Seq<(u64, u64)>)
    requires
        runs.len() > 0,
    ensures
        holds_all(s, runs) <==> holds(s, runs[0]) && holds_all(s, runs.skip(1)),
{
    let rest = runs.skip(1);
    if holds_all(s, runs) {
        assert forall|k: int| 0 <= k < rest.len() implies holds(s, #[trigger] rest[k]) by {
            assert(rest[k] == runs[k + 1]);
        }
    }
    if holds(s, runs[0]) && holds_all(s, rest) {
        assert forall|k: int| 0 <= k < runs.len() implies holds(s, #[trigger] runs[k]) by {
            if k > 0 {
                assert(rest[k - 1] == runs[k]);
            }
        }
    }
}

/// Copies a list of ranges as far as the file goes.
pub fn copy_runs(source: &[u8], runs: &[(u64, u64)], writer: &mut Vec<u8>) -> (r: Result<()>)
    ensures
        r is Ok <==> holds_all(source@, runs@),
        r is Err ==> r->Err_0@ == cut_short(),
        final(writer)@ == old(writer)@ + copied_runs(source@, runs@),
{
    let n: usize = runs.len();
    let mut k: usize = 0;
    let ghost start = writer@;
    let ghost all = runs@;
    assert(all.skip(0) =~= all);
    while k < n
        invariant
            k <= n,
            n == all.len(),
            all == runs@,
            start == old(writer)@,
            writer@ + copied_runs(source@, all.skip(k as int)) == start + copied_runs(
                source@,
                all,
            ),
            holds_all(source@, all) <==> holds_all(source@, all.skip(k as int)),
        decreases n - k,
    {
        let (off, size) = runs[k];
        let ghost rest = all.skip(k as int);
        let ghost before = writer@;
        let whole = copy_range(source, off, size, writer);
        proof {
            assert(rest[0] == runs@[k as int]);
            assert(rest.skip(1) =~= all.skip(k + 1));
            lemma_holds_first(source@, rest);
        }
        if !whole {
            return Err(cut_short_error());
        }
        assert(writer@ + copied_runs(source@, all.skip(k + 1)) =~= before + copied_runs(
            source@,
            rest,
        ));
        k += 1;
    }
    assert(writer@ + copied_runs(source@, all.skip(n as int)) =~= writer@);
    Ok(())
}

/// Reads a list of ranges, one behind the other, into the beginning of a buffer.
pub fn read_runs(source: &[u8], runs: &[(u64, u64)], buf: &mut Vec<u8>) -> (r: Result<usize>)
    requires
        places(runs@).len() <= old(buf)@.len(),
    ensures
        match r {
            Ok(n) => holds_all(source@, runs@) && n == places(runs@).len(),
            Err(e) => !holds_all(source@, runs@) && e@ == cut_short(),
        },
        final(buf)@ == bytes::overwrite(old(buf)@, 0, whole_runs(source@, runs@)),
{
    let n: usize = runs.len();
    let total: usize = buf.len();
    let mut k: usize = 0;
    let mut at: usize = 0;
    let ghost start = buf@;
    let ghost all = runs@;
    let ghost mut read: Seq<u8> = Seq::empty();
    assert(all.skip(0) =~= all);
    assert(read + whole_runs(source@, all) =~= whole_runs(source@, all));
    assert(bytes::overwrite(start, 0, read) =~= start);
    while k < n
        invariant
            k <= n,
            n == all.len(),
            all == runs@,
            start == old(buf)@,
            total == start.len(),
            buf@.len() == total,
            at == read.len(),
            at + places(all.skip(k as int)).len() == places(all).len(),
            places(all).len() <= total,
            read + whole_runs(source@, all.skip(k as int)) == whole_runs(source@, all),
            buf@ == bytes::overwrite(start, 0, read),
            holds_all(source@, all) <==> holds_all(source@, all.skip(k as int)),
        decreases n - k,
    {
        let (off, size) = runs[k];
        let ghost rest = all.skip(k as int);
        proof {
            assert(rest[0] == runs@[k as int]);
            assert(rest.skip(1) =~= all.skip(k + 1));
            lemma_holds_first(source@, rest);
        }
        match read_exact_at(source, off, size) {
            Err(e) => {
                assert(read + Seq::<u8>::empty() =~= read);
                return Err(e);
            },
            Ok(piece) => {
                bytes::put(buf, at, &piece);
                proof {
                    assert(read + (piece@ + whole_runs(source@, all.skip(k + 1))) =~= (read
                        + piece@) + whole_runs(source@, all.skip(k + 1)));
                    assert(buf@ =~= bytes::overwrite(start, 0, read + piece@));
                    read = read + piece@;
                }
                at += piece.len();
            },
        }
        k += 1;
    }
    assert(read + whole_runs(source@, all.skip(n as int)) =~= read);
    Ok(at)
}

// ---------------------------------------------------------------------------
// What holds of them
// ---------------------------------------------------------------------------
/// Bytes can be read if and only if the file has as many there, or none are wanted; they are those of
/// the file from that place on.
pub proof fn law_read(s: Seq<u8>, off: int, n: int, i: int)
    requires
        0 <= off,
        0 <= n,
    ensures
        bytes_at(s, off, n) is Some <==> n == 0 || off + n <= s.len(),
        bytes_at(s, off, n) matches Some(b) ==> b.len() == n && (0 <= i < n ==> b[i] == s[off + i]),
        cut_short() == error::ErrorView::Io("failed to fill whole buffer"@),
{
}

/// What is copied of a range are the bytes of the file from its start on: all of the range where the
/// file has it, else as many pieces of one mebibyte as the file still has.
pub proof fn law_copied(s: Seq<u8>, off: int, size: int, i: int)
    requires
        0 <= off,
        0 <= size,
    ensures
        ({
            let c = copied_bytes(s, off, size);
            &&& 0 <= i < c.len() ==> c[i] == s[off + i]
            &&& off + size <= s.len() ==> c.len() == size
            &&& off + size > s.len() && size > 0 && off < s.len() ==> c.len() <= s.len() - off
                < c.len() + 1048576 && c.len() % 1048576 == 0
            &&& off >= s.len() ==> c.len() == 0
        }),
{
    if off < s.len() {
        let left = s.len() - off;
        assert(left / 1048576 * 1048576 <= left < left / 1048576 * 1048576 + 1048576);
        assert((left / 1048576 * 1048576) % 1048576 == 0);
    }
}

/// Ranges are read or copied one after another, up to the first that the file does not have.
pub proof fn law_ranges(s: Seq<u8>, run: (u64, u64), rest: Seq<(u64, u64)>)
    ensures
        ({
            let all = seq![run] + rest;
            let first = bytes_at(s, run.0 as int, run.1 as int);
            &&& places(all) == Seq::new(run.1 as nat, |i: int| run.0 + i) + places(rest)
            &&& holds_all(s, all) <==> first is Some && holds_all(s, rest)
            &&& match first {
                Some(b) => copied_runs(s, all) == b + copied_runs(s, rest) && whole_runs(s, all) == b
                    + whole_runs(s, rest),
                None => copied_runs(s, all) == copied_bytes(s, run.0 as int, run.1 as int)
                    && whole_runs(s, all).len() == 0,
            }
        }),
        holds_all(s, Seq::empty()),
        copied_runs(s, Seq::empty()).len() == 0,
        whole_runs(s, Seq::empty()).len() == 0,
        places(Seq::empty()).len() == 0,
{
    let all = seq![run] + rest;
    assert(all.skip(1) =~= rest);
    assert(all[0] == run);
    if holds_all(s, all) {
        assert(holds(s, all[0]));
        assert forall|k: int| 0 <= k < rest.len() implies holds(s, #[trigger] rest[k]) by {
            assert(all[k + 1] == rest[k]);
        }
    }
    if holds(s, run) && holds_all(s, rest) {
        assert forall|k: int| 0 <= k < all.len() implies holds(s, #[trigger] all[k]) by {
            if k > 0 {
                assert(all[k] == rest[k - 1]);
            }
        }
    }
}

} // verus!
