//! What becomes of a download: skipped, resumed, or made anew.

use crate::download::hash;
use crate::text;
use vstd::prelude::*;

verus! {

// ---------------------------------------------------------------------------
// A file that is there already
// ---------------------------------------------------------------------------
/// What a file that should be downloaded is, before the download.
#[derive(Debug, Clone, Copy, PartialEq, Eq, Structural)]
pub enum Existing {
    /// Not there.
    Missing,
    /// There, and nothing is known against it: the download is skipped.
    Unchecked,
    /// There, with the right checksum: the download is skipped.
    Verified,
    /// There, with a wrong checksum, or unreadable: it becomes the partial file, and the download
    /// is resumed.
    Mismatch,
}

/// What a file is, given whether it is there, whether a checksum is known, and whether the file
/// has it.
pub open spec fn existing(there: bool, known: bool, matches: bool) -> Existing {
    if !there {
        Existing::Missing
    } else if !known {
        Existing::Unchecked
    } else if matches {
        Existing::Verified
    } else {
        Existing::Mismatch
    }
}

/// What a file is, given whether it is there, whether a checksum is known, and whether the file
/// has it.
pub fn judge_existing(there: bool, known: bool, matches: bool) -> (r: Existing)
    ensures
        r == existing(there, known, matches),
{
    if !there {
        Existing::Missing
    } else if !known {
        Existing::Unchecked
    } else if matches {
        Existing::Verified
    } else {
        Existing::Mismatch
    }
}

/// Whether the download is skipped.
pub fn is_skipped(e: Existing) -> (r: bool)
    ensures
        r == (e == Existing::Unchecked || e == Existing::Verified),
{
    match e {
        Existing::Unchecked => true,
        Existing::Verified => true,
        _ => false,
    }
}

/// What a file is that is there with this content, or not there.
pub fn check_existing(content: Option<&[u8]>, sha1: Option<&str>) -> (r: Existing)
    ensures
        r == existing(
            content is Some,
            sha1 is Some,
            content is Some && sha1 is Some && hash::is_expected(
                hash::sha1_of(content->0@),
                sha1->0@,
            ),
        ),
{
    match content {
        None => Existing::Missing,
        Some(data) => match sha1 {
            None => Existing::Unchecked,
            Some(expected) => judge_existing(true, true, hash::verify_sha1(data, expected)),
        },
    }
}

/// The path of the file that holds what was downloaded so far.
pub fn partial_path(path: &str) -> (r: String)
    ensures
        r@ == path@ + ".part"@,
{
    text::concat(path, ".part")
}

// ---------------------------------------------------------------------------
// The exchange with the server
// ---------------------------------------------------------------------------
/// The range that is asked for where `have` bytes are there already.
pub open spec fn range_wanted(have: u64) -> Option<Seq<char>> {
    if have > 0 {
        Some("bytes="@ + text::decimal(have as nat) + "-"@)
    } else {
        None
    }
}

/// The range that is asked for where `have` bytes are there already.
pub fn range_header(have: u64) -> (r: Option<String>)
    ensures
        text::opt_text(r) == range_wanted(have),
{
    if have > 0 {
        let n = text::decimal_text(have as u128);
        Some(text::concat3("bytes=", n.as_str(), "-"))
    } else {
        None
    }
}

/// What is done with the answer of the server.
#[derive(Debug, Clone, Copy, PartialEq, Eq, Structural)]
pub enum Verdict {
    /// The partial file is whole: it becomes the file.
    Complete,
    /// The partial file is of no use: it is removed, and the file asked for anew.
    Restart,
    /// The server refused.
    Refused,
    /// The body of the answer is written.
    Transfer(Transfer),
}

/// How the body of an answer is written.
#[derive(Debug, Clone, Copy, PartialEq, Eq, Structural)]
pub struct Transfer {
    /// Behind what is there, rather than in its place.
    pub append: bool,
    /// How many bytes are there before it.
    pub start: u64,
    /// How many bytes there will be, where that is known.
    pub total: Option<u64>,
}

/// How many bytes there will be: what the answer announces, and what is there where it continues
/// that; else what is expected.
pub open spec fn announced_total(
    status: u16,
    length: Option<Seq<char>>,
    have: u64,
    expected: Option<u64>,
) -> Option<int> {
    let announced = match length {
        Some(s) => text::parsed_u64(s),
        None => None,
    };
    match announced {
        Some(n) => Some(
            if status == 206 {
                n + have
            } else {
                n as int
            },
        ),
        None => match expected {
            Some(n) => Some(n as int),
            None => None,
        },
    }
}

/// What is done with an answer with this status and announced length, where `have` bytes were
/// there when it was asked for, and `part` bytes are there now.
pub open spec fn verdict(
    status: u16,
    length: Option<Seq<char>>,
    have: u64,
    part: Option<u64>,
    expected: Option<u64>,
) -> Verdict {
    if status == 416 {
        if part is Some && (expected is None || expected == part) {
            Verdict::Complete
        } else {
            Verdict::Restart
        }
    } else if 400 <= status < 600 {
        Verdict::Refused
    } else {
        let append = have > 0 && status == 206;
        Verdict::Transfer(
            Transfer {
                append,
                start: if append {
                    have
                } else {
                    0
                },
                total: match announced_total(status, length, have, expected) {
                    Some(n) => Some(n as u64),
                    None => None,
                },
            },
        )
    }
}

/// The total can be counted in 64 bits.
pub open spec fn total_fits(
    status: u16,
    length: Option<Seq<char>>,
    have: u64,
    expected: Option<u64>,
) -> bool {
    match announced_total(status, length, have, expected) {
        Some(n) => n <= u64::MAX,
        None => true,
    }
}

/// Whether the total can be counted in 64 bits.
pub fn check_total(status: u16, length: Option<&str>, have: u64, expected: Option<u64>) -> (r: bool)
    ensures
        r == total_fits(status, text::opt_str(length), have, expected),
{
    match length {
        Some(s) => match text::parse_u64(s) {
            Some(n) => status != 206 || n <= u64::MAX - have,
            None => true,
        },
        None => true,
    }
}

/// What is done with the answer of the server.
pub fn on_response(
    status: u16,
    length: Option<&str>,
    have: u64,
    part: Option<u64>,
    expected: Option<u64>,
) -> (r: Verdict)
    requires
        status != 416 && !(400 <= status < 600) ==> total_fits(
            status,
            text::opt_str(length),
            have,
            expected,
        ),
    ensures
        r == verdict(status, text::opt_str(length), have, part, expected),
{
    if status == 416 {
        let whole: bool = match part {
            None => false,
            Some(p) => match expected {
                None => true,
                Some(e) => e == p,
            },
        };
        if whole {
            return Verdict::Complete;
        }
        return Verdict::Restart;
    }
    if 400 <= status && status < 600 {
        return Verdict::Refused;
    }
    let announced: Option<u64> = match length {
        Some(s) => text::parse_u64(s),
        None => None,
    };
    let total: Option<u64> = match announced {
        Some(n) => Some(
            if status == 206 {
                n + have
            } else {
                n
            },
        ),
        None => expected,
    };
    let append: bool = have > 0 && status == 206;
    let start: u64 = if append {
        have
    } else {
        0
    };
    Verdict::Transfer(Transfer { append, start, total })
}

/// The partial file after the body of an answer was written.
pub open spec fn file_after(part: Seq<u8>, t: Transfer, body: Seq<u8>) -> Seq<u8> {
    if t.append {
        part + body
    } else {
        body
    }
}

/// A download that is resumed gives the whole file: where the beginning of it is there, and the
/// server sends either the rest, with the status for that, or the whole file, what is there
/// afterwards is the whole file.
pub proof fn law_resumed_download_is_whole(
    whole: Seq<u8>,
    part: Seq<u8>,
    status: u16,
    length: Option<Seq<char>>,
    expected: Option<u64>,
    body: Seq<u8>,
)
    requires
        part.len() <= whole.len(),
        part.len() <= u64::MAX,
        part == whole.take(part.len() as int),
        status == 200 || status == 206,
        status == 206 ==> body == whole.skip(part.len() as int),
        status == 200 ==> body == whole,
    ensures
        verdict(status, length, part.len() as u64, Some(part.len() as u64), expected) is Transfer,
        file_after(
            part,
            verdict(
                status,
                length,
                part.len() as u64,
                Some(part.len() as u64),
                expected,
            )->Transfer_0,
            body,
        ) == whole,
{
    assert(whole.take(part.len() as int) + whole.skip(part.len() as int) =~= whole);
    if part.len() == 0 {
        assert(whole.skip(0) =~= whole);
    }
}

/// Where the beginning of a file is there, the server has nothing behind it, and its size is
/// unknown or the expected one, what is there is taken for the whole file, and is.
pub proof fn law_nothing_behind_is_whole(
    whole: Seq<u8>,
    part: Seq<u8>,
    length: Option<Seq<char>>,
    expected: Option<u64>,
)
    requires
        part.len() <= u64::MAX,
        part == whole.take(part.len() as int),
        whole.skip(part.len() as int).len() == 0,
        part.len() <= whole.len(),
        expected is Some ==> expected->0 == whole.len(),
    ensures
        verdict(416, length, part.len() as u64, Some(part.len() as u64), expected)
            == Verdict::Complete,
        part == whole,
{
    assert(part =~= whole);
}

/// Where a download begins anew, nothing is there any more, and the whole file is asked for. What
/// comes with it replaces everything.
pub proof fn law_restart_asks_for_all(
    status: u16,
    length: Option<Seq<char>>,
    expected: Option<u64>,
    body: Seq<u8>,
)
    requires
        !(status == 416),
        !(400 <= status < 600),
    ensures
        range_wanted(0) is None,
        ({
            let v = verdict(status, length, 0, None, expected);
            v is Transfer && file_after(Seq::empty(), v->Transfer_0, body) == body
        }),
{
}

/// A partial file is taken for the whole one without a transfer only where the server has nothing
/// behind it and its size is the expected one, where one is expected.
pub proof fn law_complete_only_if_whole(
    status: u16,
    length: Option<Seq<char>>,
    have: u64,
    part: Option<u64>,
    expected: Option<u64>,
)
    requires
        verdict(status, length, have, part, expected) == Verdict::Complete,
    ensures
        status == 416,
        part is Some,
        expected is Some ==> expected == part,
{
}

/// A file that is there is not downloaded again if and only if its checksum is not known, or is the
/// right one; one with a wrong checksum is resumed.
pub proof fn law_existing(there: bool, known: bool, matches: bool)
    ensures
        ({
            let e = existing(there, known, matches);
            &&& e == Existing::Missing <==> !there
            &&& e == Existing::Mismatch <==> there && known && !matches
            &&& e == Existing::Verified <==> there && known && matches
            &&& e == Existing::Unchecked <==> there && !known
        }),
{
}

/// What is asked for begins behind the bytes that are there; the whole file is asked for where none
/// are.
pub proof fn law_range(have: u64)
    ensures
        have == 0 ==> range_wanted(have) is None,
        have > 0 ==> range_wanted(have) == Some("bytes="@ + text::decimal(have as nat) + "-"@),
{
}

/// What becomes of an answer: an error status is a refusal, but for that of a range behind the end;
/// there the partial file is whole if it is there and has the expected size, where one is expected,
/// and else of no use; what comes with any other status is written, behind what is there if it
/// continues that, and else in its place.
pub proof fn law_verdicts(
    status: u16,
    length: Option<Seq<char>>,
    have: u64,
    part: Option<u64>,
    expected: Option<u64>,
)
    ensures
        ({
            let v = verdict(status, length, have, part, expected);
            &&& v == Verdict::Refused <==> 400 <= status <= 599 && status != 416
            &&& v == Verdict::Complete <==> status == 416 && part is Some && (expected is None
                || expected->0 == part->0)
            &&& v == Verdict::Restart <==> status == 416 && (part is None || expected is Some
                && expected->0 != part->0)
            &&& v is Transfer <==> status < 400 || status > 599
            &&& v matches Verdict::Transfer(t) ==> {
                &&& t.append <==> status == 206 && have > 0
                &&& t.append ==> t.start == have
                &&& !t.append ==> t.start == 0
            }
        }),
{
}

/// How many bytes there will be: with those that are there, where the answer continues them; the
/// expected number where the answer announces none that can be read.
pub proof fn law_totals(
    status: u16,
    n: u64,
    have: u64,
    part: Option<u64>,
    expected: Option<u64>,
    words: Seq<char>,
)
    requires
        status < 400,
    ensures
        status == 206 && n + have <= u64::MAX ==> verdict(
            status,
            Some(text::decimal(n as nat)),
            have,
            part,
            expected,
        )->Transfer_0.total == Some((n + have) as u64),
        status != 206 ==> verdict(
            status,
            Some(text::decimal(n as nat)),
            have,
            part,
            expected,
        )->Transfer_0.total == Some(n),
        verdict(status, None, have, part, expected)->Transfer_0.total == expected,
        text::parsed_u64(words) is None ==> verdict(
            status,
            Some(words),
            have,
            part,
            expected,
        )->Transfer_0.total == expected,
        total_fits(status, Some(text::decimal(n as nat)), have, expected) <==> status != 206 || n
            + have <= u64::MAX,
        total_fits(status, None, have, expected),
{
    text::law_read_back(n as nat);
}

} // verus!
