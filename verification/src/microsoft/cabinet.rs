//! Cabinets: the archives in which the catalog comes.

use crate::bytes;
use crate::iso::names;
use crate::text;
use std::io::Cursor;
use std::io::Read;
use vstd::prelude::*;

verus! {

// ---------------------------------------------------------------------------
// Where a file lies
// ---------------------------------------------------------------------------
/// The longest name in a cabinet.
pub const MAX_NAME: u8 = 255;

/// How the data of a folder are packed: they are stored as they are.
pub const STORED: u16 = 0;

/// How the data of a folder are packed: with Quantum, which is not supported.
pub const QUANTUM: u16 = 2;

/// How the data of a folder are packed: with LZX.
pub const LZX: u16 = 3;

/// The place behind the zero byte that ends the text at `i`, which has at most `n` bytes.
pub open spec fn behind_text(d: Seq<u8>, i: int, n: nat) -> Option<int>
    decreases n,
{
    if i < 0 || i >= d.len() {
        None
    } else if d[i] == 0 {
        Some(i + 1)
    } else if n == 0 {
        None
    } else {
        behind_text(d, i + 1, (n - 1) as nat)
    }
}

/// The place behind two texts at `i`, where they are there.
pub open spec fn behind_two_texts(d: Seq<u8>, i: int, there: bool) -> Option<int> {
    if !there {
        Some(i)
    } else {
        match behind_text(d, i, MAX_NAME as nat) {
            None => None,
            Some(j) => behind_text(d, j, MAX_NAME as nat),
        }
    }
}

/// The flag that the sizes of reserved areas are given.
pub open spec fn has_reserve(d: Seq<u8>) -> bool {
    bytes::u16_at(d, 30) / 4 % 2 == 1
}

/// How many bytes are reserved in each folder entry.
pub open spec fn folder_reserve(d: Seq<u8>) -> int {
    if has_reserve(d) {
        d[38] as int
    } else {
        0
    }
}

/// How many bytes are reserved in each data block.
pub open spec fn data_reserve(d: Seq<u8>) -> int {
    if has_reserve(d) {
        d[39] as int
    } else {
        0
    }
}

/// Where the folder entries begin; none where the cabinet ends before them.
pub open spec fn folders_at(d: Seq<u8>) -> Option<int> {
    let flags = bytes::u16_at(d, 30);
    if d.len() < 36 || has_reserve(d) && d.len() < 40 {
        None
    } else {
        let start = if has_reserve(d) {
            40 + bytes::u16_at(d, 36)
        } else {
            36
        };
        match behind_two_texts(d, start, flags % 2 == 1) {
            None => None,
            Some(i) => behind_two_texts(d, i, flags / 2 % 2 == 1),
        }
    }
}

/// The first file called `name` among `n` file entries from `i` on: its size, where it begins in
/// the data of its folder, and the folder.
pub open spec fn find_file(d: Seq<u8>, i: int, n: nat, name: Seq<char>) -> Option<(u32, u32, u16)>
    decreases n,
{
    if n == 0 || i < 0 || i + 16 > d.len() {
        None
    } else {
        match behind_text(d, i + 16, MAX_NAME as nat) {
            None => None,
            Some(next) => if names::utf8_text(d.subrange(i + 16, next - 1)) == name {
                Some((bytes::u32_at(d, i), bytes::u32_at(d, i + 4), bytes::u16_at(d, i + 8)))
            } else {
                find_file(d, next, (n - 1) as nat, name)
            },
        }
    }
}

/// Going `start` bytes into the data of the `n` blocks from `i` on leads into one of them, or to
/// where the cabinet ends. A file that is not empty does not begin behind the bytes of a block
/// that is stored as it is.
pub open spec fn leads_into_block(
    d: Seq<u8>,
    i: int,
    n: nat,
    reserve: int,
    start: int,
    stored: bool,
    empty: bool,
) -> bool
    decreases n,
{
    if n == 0 {
        false
    } else if i + 8 + reserve > d.len() {
        true
    } else {
        let packed = bytes::u16_at(d, i + 4);
        let unpacked = bytes::u16_at(d, i + 6);
        if i + 8 + reserve + packed > d.len() {
            true
        } else if unpacked >= start {
            !stored || start <= packed || empty
        } else {
            leads_into_block(
                d,
                i + 8 + reserve + packed,
                (n - 1) as nat,
                reserve,
                start - unpacked,
                stored,
                empty,
            )
        }
    }
}

/// The file called `name`, where there is one, can be unpacked whatever its data are: its folder is
/// not packed with LZX, and it begins inside the data of that folder.
pub open spec fn can_be_unpacked(d: Seq<u8>, name: Seq<char>) -> bool {
    match folders_at(d) {
        None => true,
        Some(at) => match find_file(
            d,
            bytes::u32_at(d, 16) as int,
            bytes::u16_at(d, 28) as nat,
            name,
        ) {
            None => true,
            Some((size, start, folder)) => {
                let i = at + folder * (8 + folder_reserve(d));
                let kind = bytes::u16_at(d, i + 6) % 16;
                ||| folder >= bytes::u16_at(d, 26)
                ||| i + 8 > d.len()
                ||| kind != LZX && (start == 0 || kind == QUANTUM || leads_into_block(
                    d,
                    bytes::u32_at(d, i) as int,
                    bytes::u16_at(d, i + 4) as nat,
                    data_reserve(d),
                    start as int,
                    kind == STORED,
                    size == 0,
                ))
            },
        },
    }
}

/// The place behind the text at `i`.
fn skip_text(data: &[u8], i: usize) -> (r: Option<usize>)
    ensures
        match r {
            Some(j) => behind_text(data@, i as int, MAX_NAME as nat) == Some(j as int) && i < j
                <= data@.len(),
            None => behind_text(data@, i as int, MAX_NAME as nat) is None,
        },
{
    let n: usize = data.len();
    let mut j: usize = i;
    let mut left: u8 = MAX_NAME;
    while j < n
        invariant
            n == data@.len(),
            i <= j,
            behind_text(data@, i as int, MAX_NAME as nat) == behind_text(
                data@,
                j as int,
                left as nat,
            ),
        decreases left, n - j,
    {
        if data[j] == 0 {
            return Some(j + 1);
        }
        if left == 0 {
            return None;
        }
        j += 1;
        left -= 1;
    }
    None
}

/// The place behind two texts at `i`, where they are there.
fn skip_two_texts(data: &[u8], i: usize, there: bool) -> (r: Option<usize>)
    ensures
        match r {
            Some(j) => behind_two_texts(data@, i as int, there) == Some(j as int),
            None => behind_two_texts(data@, i as int, there) is None,
        },
{
    if !there {
        return Some(i);
    }
    match skip_text(data, i) {
        None => None,
        Some(j) => skip_text(data, j),
    }
}

/// Where the folder entries begin.
fn find_folders(data: &[u8]) -> (r: Option<usize>)
    ensures
        match r {
            Some(j) => folders_at(data@) == Some(j as int),
            None => folders_at(data@) is None,
        },
        r is Some ==> data@.len() >= 36 && (has_reserve(data@) ==> data@.len() >= 40),
{
    let n: usize = data.len();
    if n < 36 {
        return None;
    }
    let flags: u16 = bytes::get_u16(data, 30);
    let reserve: bool = flags / 4 % 2 == 1;
    if reserve && n < 40 {
        return None;
    }
    let start: usize = if reserve {
        40 + bytes::get_u16(data, 36) as usize
    } else {
        36
    };
    match skip_two_texts(data, start, flags % 2 == 1) {
        None => None,
        Some(i) => skip_two_texts(data, i, flags / 2 % 2 == 1),
    }
}

/// The first file called `name` among `n` file entries from `i` on.
fn look_for(data: &[u8], i: usize, n: u16, name: &str) -> (r: Option<(u32, u32, u16)>)
    ensures
        r == find_file(data@, i as int, n as nat, name@),
{
    let len: usize = data.len();
    let mut at: usize = i;
    let mut left: u16 = n;
    while left > 0
        invariant
            len == data@.len(),
            find_file(data@, i as int, n as nat, name@) == find_file(
                data@,
                at as int,
                left as nat,
                name@,
            ),
        decreases left,
    {
        if at > len || len - at < 16 {
            return None;
        }
        match skip_text(data, at + 16) {
            None => {
                return None;
            },
            Some(next) => {
                let called = names::from_utf8_lossy(&data[at + 16..next - 1]);
                if text::text_eq(called.as_str(), name) {
                    return Some(
                        (
                            bytes::get_u32(data, at),
                            bytes::get_u32(data, at + 4),
                            bytes::get_u16(data, at + 8),
                        ),
                    );
                }
                at = next;
            },
        }
        left -= 1;
    }
    None
}

/// Whether going `start` bytes into the data of the `n` blocks from `i` on leads into one of them,
/// or to where the cabinet ends.
fn check_blocks(
    data: &[u8],
    i: u32,
    n: u16,
    reserve: u8,
    start: u32,
    stored: bool,
    empty: bool,
) -> (r: bool)
    ensures
        r == leads_into_block(
            data@,
            i as int,
            n as nat,
            reserve as int,
            start as int,
            stored,
            empty,
        ),
{
    let len: u64 = data.len() as u64;
    let mut at: u64 = i as u64;
    let mut left: u16 = n;
    let mut rest: u32 = start;
    while left > 0
        invariant
            len == data@.len(),
            len <= usize::MAX,
            at + left * 0x2_0000 <= 0x3_0000_0000,
            leads_into_block(
                data@,
                i as int,
                n as nat,
                reserve as int,
                start as int,
                stored,
                empty,
            ) == leads_into_block(
                data@,
                at as int,
                left as nat,
                reserve as int,
                rest as int,
                stored,
                empty,
            ),
        decreases left,
    {
        if at + 8 + reserve as u64 > len {
            return true;
        }
        let packed: u16 = bytes::get_u16(data, at as usize + 4);
        let unpacked: u16 = bytes::get_u16(data, at as usize + 6);
        let next: u64 = at + 8 + reserve as u64 + packed as u64;
        if next > len {
            return true;
        }
        if unpacked as u32 >= rest {
            return !stored || rest <= packed as u32 || empty;
        }
        rest -= unpacked as u32;
        at = next;
        left -= 1;
    }
    false
}

/// Whether the file called `name`, where there is one, can be unpacked whatever its data are.
pub fn check_file(data: &[u8], name: &str) -> (r: bool)
    ensures
        r == can_be_unpacked(data@, name@),
{
    let at: usize = match find_folders(data) {
        None => {
            return true;
        },
        Some(at) => at,
    };
    let first: u32 = bytes::get_u32(data, 16);
    match look_for(data, first as usize, bytes::get_u16(data, 28), name) {
        None => true,
        Some((size, start, folder)) => {
            if folder >= bytes::get_u16(data, 26) {
                return true;
            }
            let reserved: bool = bytes::get_u16(data, 30) / 4 % 2 == 1;
            let folder_reserve: u8 = if reserved {
                data[38]
            } else {
                0
            };
            let data_reserve: u8 = if reserved {
                data[39]
            } else {
                0
            };
            let step: u64 = 8 + folder_reserve as u64;
            assert(folder * step <= 0xFFFF * 263) by (nonlinear_arith)
                requires
                    folder <= 0xFFFF,
                    step <= 263,
            ;
            let i: u128 = at as u128 + folder as u128 * step as u128;
            if i + 8 > data.len() as u128 {
                return true;
            }
            let i: usize = i as usize;
            let kind: u16 = bytes::get_u16(data, i + 6) % 16;
            kind != LZX && (start == 0 || kind == QUANTUM || check_blocks(
                data,
                bytes::get_u32(data, i),
                bytes::get_u16(data, i + 4),
                data_reserve,
                start,
                kind == STORED,
                size == 0,
            ))
        },
    }
}

// ---------------------------------------------------------------------------
// What is in it
// ---------------------------------------------------------------------------
/// The names of the files in a cabinet, or why it cannot be opened.
pub uninterp spec fn cab_names(data: Seq<u8>) -> std::result::Result<Seq<Seq<char>>, Seq<char>>;

/// What comes of reading a file in a cabinet as text.
#[derive(Debug)]
pub enum CabText {
    /// The cabinet or the file in it cannot be opened.
    Closed(String),
    /// The file cannot be read, or is no text.
    Garbled(String),
    /// The text.
    Text(String),
}

/// What comes of reading a file in a cabinet as text.
pub enum CabTextView {
    Closed(Seq<char>),
    Garbled(Seq<char>),
    Text(Seq<char>),
}

impl View for CabText {
    type V = CabTextView;

    open spec fn view(&self) -> CabTextView {
        match self {
            CabText::Closed(s) => CabTextView::Closed(s@),
            CabText::Garbled(s) => CabTextView::Garbled(s@),
            CabText::Text(s) => CabTextView::Text(s@),
        }
    }
}

/// What the file `name` in a cabinet holds.
pub uninterp spec fn cab_text(data: Seq<u8>, name: Seq<char>) -> CabTextView;

/// `Cabinet::new` of cab, and the names that `file_entries` of each of its `folder_entries`
/// give: a function of the bytes, named `cab_names`. An error is given in words.
#[verifier::external_body]
pub(crate) fn list_cabinet(data: &[u8]) -> (r: std::result::Result<Vec<String>, String>)
    ensures
        match r {
            Ok(v) => cab_names(data@) == Ok::<_, Seq<char>>(text::texts(v@)),
            Err(e) => cab_names(data@) == Err::<Seq<Seq<char>>, _>(e@),
        },
{
    let cabinet = cab::Cabinet::new(Cursor::new(data)).map_err(|e| e.to_string())?;
    let mut names = Vec::new();
    for folder in cabinet.folder_entries() {
        for file in folder.file_entries() {
            names.push(file.name().to_string());
        }
    }
    Ok(names)
}

/// `Cabinet::read_file` of cab, read to its end as text: a function of the bytes and the name,
/// named `cab_text`. Errors are given in words. It would panic on a file that begins behind the
/// data of its folder, and on some that are packed with LZX: where the window has 32 MiB and a
/// match is in its last slot, and, where arithmetic is checked, where a block sets an offset that
/// is larger than the window. Which files these are shows only when they are unpacked.
#[verifier::external_body]
pub(crate) fn read_cabinet(data: &[u8], name: &str) -> (r: CabText)
    requires
        can_be_unpacked(data@, name@),
    ensures
        r@ == cab_text(data@, name@),
{
    let mut cabinet = match cab::Cabinet::new(Cursor::new(data)) {
        Ok(c) => c,
        Err(e) => return CabText::Closed(e.to_string()),
    };
    let mut reader = match cabinet.read_file(name) {
        Ok(r) => r,
        Err(e) => return CabText::Closed(e.to_string()),
    };
    let mut content = String::new();
    match reader.read_to_string(&mut content) {
        Ok(_) => CabText::Text(content),
        Err(e) => CabText::Garbled(e.to_string()),
    }
}

} // verus!
