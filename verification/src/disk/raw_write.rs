//! Writing an image onto a drive as it is.

use crate::platform::Platform;
use crate::text;
use vstd::prelude::*;

verus! {

/// How many bytes are written at a time.
pub const BLOCK_SIZE: usize = 4_194_304;

/// The path under which a drive is written without buffering.
pub open spec fn raw_path(platform: Platform, device: Seq<char>) -> Seq<char> {
    if platform == Platform::MacOs {
        text::replaced(device, "/dev/disk"@, "/dev/rdisk"@)
    } else {
        device
    }
}

/// The path under which a drive is written without buffering.
pub fn raw_device_path(platform: Platform, device: &str) -> (r: String)
    ensures
        r@ == raw_path(platform, device@),
{
    proof {
        reveal_strlit("/dev/disk");
    }
    match platform {
        Platform::MacOs => text::replace_all(device, "/dev/disk", "/dev/rdisk"),
        _ => device.to_owned(),
    }
}

/// On macOS a drive is written under the name of its raw device, which has an `r` before `disk`;
/// on other systems, or where the path names no disk, under its own. Four mebibytes are written at a
/// time.
pub proof fn law_raw_path(platform: Platform, n: Seq<char>)
    requires
        !text::has_text(n, "/dev/disk"@),
    ensures
        raw_path(Platform::MacOs, "/dev/disk"@ + n) == "/dev/rdisk"@ + n,
        raw_path(Platform::MacOs, n) == n,
        platform != Platform::MacOs ==> raw_path(platform, n) == n && raw_path(
            platform,
            "/dev/disk"@ + n,
        ) == "/dev/disk"@ + n,
        BLOCK_SIZE == 4 * 1024 * 1024,
{
    let from = "/dev/disk"@;
    let to = "/dev/rdisk"@;
    let s = from + n;
    reveal_strlit("/dev/disk");
    assert(s.subrange(0, from.len() as int) =~= from);
    assert(text::first_at(s, from, 0));
    text::law_replaced(s, from, to, 0);
    text::law_replaced(n, from, to, 0);
    assert(s.skip(0int + from.len()) =~= n);
    assert(s.take(0) + to =~= to);
}

} // verus!
