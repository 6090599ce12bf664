//! Making a bootable drive: what is done, in which order, and with whose consent.

use crate::disk::partition::PartitionScheme;
use crate::error;
use crate::error::{Error, Result};
use crate::iso::entry;
use crate::iso::entry::IsoEntry;
use crate::iso::reader;
use crate::models;
use crate::models::UsbDrive;
use crate::text;
use vstd::prelude::*;
use vstd::string::*;

verus! {

// ---------------------------------------------------------------------------
// Who does it
// ---------------------------------------------------------------------------
/// How a drive is written.
#[derive(Debug, Clone, Copy, PartialEq, Eq, Structural)]
pub enum BurnWay {
    /// The image as it is.
    Raw,
    /// A file system with the files of the image.
    Bootable,
    /// By another process with the rights for it.
    Escalate,
}

/// How a drive is written by a process that has the rights for it or not.
pub fn sudo_burn(is_root: bool, raw: bool) -> (r: BurnWay)
    ensures
        r == if !is_root {
            BurnWay::Escalate
        } else if raw {
            BurnWay::Raw
        } else {
            BurnWay::Bootable
        },
{
    if !is_root {
        BurnWay::Escalate
    } else if raw {
        BurnWay::Raw
    } else {
        BurnWay::Bootable
    }
}

/// The arguments with which the program calls itself to write a drive.
pub open spec fn escalated_args(
    iso: Seq<char>,
    d: models::UsbDriveView,
    scheme: PartitionScheme,
    raw: bool,
) -> Seq<Seq<char>> {
    seq![
        "_burn-device"@,
        "--iso"@,
        iso,
        "--device"@,
        d.device,
        "--device-name"@,
        d.name,
        "--device-size"@,
        text::decimal(d.size as nat),
    ] + if scheme == PartitionScheme::Gpt {
        seq!["--gpt"@]
    } else {
        Seq::empty()
    } + if raw {
        seq!["--raw"@]
    } else {
        Seq::empty()
    }
}

/// The arguments with which the program calls itself to write a drive.
pub fn sudo_args(iso: &str, drive: &UsbDrive, scheme: PartitionScheme, raw: bool) -> (r: Vec<
    String,
>)
    ensures
        text::texts(r@) == escalated_args(iso@, drive@, scheme, raw),
{
    let mut r: Vec<String> = Vec::new();
    r.push("_burn-device".to_owned());
    r.push("--iso".to_owned());
    r.push(iso.to_owned());
    r.push("--device".to_owned());
    r.push(drive.device.clone());
    r.push("--device-name".to_owned());
    r.push(drive.name.clone());
    r.push("--device-size".to_owned());
    r.push(text::decimal_text(drive.size as u128));
    let gpt: bool = match scheme {
        PartitionScheme::Gpt => true,
        PartitionScheme::Mbr => false,
    };
    if gpt {
        r.push("--gpt".to_owned());
    }
    if raw {
        r.push("--raw".to_owned());
    }
    assert(text::texts(r@) =~= escalated_args(iso@, drive@, scheme, raw));
    r
}

/// The drive that the arguments of such a call describe: its partitions are not told.
pub fn told_drive(device: String, name: String, size: u64) -> (r: UsbDrive)
    ensures
        r@ == (models::UsbDriveView {
            device: device@,
            name: name@,
            size,
            partitions: Seq::empty(),
        }),
{
    let partitions: Vec<String> = Vec::new();
    assert(text::texts(partitions@) =~= Seq::empty());
    UsbDrive { device, name, size, partitions }
}

/// The kind of partition table that is asked for.
pub fn scheme_for(gpt: bool) -> (r: PartitionScheme)
    ensures
        r == if gpt {
            PartitionScheme::Gpt
        } else {
            PartitionScheme::Mbr
        },
{
    if gpt {
        PartitionScheme::Gpt
    } else {
        PartitionScheme::Mbr
    }
}

/// A number in decimal, with a minus sign where it is negative.
pub open spec fn signed_decimal(n: int) -> Seq<char> {
    if n < 0 {
        "-"@ + text::decimal((-n) as nat)
    } else {
        text::decimal(n as nat)
    }
}

/// A number in decimal, with a minus sign where it is negative.
fn signed_text(n: i32) -> (r: String)
    ensures
        r@ == signed_decimal(n as int),
{
    if n < 0 {
        let digits = text::decimal_text((-(n as i128)) as u128);
        text::concat("-", digits.as_str())
    } else {
        text::decimal_text(n as u128)
    }
}

/// What comes of the other process: whether it succeeded, and its exit code, where it has one.
pub fn sudo_result(success: bool, code: Option<i32>, is_root: bool) -> (r: Result<()>)
    ensures
        ({
            let c = match code {
                Some(c) => c as int,
                None => -1int,
            };
            if success {
                r is Ok
            } else if c == 1 && !is_root {
                r is Err && r->Err_0@ == error::ErrorView::Other(
                    "Authentication failed or was cancelled. Run again to retry."@,
                )
            } else {
                r is Err && r->Err_0@ == error::ErrorView::Other(
                    "Burn failed (exit code "@ + signed_decimal(c)
                        + "). Check the output above for details."@,
                )
            }
        }),
{
    if success {
        return Ok(());
    }
    let c: i32 = match code {
        Some(c) => c,
        None => -1,
    };
    if c == 1 && !is_root {
        return Err(error::other("Authentication failed or was cancelled. Run again to retry."));
    }
    let digits = signed_text(c);
    Err(
        Error::Other(
            text::concat3(
                "Burn failed (exit code ",
                digits.as_str(),
                "). Check the output above for details.",
            ),
        ),
    )
}

/// What the user is told before the other process asks for a password.
pub fn sudo_notice(device: &str) -> (r: String)
    ensures
        r@ == "\nCreating a bootable drive requires direct access to "@ + device@
            + " which requires escalated privileges, you'll be prompted for your password so we can write the bootable filesystem to the drive.\n"@,
{
    text::concat3(
        "\nCreating a bootable drive requires direct access to ",
        device,
        " which requires escalated privileges, you'll be prompted for your password so we can write the bootable filesystem to the drive.\n",
    )
}

// ---------------------------------------------------------------------------
// Consent
// ---------------------------------------------------------------------------
/// The name that confirms writing to a device: the last part of its path.
pub open spec fn short_name(device: Seq<char>) -> Seq<char> {
    text::after_last(device, '/')
}

/// What a user has to type is their consent.
pub open spec fn is_consent(input: Seq<char>, device: Seq<char>) -> bool {
    text::trimmed(input) == short_name(device)
}

/// The name that confirms writing to a device.
pub fn device_short(device: &str) -> (r: String)
    ensures
        r@ == short_name(device@),
{
    text::rsplit_last(device, '/')
}

/// Whether what the user typed is their consent to writing to a device.
pub fn confirm_burn(drive: &UsbDrive, input: &str) -> (r: bool)
    ensures
        r == is_consent(input@, drive@.device),
{
    let typed = text::trim(input);
    let short = device_short(drive.device.as_str());
    text::text_eq(typed.as_str(), short.as_str())
}

/// What the user is told before they are asked for consent; `size` is the size of the drive in
/// words.
pub open spec fn warning_lines(iso: Seq<char>, d: models::UsbDriveView, size: Seq<char>) -> Seq<
    Seq<char>,
> {
    seq![
        ""@,
        "  ┌─────────────────────────────────────────────┐"@,
        "  │  WARNING: ALL DATA ON THE DRIVE WILL BE     │"@,
        "  │  PERMANENTLY ERASED.                        │"@,
        "  └─────────────────────────────────────────────┘"@,
        ""@,
        "  ISO:    "@ + iso,
        "  Drive:  "@ + d.name + " ("@ + size + ")"@,
        "  Device: "@ + d.device,
        ""@,
        "  Type '"@ + short_name(d.device) + "' to confirm, or anything else to cancel:"@,
    ]
}

/// What the user is told before they are asked for consent.
pub fn burn_warning(iso: &str, drive: &UsbDrive, size: &str) -> (r: Vec<String>)
    ensures
        text::texts(r@) == warning_lines(iso@, drive@, size@),
{
    let mut r: Vec<String> = Vec::new();
    r.push("".to_owned());
    r.push("  ┌─────────────────────────────────────────────┐".to_owned());
    r.push("  │  WARNING: ALL DATA ON THE DRIVE WILL BE     │".to_owned());
    r.push("  │  PERMANENTLY ERASED.                        │".to_owned());
    r.push("  └─────────────────────────────────────────────┘".to_owned());
    r.push("".to_owned());
    r.push(text::concat("  ISO:    ", iso));
    let mut line = text::concat3("  Drive:  ", drive.name.as_str(), " (");
    line.append(size);
    line.append(")");
    r.push(line);
    r.push(text::concat("  Device: ", drive.device.as_str()));
    r.push("".to_owned());
    let short = device_short(drive.device.as_str());
    r.push(
        text::concat3("  Type '", short.as_str(), "' to confirm, or anything else to cancel:"),
    );
    assert(text::texts(r@) =~= warning_lines(iso@, drive@, size@));
    r
}

// ---------------------------------------------------------------------------
// What is done
// ---------------------------------------------------------------------------
/// A step on the way to a bootable drive.
#[derive(Debug, Clone, Copy, PartialEq, Eq, Structural)]
pub enum BurnStep {
    /// The drive is unmounted.
    Unmount,
    /// The partition table is written.
    Partition,
    /// The partition is formatted.
    Format,
    /// The system is given half a second, in which it may mount what it finds.
    Pause,
    /// The files of the image are copied.
    Copy,
    /// The installation image is written in parts.
    Split,
    /// The image is written as it is.
    WriteRaw,
    /// The drive is ejected.
    Eject,
}

/// What is done for a bootable drive, in order.
pub open spec fn bootable_plan(needs_split: bool) -> Seq<BurnStep> {
    seq![
        BurnStep::Unmount,
        BurnStep::Partition,
        BurnStep::Format,
        BurnStep::Pause,
        BurnStep::Unmount,
        BurnStep::Copy,
    ] + if needs_split {
        seq![BurnStep::Pause, BurnStep::Unmount, BurnStep::Split]
    } else {
        Seq::empty()
    } + seq![BurnStep::Eject]
}

/// What is done to write an image as it is, in order.
pub open spec fn raw_plan() -> Seq<BurnStep> {
    seq![BurnStep::Unmount, BurnStep::WriteRaw, BurnStep::Eject]
}

/// What is done to write an image as it is, in order.
pub fn write_raw_iso() -> (r: Vec<BurnStep>)
    ensures
        r@ == raw_plan(),
{
    let mut r: Vec<BurnStep> = Vec::new();
    r.push(BurnStep::Unmount);
    r.push(BurnStep::WriteRaw);
    r.push(BurnStep::Eject);
    assert(r@ =~= raw_plan());
    r
}

/// The step writes to the drive.
pub open spec fn writes(s: BurnStep) -> bool {
    s == BurnStep::Partition || s == BurnStep::Format || s == BurnStep::Copy || s == BurnStep::Split
        || s == BurnStep::WriteRaw
}

/// The `k`-th step comes after the drive was unmounted, and the system has had no pause in which
/// to mount it again.
pub open spec fn unmounted_before(plan: Seq<BurnStep>, k: int) -> bool {
    exists|j: int|
        0 <= j < k && #[trigger] plan[j] == BurnStep::Unmount && forall|i: int|
            j < i < k ==> #[trigger] plan[i] != BurnStep::Pause
}

/// A drive is written to only while it is unmounted, and ejected at the end.
pub proof fn law_unmounted_while_written(needs_split: bool)
    ensures
        forall|k: int|
            0 <= k < bootable_plan(needs_split).len() && writes(
                #[trigger] bootable_plan(needs_split)[k],
            ) ==> unmounted_before(bootable_plan(needs_split), k),
        bootable_plan(needs_split).last() == BurnStep::Eject,
        forall|k: int|
            0 <= k < raw_plan().len() && writes(#[trigger] raw_plan()[k]) ==> unmounted_before(
                raw_plan(),
                k,
            ),
        raw_plan().last() == BurnStep::Eject,
{
    let p = bootable_plan(needs_split);
    assert forall|k: int| 0 <= k < p.len() && writes(#[trigger] p[k]) implies unmounted_before(
        p,
        k,
    ) by {
        if k <= 2 {
            assert(p[0] == BurnStep::Unmount);
        } else if k == 5 {
            assert(p[4] == BurnStep::Unmount);
        } else {
            assert(p[7] == BurnStep::Unmount);
        }
    }
    let q = raw_plan();
    assert(q[0] == BurnStep::Unmount);
}

/// What the user is told when the `k`-th step of a plan begins.
pub open spec fn told_at(step: BurnStep, k: int, scheme: PartitionScheme) -> Option<Seq<char>> {
    match step {
        BurnStep::Unmount => if k == 0 {
            Some("Unmounting drive..."@)
        } else {
            None
        },
        BurnStep::Partition => Some(
            match scheme {
                PartitionScheme::Mbr => "Creating MBR partition table..."@,
                PartitionScheme::Gpt => "Creating GPT partition table..."@,
            },
        ),
        BurnStep::Format => Some("Formatting FAT32..."@),
        BurnStep::Copy => Some("Copying files from ISO..."@),
        BurnStep::WriteRaw => Some("Writing ISO to drive..."@),
        BurnStep::Eject => Some("Ejecting drive..."@),
        BurnStep::Pause => None,
        BurnStep::Split => None,
    }
}

/// What the user is told when the `k`-th step of a plan begins.
pub fn step_notice(step: BurnStep, k: usize, scheme: PartitionScheme) -> (r: Option<&'static str>)
    ensures
        match told_at(step, k as int, scheme) {
            Some(s) => r is Some && r->0@ == s,
            None => r is None,
        },
{
    match step {
        BurnStep::Unmount => if k == 0 {
            Some("Unmounting drive...")
        } else {
            None
        },
        BurnStep::Partition => match scheme {
            PartitionScheme::Mbr => Some("Creating MBR partition table..."),
            PartitionScheme::Gpt => Some("Creating GPT partition table..."),
        },
        BurnStep::Format => Some("Formatting FAT32..."),
        BurnStep::Copy => Some("Copying files from ISO..."),
        BurnStep::WriteRaw => Some("Writing ISO to drive..."),
        BurnStep::Eject => Some("Ejecting drive..."),
        BurnStep::Pause => None,
        BurnStep::Split => None,
    }
}

// ---------------------------------------------------------------------------
// What goes onto the drive
// ---------------------------------------------------------------------------
/// The size of all entries.
pub open spec fn sizes_total(es: Seq<entry::IsoEntryView>) -> nat
    decreases es.len(),
{
    if es.len() == 0 {
        0
    } else {
        sizes_total(es.drop_last()) + es.last().size as nat
    }
}

proof fn lemma_sizes_grow(es: Seq<entry::IsoEntryView>, k: int)
    requires
        0 <= k <= es.len(),
    ensures
        sizes_total(es.take(k)) <= sizes_total(es),
    decreases es.len() - k,
{
    if k == es.len() {
        assert(es.take(k) =~= es);
    } else {
        lemma_sizes_grow(es, k + 1);
        assert(es.take(k + 1).drop_last() =~= es.take(k));
    }
}

/// The size of all entries, where it can be counted in 64 bits.
pub fn total_file_size(entries: &Vec<IsoEntry>) -> (r: Option<u64>)
    ensures
        match r {
            Some(n) => n == sizes_total(entry::views(entries@)),
            None => sizes_total(entry::views(entries@)) > u64::MAX,
        },
{
    let n: usize = entries.len();
    let ghost es = entry::views(entries@);
    let mut sum: u64 = 0;
    let mut k: usize = 0;
    assert(es.take(0) =~= Seq::empty());
    while k < n
        invariant
            k <= n,
            n == entries@.len(),
            es == entry::views(entries@),
            sum == sizes_total(es.take(k as int)),
        decreases n - k,
    {
        proof {
            assert(es.take(k + 1).drop_last() =~= es.take(k as int));
            assert(es[k as int] == entries@[k as int]@);
            lemma_sizes_grow(es, k + 1);
        }
        match sum.checked_add(entries[k].size) {
            Some(more) => {
                sum = more;
            },
            None => {
                return None;
            },
        }
        k += 1;
    }
    assert(es.take(n as int) =~= es);
    Some(sum)
}

/// The error for files that are too large for a drive; the sizes are given in words.
pub open spec fn too_large(contents: Seq<char>, capacity: Seq<char>) -> error::ErrorView {
    error::ErrorView::Other(
        "ISO contents ("@ + contents + ") exceed drive capacity ("@ + capacity + ")"@,
    )
}

/// What is done for a bootable drive with these files, in order. `usable` is how much of the drive
/// they may fill; `contents` and `capacity` are their size and that of the drive in words.
pub fn create_bootable_usb(
    entries: &Vec<IsoEntry>,
    usable: u64,
    contents: &str,
    capacity: &str,
) -> (r: Result<Vec<BurnStep>>)
    requires
        sizes_total(entry::views(entries@)) <= u64::MAX,
    ensures
        if sizes_total(entry::views(entries@)) > usable {
            r is Err && r->Err_0@ == too_large(contents@, capacity@)
        } else {
            r is Ok && r->Ok_0@ == bootable_plan(
                reader::holds_oversized_wim(entry::views(entries@)),
            )
        },
{
    let total: u64 = total_file_size(entries).unwrap();
    if total > usable {
        let mut message = text::concat3("ISO contents (", contents, ") exceed drive capacity (");
        message.append(capacity);
        message.append(")");
        return Err(Error::Other(message));
    }
    let needs_split: bool = reader::any_oversized_wim(entries);
    let mut r: Vec<BurnStep> = Vec::new();
    r.push(BurnStep::Unmount);
    r.push(BurnStep::Partition);
    r.push(BurnStep::Format);
    r.push(BurnStep::Pause);
    r.push(BurnStep::Unmount);
    r.push(BurnStep::Copy);
    if needs_split {
        r.push(BurnStep::Pause);
        r.push(BurnStep::Unmount);
        r.push(BurnStep::Split);
    }
    r.push(BurnStep::Eject);
    assert(r@ =~= bootable_plan(needs_split));
    Ok(r)
}

/// The `i`-th entry is the first installation image that is too large for FAT32.
pub open spec fn is_wim_to_split(es: Seq<entry::IsoEntryView>, i: int) -> bool {
    &&& 0 <= i < es.len()
    &&& reader::is_oversized_wim(text::lowercase(es[i].path), es[i].size)
    &&& forall|j: int|
        0 <= j < i ==> !reader::is_oversized_wim(
            text::lowercase(#[trigger] es[j].path),
            es[j].size,
        )
}

/// The installation image that is written in parts.
pub fn wim_to_split(entries: &Vec<IsoEntry>) -> (r: Result<usize>)
    ensures
        match r {
            Ok(i) => is_wim_to_split(entry::views(entries@), i as int),
            Err(e) => {
                &&& !reader::holds_oversized_wim(entry::views(entries@))
                &&& e@ == error::ErrorView::Other("install.wim not found for splitting"@)
            },
        },
{
    let n: usize = entries.len();
    let ghost es = entry::views(entries@);
    let mut i: usize = 0;
    while i < n
        invariant
            i <= n,
            n == entries@.len(),
            es == entry::views(entries@),
            forall|j: int|
                0 <= j < i ==> !reader::is_oversized_wim(
                    text::lowercase(#[trigger] es[j].path),
                    es[j].size,
                ),
        decreases n - i,
    {
        assert(es[i as int] == entries@[i as int]@);
        let lowered = text::to_lowercase(entries[i].path.as_str());
        if reader::oversized_wim(lowered.as_str(), entries[i].size) {
            return Ok(i);
        }
        i += 1;
    }
    proof {
        assert forall|k: int| 0 <= k < es.len() implies !reader::is_oversized_wim(
            text::lowercase((#[trigger] es[k]).path),
            es[k].size,
        ) by {
            assert(!reader::is_oversized_wim(text::lowercase(es[k].path), es[k].size));
        }
    }
    Err(error::other("install.wim not found for splitting"))
}

/// Where a plan has the step to write an installation image in parts, there is such an image.
pub proof fn law_split_has_wim(es: Seq<entry::IsoEntryView>)
    requires
        bootable_plan(reader::holds_oversized_wim(es)).contains(BurnStep::Split),
    ensures
        exists|i: int| is_wim_to_split(es, i),
{
    let k = choose|k: int|
        0 <= k < es.len() && reader::is_oversized_wim(
            text::lowercase((#[trigger] es[k]).path),
            es[k].size,
        );
    let i = lemma_first_wim(es, k);
    assert(is_wim_to_split(es, i));
}

proof fn lemma_first_wim(es: Seq<entry::IsoEntryView>, k: int) -> (i: int)
    requires
        0 <= k < es.len(),
        reader::is_oversized_wim(text::lowercase(es[k].path), es[k].size),
    ensures
        is_wim_to_split(es, i),
    decreases k,
{
    if exists|j: int|
        0 <= j < k && reader::is_oversized_wim(text::lowercase(#[trigger] es[j].path), es[j].size) {
        let j = choose|j: int|
            0 <= j < k && reader::is_oversized_wim(
                text::lowercase(#[trigger] es[j].path),
                es[j].size,
            );
        lemma_first_wim(es, j)
    } else {
        k
    }
}

// ---------------------------------------------------------------------------
// What holds of a burn as a whole
// ---------------------------------------------------------------------------
/// A bootable drive is made in this order: it is partitioned, formatted, filled, and, where the
/// installation file is too large, that is split onto it; nothing is done twice but unmounting and
/// waiting.
pub proof fn law_bootable_steps(needs_split: bool)
    ensures
        ({
            let p = bootable_plan(needs_split);
            let n = if needs_split {
                10int
            } else {
                7int
            };
            &&& p.len() == n
            &&& p[0] == BurnStep::Unmount && p[1] == BurnStep::Partition && p[2] == BurnStep::Format
            &&& p[3] == BurnStep::Pause && p[4] == BurnStep::Unmount && p[5] == BurnStep::Copy
            &&& needs_split ==> p[6] == BurnStep::Pause && p[7] == BurnStep::Unmount && p[8]
                == BurnStep::Split
            &&& p[n - 1] == BurnStep::Eject
            &&& needs_split <==> p.contains(BurnStep::Split)
            &&& !p.contains(BurnStep::WriteRaw)
        }),
        raw_plan() == seq![BurnStep::Unmount, BurnStep::WriteRaw, BurnStep::Eject],
{
    let p = bootable_plan(needs_split);
    if needs_split {
        assert(p[8] == BurnStep::Split);
    }
}

/// What is told at a step names what is done; nothing is told of waiting, of splitting, and of
/// unmounting once more.
pub proof fn law_told_steps(k: int, scheme: PartitionScheme)
    ensures
        told_at(BurnStep::Unmount, 0, scheme) == Some("Unmounting drive..."@),
        k != 0 ==> told_at(BurnStep::Unmount, k, scheme) is None,
        told_at(BurnStep::Partition, k, PartitionScheme::Mbr) == Some(
            "Creating MBR partition table..."@,
        ),
        told_at(BurnStep::Partition, k, PartitionScheme::Gpt) == Some(
            "Creating GPT partition table..."@,
        ),
        told_at(BurnStep::Format, k, scheme) == Some("Formatting FAT32..."@),
        told_at(BurnStep::Copy, k, scheme) == Some("Copying files from ISO..."@),
        told_at(BurnStep::WriteRaw, k, scheme) == Some("Writing ISO to drive..."@),
        told_at(BurnStep::Eject, k, scheme) == Some("Ejecting drive..."@),
        told_at(BurnStep::Pause, k, scheme) is None,
        told_at(BurnStep::Split, k, scheme) is None,
{
}

/// The program that is called with more rights is told everything: the image, the device, its name
/// and its size, and whether a GUID partition table is wanted or a raw copy.
pub proof fn law_escalated_args(
    iso: Seq<char>,
    d: models::UsbDriveView,
    scheme: PartitionScheme,
    raw: bool,
)
    ensures
        ({
            let a = escalated_args(iso, d, scheme, raw);
            &&& a[0] == "_burn-device"@
            &&& a[1] == "--iso"@ && a[2] == iso
            &&& a[3] == "--device"@ && a[4] == d.device
            &&& a[5] == "--device-name"@ && a[6] == d.name
            &&& a[7] == "--device-size"@ && a[8] == text::decimal(d.size as nat)
            &&& text::parsed_u64(a[8]) == Some(d.size)
            &&& scheme == PartitionScheme::Gpt ==> a[9] == "--gpt"@
            &&& raw ==> a.last() == "--raw"@
            &&& a.len() == 9 + (if scheme == PartitionScheme::Gpt {
                1int
            } else {
                0
            }) + (if raw {
                1int
            } else {
                0
            })
        }),
{
    text::law_read_back(d.size as nat);
}

/// Consent is given by typing the name of the device without the directories before it, with or
/// without white space around it, and by nothing else.
pub proof fn law_consent(
    dir: Seq<char>,
    name: Seq<char>,
    a: Seq<char>,
    b: Seq<char>,
    input: Seq<char>,
)
    requires
        !name.contains('/'),
        name.len() > 0,
        !text::white_space(name[0]) && !text::white_space(name.last()),
        forall|i: int| 0 <= i < a.len() ==> text::white_space(#[trigger] a[i]),
        forall|i: int| 0 <= i < b.len() ==> text::white_space(#[trigger] b[i]),
    ensures
        is_consent(a + name + b, dir.push('/') + name),
        text::trimmed(input) != name ==> !is_consent(input, dir.push('/') + name),
        short_name(dir.push('/') + name) == name,
{
    text::law_parted(dir, '/', name);
    text::law_trimmed(a, name, b);
}

/// What goes onto the drive is as large as all entries of the image together, and is refused in
/// words that give both sizes.
pub proof fn law_sizes_total(
    es: Seq<entry::IsoEntryView>,
    e: entry::IsoEntryView,
    contents: Seq<char>,
    capacity: Seq<char>,
)
    ensures
        sizes_total(Seq::empty()) == 0,
        sizes_total(es.push(e)) == sizes_total(es) + e.size,
        too_large(contents, capacity) == error::ErrorView::Other(
            "ISO contents ("@ + contents + ") exceed drive capacity ("@ + capacity + ")"@,
        ),
{
    assert(es.push(e).drop_last() =~= es);
}

/// The file that is split is the first whose path ends with `install.wim`, in letters of any case,
/// and that has four gibibytes or more.
pub proof fn law_wim_to_split(es: Seq<entry::IsoEntryView>, i: int, j: int)
    requires
        is_wim_to_split(es, i),
        0 <= j < es.len(),
        text::finishes_with(text::lowercase(es[j].path), "install.wim"@),
        es[j].size >= 4 * 1024 * 1024 * 1024,
    ensures
        0 <= i <= j,
        text::finishes_with(text::lowercase(es[i].path), "install.wim"@),
        es[i].size >= 4 * 1024 * 1024 * 1024,
{
    if j < i {
        assert(!reader::is_oversized_wim(text::lowercase(es[j].path), es[j].size));
    }
}

/// A code is told in decimal, with a sign before it where it is negative.
pub proof fn law_signed_decimal(n: int)
    ensures
        n >= 0 ==> signed_decimal(n) == text::decimal(n as nat),
        n < 0 ==> signed_decimal(n) == seq!['-'] + text::decimal((0 - n) as nat),
{
    reveal_strlit("-");
    assert("-"@ =~= seq!['-']);
}

/// The user is told what will be written where, and what to type.
pub proof fn law_warning(iso: Seq<char>, d: models::UsbDriveView, size: Seq<char>)
    ensures
        ({
            let w = warning_lines(iso, d, size);
            &&& w.len() == 11
            &&& w[2] == "  │  WARNING: ALL DATA ON THE DRIVE WILL BE     │"@
            &&& w[3] == "  │  PERMANENTLY ERASED.                        │"@
            &&& w[6] == "  ISO:    "@ + iso
            &&& w[7] == "  Drive:  "@ + d.name + " ("@ + size + ")"@
            &&& w[8] == "  Device: "@ + d.device
            &&& w[10] == "  Type '"@ + text::after_last(d.device, '/')
                + "' to confirm, or anything else to cancel:"@
        }),
{
}

} // verus!
