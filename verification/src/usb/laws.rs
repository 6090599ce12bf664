//! What holds of the drives that are listed, and of what is run for them.

use crate::error;
use crate::models;
use crate::platform::Platform;
use crate::text;
use crate::tree;
use crate::usb::drives;
use crate::usb::linux;
use crate::usb::lists;
use crate::usb::macos;
use crate::usb::survey;
use vstd::prelude::*;

verus! {

// ---------------------------------------------------------------------------
// Linux
// ---------------------------------------------------------------------------
/// A block device is listed if and only if its name begins with `sd`, the kernel says `1` of its
/// being removable, and it hangs on a USB bus. The drive is the device of that name; a sector has
/// 512 bytes; its name is its model, without white space around it, or `USB Drive`.
pub proof fn law_sys_drive(d: linux::SysDisk)
    requires
        linux::size_fits(d),
    ensures
        linux::drive_told(d) is Some <==> text::begins_with(d.name@, "sd"@) && text::trimmed(
            d.removable@,
        ) == "1"@ && text::has_text(d.link@, "/usb"@),
        linux::drive_told(d) matches Some(u) ==> {
            &&& u.device == "/dev/"@ + d.name@
            &&& match d.model {
                Some(m) => u.name == text::trimmed(m@),
                None => u.name == "USB Drive"@,
            }
            &&& match text::parsed_u64(text::trimmed(d.size@)) {
                Some(n) => u.size == 512 * n,
                None => u.size == 0,
            }
            &&& u.partitions == linux::partitions_among(d.name@, text::texts(d.names@))
        },
{
    reveal_strlit("USB Drive");
    let s = "USB Drive"@;
    let none = Seq::<char>::empty();
    assert(none + s + none =~= s);
    assert(!text::white_space(s[0]) && !text::white_space(s.last()));
    text::law_trimmed(none, s, none);
}

/// The partitions of a drive are the devices whose names go on behind its own, in the order in which
/// they are found.
pub proof fn law_partitions(disk: Seq<char>, names: Seq<Seq<char>>, suffix: Seq<char>, other: Seq<char>)
    ensures
        linux::partitions_among(disk, Seq::empty()).len() == 0,
        suffix.len() > 0 ==> linux::partitions_among(disk, names.push(disk + suffix))
            == linux::partitions_among(disk, names).push("/dev/"@ + (disk + suffix)),
        linux::partitions_among(disk, names.push(disk)) == linux::partitions_among(disk, names),
        !text::begins_with(other, disk) ==> linux::partitions_among(disk, names.push(other))
            == linux::partitions_among(disk, names),
{
    let p = disk + suffix;
    assert(names.push(p).drop_last() =~= names);
    assert(names.push(disk).drop_last() =~= names);
    assert(names.push(other).drop_last() =~= names);
    assert(p.subrange(0, disk.len() as int) =~= disk);
}

/// The drives are those of the block devices that are drives, in their order.
pub proof fn law_drives_among(disks: Seq<linux::SysDisk>, d: linux::SysDisk)
    ensures
        linux::drives_among(Seq::empty()).len() == 0,
        linux::drives_among(disks.push(d)) == match linux::drive_told(d) {
            Some(u) => linux::drives_among(disks).push(u),
            None => linux::drives_among(disks),
        },
{
    assert(disks.push(d).drop_last() =~= disks);
}

// ---------------------------------------------------------------------------
// What is run for a drive
// ---------------------------------------------------------------------------
/// How a drive is unmounted: on macOS all of it at once, which must succeed; on Linux each of its
/// partitions, in order, whether or not that succeeds.
pub proof fn law_unmounting(d: models::UsbDriveView, k: int)
    ensures
        drives::unmount_commands(Platform::MacOs, d) matches Some(c) && c.len() == 1
            && c[0].program == "diskutil"@ && c[0].args == seq!["unmountDisk"@, d.device]
            && c[0].failure == Some("Failed to unmount "@ + d.device),
        drives::unmount_commands(Platform::Linux, d) matches Some(c) && c.len()
            == d.partitions.len() && (0 <= k < d.partitions.len() ==> c[k].program == "umount"@
            && c[k].args == seq![d.partitions[k]] && c[k].failure is None),
        drives::unmount_commands(Platform::Other, d) is None,
{
}

/// How a drive is ejected: all of it, which must succeed.
pub proof fn law_ejecting(d: models::UsbDriveView)
    ensures
        drives::eject_command(Platform::MacOs, d) matches Some(c) && c.program == "diskutil"@
            && c.args == seq!["eject"@, d.device] && c.failure == Some(
            "Failed to eject "@ + d.device,
        ),
        drives::eject_command(Platform::Linux, d) matches Some(c) && c.program == "eject"@ && c.args
            == seq![d.device] && c.failure == Some("Failed to eject "@ + d.device),
        drives::eject_command(Platform::Other, d) is None,
{
}

// ---------------------------------------------------------------------------
// macOS
// ---------------------------------------------------------------------------
/// Of the values of a list those that are strings are taken, in their order.
pub proof fn law_strings(nodes: Seq<tree::TreeNodeView>, at: Seq<int>, x: int)
    ensures
        macos::strings_at(nodes, Seq::empty()).len() == 0,
        macos::strings_at(nodes, at.push(x)) == match nodes[x].string {
            Some(s) => macos::strings_at(nodes, at).push(s),
            None => macos::strings_at(nodes, at),
        },
{
    assert(at.push(x).drop_last() =~= at);
}

/// What is read of the answers of `diskutil`: the disks under `WholeDisks`, the partitions under
/// `AllDisks` but for the disk itself. A list that cannot be read is an error; one that the program
/// could not give is an error where disks are asked for, and otherwise tells of nothing.
pub proof fn law_answers(
    list: std::result::Result<Seq<tree::TreeNodeView>, Seq<char>>,
    disk_id: Seq<char>,
)
    ensures
        macos::disks_told(false, list) == Err::<Seq<Seq<char>>, _>(
            error::ErrorView::Other("diskutil list failed"@),
        ),
        macos::info_told(false, list) == Ok::<_, error::ErrorView>(None::<(Seq<char>, u64)>),
        macos::partitions_told(false, list, disk_id) == Ok::<_, error::ErrorView>(
            Seq::<Seq<char>>::empty(),
        ),
        list matches Err(e) ==> {
            let told = error::ErrorView::Other("plist parse: "@ + e);
            &&& macos::disks_told(true, list) == Err::<Seq<Seq<char>>, _>(told)
            &&& macos::info_told(true, list) == Err::<Option<(Seq<char>, u64)>, _>(told)
            &&& macos::partitions_told(true, list, disk_id) == Err::<Seq<Seq<char>>, _>(told)
        },
        list matches Ok(nodes) ==> {
            &&& macos::disks_told(true, list) == Ok::<_, error::ErrorView>(
                macos::strings_at(nodes, tree::elements(nodes, 0, "WholeDisks"@)),
            )
            &&& macos::info_told(true, list) == Ok::<_, error::ErrorView>(macos::drive_info(nodes))
            &&& macos::partitions_told(true, list, disk_id) == Ok::<_, error::ErrorView>(
                macos::other_disks(
                    macos::strings_at(nodes, tree::elements(nodes, 0, "AllDisks"@)),
                    disk_id,
                ),
            )
        },
{
}

/// The partitions of a disk are all disks but itself, in their order, as devices.
pub proof fn law_other_disks(disks: Seq<Seq<char>>, disk_id: Seq<char>, x: Seq<char>)
    ensures
        macos::other_disks(Seq::empty(), disk_id).len() == 0,
        macos::other_disks(disks.push(disk_id), disk_id) == macos::other_disks(disks, disk_id),
        x != disk_id ==> macos::other_disks(disks.push(x), disk_id) == macos::other_disks(
            disks,
            disk_id,
        ).push("/dev/"@ + x),
{
    assert(disks.push(disk_id).drop_last() =~= disks);
    assert(disks.push(x).drop_last() =~= disks);
}

/// A disk is a drive if and only if it is said to be removable or external, and not said to be
/// virtual. Its name and size are those that are told, or `USB Drive` and zero.
pub proof fn law_drive_info(nodes: Seq<tree::TreeNodeView>)
    ensures
        macos::drive_info(nodes) is Some <==> (tree::member(
            nodes,
            0,
            "RemovableMediaOrExternalDevice"@,
        ) matches Some(j) && nodes[j].boolean == Some(true)) && !(tree::member(
            nodes,
            0,
            "VirtualOrPhysical"@,
        ) matches Some(j) && nodes[j].string == Some("Virtual"@)),
        macos::drive_info(nodes) matches Some(x) ==> {
            &&& match tree::member(nodes, 0, "MediaName"@) {
                Some(j) => match nodes[j].string {
                    Some(s) => x.0 == s,
                    None => x.0 == "USB Drive"@,
                },
                None => x.0 == "USB Drive"@,
            }
            &&& match tree::member(nodes, 0, "TotalSize"@) {
                Some(j) => match nodes[j].number {
                    Some(n) => x.1 == n,
                    None => x.1 == 0,
                },
                None => x.1 == 0,
            }
        },
{
}

/// What is asked of `diskutil`: for the external disks; then about each disk by its device; then for
/// the disks of that device.
pub proof fn law_questions(s: survey::SurveyView)
    ensures
        match s.question {
            survey::QuestionView::Disks => survey::args_asking(s) == Some(
                seq!["list"@, "-plist"@, "external"@],
            ),
            survey::QuestionView::Info => survey::args_asking(s) == Some(
                seq!["info"@, "-plist"@, "/dev/"@ + s.left[0]],
            ),
            survey::QuestionView::Partitions(_, _) => survey::args_asking(s) == Some(
                seq!["list"@, "-plist"@, "/dev/"@ + s.left[0]],
            ),
            survey::QuestionView::Nothing => survey::args_asking(s) is None,
        },
{
}

/// The drives of a survey are told each by the answers about its own disk: its device, the name and
/// the size that the disk was said to have, and the partitions found on it; a disk that is no drive
/// is passed over; the first error ends the survey.
pub proof fn law_drive_of_survey(
    told: spec_fn(Seq<Seq<char>>) -> survey::Answer,
    before: Seq<models::UsbDriveView>,
    id: Seq<char>,
    rest: Seq<Seq<char>>,
)
    ensures
        ({
            let info = told(seq!["info"@, "-plist"@, "/dev/"@ + id]);
            let parts = told(seq!["list"@, "-plist"@, "/dev/"@ + id]);
            let all = survey::drives_by(told, before, seq![id] + rest);
            match macos::info_told(info.0, info.1) {
                Err(e) => all == Err::<Seq<models::UsbDriveView>, _>(e),
                Ok(None) => all == survey::drives_by(told, before, rest),
                Ok(Some(x)) => match macos::partitions_told(parts.0, parts.1, id) {
                    Err(e) => all == Err::<Seq<models::UsbDriveView>, _>(e),
                    Ok(p) => all == survey::drives_by(
                        told,
                        before.push(
                            models::UsbDriveView {
                                device: "/dev/"@ + id,
                                name: x.0,
                                size: x.1,
                                partitions: p,
                            },
                        ),
                        rest,
                    ),
                },
            }
        }),
        survey::drives_by(told, before, Seq::empty()) == Ok::<_, error::ErrorView>(before),
{
    assert((seq![id] + rest).skip(1) =~= rest);
    assert((seq![id] + rest)[0] == id);
}

// ---------------------------------------------------------------------------
// Property lists
// ---------------------------------------------------------------------------
/// A list in the binary form, which begins with `bplist00`, is not read.
pub proof fn law_binary_list(d: Seq<u8>)
    requires
        d.len() >= 8,
        d[0] == 0x62 && d[1] == 0x70 && d[2] == 0x6c && d[3] == 0x69 && d[4] == 0x73 && d[5] == 0x74
            && d[6] == 0x30 && d[7] == 0x30,
    ensures
        !lists::is_tame(d),
{
    assert(d.subrange(0, 8) =~= lists::binary_mark());
}

/// A list is read only if every date in it has a year of four digits, from 1602 to 9998, right
/// behind its tag.
pub proof fn law_dates(d: Seq<u8>, i: int)
    requires
        lists::is_tame(d),
        0 <= i,
        i + 5 <= d.len(),
        d[i] == 0x3c || d[i] == 0x3a,
        d[i + 1] == 0x64 && d[i + 2] == 0x61 && d[i + 3] == 0x74 && d[i + 4] == 0x65,
    ensures
        d[i] == 0x3c && i + 10 <= d.len() && d[i + 5] == 0x3e,
        0x30 <= d[i + 6] <= 0x39 && 0x30 <= d[i + 7] <= 0x39 && 0x30 <= d[i + 8] <= 0x39 && 0x30 <= d[i
            + 9] <= 0x39,
        1602 <= (d[i + 6] - 48) * 1000 + (d[i + 7] - 48) * 100 + (d[i + 8] - 48) * 10 + (d[i + 9]
            - 48) <= 9998,
{
    assert(d.subrange(i + 1, i + 5) =~= lists::date_name());
    assert(lists::has_no_odd_date(d, i));
}

/// The `k`-th piece of seven bytes is the tag that opens an array.
pub open spec fn is_array_tag(d: Seq<u8>, k: int) -> bool {
    let i = 7 * k;
    d[i] == 0x3c && d[i + 1] == 0x61 && d[i + 2] == 0x72 && d[i + 3] == 0x72 && d[i + 4] == 0x61
        && d[i + 5] == 0x79 && d[i + 6] == 0x3e
}

/// A list that opens more than 256 arrays within one another is not read.
pub proof fn law_deep_nesting(d: Seq<u8>, n: nat)
    requires
        n > 256,
        d.len() >= 7 * n,
        forall|k: int| 0 <= k < n ==> #[trigger] is_array_tag(d, k),
    ensures
        !lists::is_tame(d),
{
    lemma_opened(d, n, n);
    assert(is_array_tag(d, 0));
    assert(d[0] == 0x3c);
    let i = 7 * n - 1;
    assert(0 <= i < d.len());
    if lists::nests_little(d) {
        assert(lists::is_told_rightly(d, i));
        assert((i + 1) as nat == 7 * n);
        assert(lists::opened(d, (i + 1) as nat) <= lists::MAX_NESTING);
    }
}

proof fn lemma_opened(d: Seq<u8>, n: nat, k: nat)
    requires
        k <= n,
        d.len() >= 7 * n,
        forall|k: int| 0 <= k < n ==> #[trigger] is_array_tag(d, k),
    ensures
        lists::opened(d, 7 * k) == k,
    decreases k,
{
    if k > 0 {
        let j = k - 1;
        lemma_opened(d, n, j as nat);
        let at = 7 * j;
        assert(is_array_tag(d, j));
        assert(d.subrange(at + 1, at + 6) =~= lists::array_name());
        assert(lists::stands_at(d, at + 1, lists::array_name()));
        assert(lists::name_end(d, at + 1) == Some(at + 6));
        assert(lists::is_start(d, at));
        assert(!lists::is_empty(d, at));
        assert(lists::opened(d, (at + 1) as nat) == k);
        assert(lists::opened(d, (at + 2) as nat) == k);
        assert(lists::opened(d, (at + 3) as nat) == k);
        assert(lists::opened(d, (at + 4) as nat) == k);
        assert(lists::opened(d, (at + 5) as nat) == k);
        assert(lists::opened(d, (at + 6) as nat) == k);
        assert(lists::opened(d, (at + 7) as nat) == k);
    }
}

/// A list in which nothing is opened at all, with none of the characters for that, is read, unless it
/// is one in the binary form.
pub proof fn law_flat_list(d: Seq<u8>)
    requires
        forall|i: int|
            0 <= i < d.len() ==> #[trigger] d[i] != 0x3c && d[i] != 0x3a && d[i] != 0x28 && d[i]
                != 0x7b,
        d.len() == 0 || d[0] != 0x62,
    ensures
        lists::is_tame(d),
{
    if lists::stands_at(d, 0, lists::binary_mark()) {
        assert(d.subrange(0, 8)[0] == lists::binary_mark()[0]);
    }
    lemma_no_collections(d, d.len());
}

proof fn lemma_no_collections(d: Seq<u8>, n: nat)
    requires
        n <= d.len(),
        forall|i: int|
            0 <= i < d.len() ==> #[trigger] d[i] != 0x3c && d[i] != 0x3a && d[i] != 0x28 && d[i]
                != 0x7b,
    ensures
        lists::collections(d, n) == 0,
    decreases n,
{
    if n > 0 {
        lemma_no_collections(d, (n - 1) as nat);
        assert(d[n - 1] != 0x3c);
    }
}

/// The `k`-th piece of six bytes is the tag that opens a dictionary.
pub open spec fn is_dict_tag(d: Seq<u8>, k: int) -> bool {
    let i = 6 * k;
    d[i] == 0x3c && d[i + 1] == 0x64 && d[i + 2] == 0x69 && d[i + 3] == 0x63 && d[i + 4] == 0x74
        && d[i + 5] == 0x3e
}

/// A list that opens more than 256 dictionaries within one another is not read.
pub proof fn law_deep_dictionaries(d: Seq<u8>, n: nat)
    requires
        n > 256,
        d.len() >= 6 * n,
        forall|k: int| 0 <= k < n ==> #[trigger] is_dict_tag(d, k),
    ensures
        !lists::is_tame(d),
{
    lemma_opened_dicts(d, n, n);
    assert(is_dict_tag(d, 0));
    assert(d[0] == 0x3c);
    let i = 6 * n - 1;
    assert(0 <= i < d.len());
    if lists::nests_little(d) {
        assert(lists::is_told_rightly(d, i));
        assert((i + 1) as nat == 6 * n);
        assert(lists::opened(d, (i + 1) as nat) <= lists::MAX_NESTING);
    }
}

proof fn lemma_opened_dicts(d: Seq<u8>, n: nat, k: nat)
    requires
        k <= n,
        d.len() >= 6 * n,
        forall|k: int| 0 <= k < n ==> #[trigger] is_dict_tag(d, k),
    ensures
        lists::opened(d, 6 * k) == k,
    decreases k,
{
    if k > 0 {
        let j = k - 1;
        lemma_opened_dicts(d, n, j as nat);
        let at = 6 * j;
        assert(is_dict_tag(d, j));
        assert(!lists::stands_at(d, at + 1, lists::array_name())) by {
            if lists::stands_at(d, at + 1, lists::array_name()) {
                assert(d.subrange(at + 1, at + 6)[0] == lists::array_name()[0]);
            }
        }
        assert(d.subrange(at + 1, at + 5) =~= lists::dict_name());
        assert(lists::stands_at(d, at + 1, lists::dict_name()));
        assert(lists::name_end(d, at + 1) == Some(at + 5));
        assert(lists::is_start(d, at));
        assert(!lists::is_empty(d, at));
        assert(lists::opened(d, (at + 1) as nat) == k);
        assert(lists::opened(d, (at + 2) as nat) == k);
        assert(lists::opened(d, (at + 3) as nat) == k);
        assert(lists::opened(d, (at + 4) as nat) == k);
        assert(lists::opened(d, (at + 5) as nat) == k);
        assert(lists::opened(d, (at + 6) as nat) == k);
    }
}

/// A list in the older form with more than 256 opening brackets is not read.
pub proof fn law_many_brackets(d: Seq<u8>)
    requires
        d.len() > 256,
        forall|i: int| 0 <= i < d.len() ==> #[trigger] d[i] == 0x28 || d[i] == 0x7b,
    ensures
        !lists::is_tame(d),
{
    assert(d[0] == 0x28 || d[0] == 0x7b);
    lemma_all_brackets(d, d.len());
}

proof fn lemma_all_brackets(d: Seq<u8>, n: nat)
    requires
        n <= d.len(),
        forall|i: int| 0 <= i < d.len() ==> #[trigger] d[i] == 0x28 || d[i] == 0x7b,
    ensures
        lists::collections(d, n) == n,
    decreases n,
{
    if n > 0 {
        lemma_all_brackets(d, (n - 1) as nat);
        assert(d[n - 1] == 0x28 || d[n - 1] == 0x7b);
    }
}

/// A survey begins with the disks that are listed as external, and goes on with each of them in
/// turn.
pub proof fn law_survey_of_disks(told: spec_fn(Seq<Seq<char>>) -> survey::Answer)
    ensures
        ({
            let first = told(seq!["list"@, "-plist"@, "external"@]);
            match macos::disks_told(first.0, first.1) {
                Err(e) => survey::all_drives_by(told) == Err::<Seq<models::UsbDriveView>, _>(e),
                Ok(disks) => survey::all_drives_by(told) == survey::drives_by(
                    told,
                    Seq::empty(),
                    disks,
                ),
            }
        }),
{
}

/// The bytes at a place are the name of an array or of a dictionary.
pub open spec fn names_collection(d: Seq<u8>, i: int) -> Option<int> {
    if 0 <= i && i + 5 <= d.len() && d[i] == 0x61 && d[i + 1] == 0x72 && d[i + 2] == 0x72 && d[i + 3]
        == 0x61 && d[i + 4] == 0x79 {
        Some(i + 5)
    } else if 0 <= i && i + 4 <= d.len() && d[i] == 0x64 && d[i + 1] == 0x69 && d[i + 2] == 0x63 && d[i
        + 3] == 0x74 {
        Some(i + 4)
    } else {
        None
    }
}

proof fn lemma_name_end(d: Seq<u8>, i: int)
    ensures
        lists::name_end(d, i) == names_collection(d, i),
{
    let a = lists::array_name();
    let c = lists::dict_name();
    if 0 <= i && i + 5 <= d.len() {
        let x = d.subrange(i, i + 5);
        if x == a {
            assert(x[0] == a[0] && x[1] == a[1] && x[2] == a[2] && x[3] == a[3] && x[4] == a[4]);
        }
        if d[i] == 0x61 && d[i + 1] == 0x72 && d[i + 2] == 0x72 && d[i + 3] == 0x61 && d[i + 4]
            == 0x79 {
            assert(x =~= a);
        }
    }
    if 0 <= i && i + 4 <= d.len() {
        let x = d.subrange(i, i + 4);
        if x == c {
            assert(x[0] == c[0] && x[1] == c[1] && x[2] == c[2] && x[3] == c[3]);
        }
        if d[i] == 0x64 && d[i + 1] == 0x69 && d[i + 2] == 0x63 && d[i + 3] == 0x74 {
            assert(x =~= c);
        }
    }
}

/// How many collections are open grows by one with a tag that opens one, shrinks by one with a tag
/// that closes one, and stays with anything else, such as a tag that opens and closes at once.
pub proof fn law_opened(d: Seq<u8>, i: int)
    requires
        0 <= i < d.len(),
    ensures
        ({
            let before = lists::opened(d, i as nat);
            let after = lists::opened(d, (i + 1) as nat);
            let open = names_collection(d, i + 1);
            let close = names_collection(d, i + 2);
            let opens = d[i] == 0x3c && open is Some;
            let at_once = opens && open->0 + 1 < d.len() && d[open->0] == 0x2f && d[open->0 + 1]
                == 0x3e;
            let closes = d[i] == 0x3c && i + 1 < d.len() && d[i + 1] == 0x2f && close is Some
                && close->0 < d.len() && d[close->0] == 0x3e;
            &&& opens && !at_once ==> after == before + 1
            &&& closes ==> after == if before > 0 {
                before - 1
            } else {
                0
            }
            &&& at_once || !opens && !closes ==> after == before
        }),
        lists::opened(d, 0) == 0,
{
    lemma_name_end(d, i + 1);
    lemma_name_end(d, i + 2);
}

/// Whether a list is read, byte by byte. No date in it may have an odd year. One in XML may nest no
/// deeper than 256, and within its collections every tag must be plain, and none may follow a colon;
/// one in another form may have no more than 256 places where a collection may begin.
pub proof fn law_read_lists(d: Seq<u8>)
    requires
        d.len() < 8 || d[0] != 0x62,
        forall|i: int| 0 <= i < d.len() ==> #[trigger] lists::has_no_odd_date(d, i),
    ensures
        d.len() > 0 && d[0] == 0x3c ==> (lists::is_tame(d) <==> forall|i: int|
            0 <= i < d.len() ==> #[trigger] lists::is_told_rightly(d, i) && lists::opened(
                d,
                (i + 1) as nat,
            ) <= 256),
        d.len() == 0 || d[0] != 0x3c ==> (lists::is_tame(d) <==> lists::collections(d, d.len())
            <= 256),
{
    if lists::stands_at(d, 0, lists::binary_mark()) {
        assert(d.subrange(0, 8)[0] == lists::binary_mark()[0]);
    }
}

/// A date with a year of four digits from 1602 to 9998 right behind its tag stands in no way, and
/// neither does anything that is no date.
pub proof fn law_good_date(d: Seq<u8>, i: int)
    requires
        0 <= i < d.len(),
    ensures
        d[i] == 0x3c && i + 10 <= d.len() && d[i + 5] == 0x3e && 0x30 <= d[i + 6] <= 0x39 && 0x30 <= d[i
            + 7] <= 0x39 && 0x30 <= d[i + 8] <= 0x39 && 0x30 <= d[i + 9] <= 0x39 && 1602 <= (d[i + 6]
            - 48) * 1000 + (d[i + 7] - 48) * 100 + (d[i + 8] - 48) * 10 + (d[i + 9] - 48) <= 9998
            ==> lists::has_no_odd_date(d, i),
        d[i] != 0x3c && d[i] != 0x3a ==> lists::has_no_odd_date(d, i),
        i + 5 > d.len() || d[i + 1] != 0x64 || d[i + 2] != 0x61 || d[i + 3] != 0x74 || d[i + 4] != 0x65
            ==> lists::has_no_odd_date(d, i),
{
    let name = lists::date_name();
    if lists::stands_at(d, i + 1, name) {
        let x = d.subrange(i + 1, i + 5);
        assert(x[0] == name[0] && x[1] == name[1] && x[2] == name[2] && x[3] == name[3]);
    }
}

/// A tag is told rightly unless it is one within a collection that does not end after letters and
/// slashes alone, or the name of a collection stands behind a colon.
pub proof fn law_told_rightly(d: Seq<u8>, i: int)
    requires
        0 <= i < d.len(),
    ensures
        d[i] == 0x3a ==> (lists::is_told_rightly(d, i) <==> names_collection(d, i + 1) is None),
        d[i] == 0x3c ==> (lists::is_told_rightly(d, i) <==> (lists::opened(d, i as nat) == 0
            && names_collection(d, i + 1) is None) || lists::ends_plainly(d, i + 1)),
        d[i] != 0x3a && d[i] != 0x3c ==> lists::is_told_rightly(d, i),
{
    lemma_name_end(d, i + 1);
}

/// A tag ends plainly if and only if small letters and slashes alone stand before its end.
pub proof fn law_plain_tag(d: Seq<u8>, i: int, end: int)
    requires
        0 <= i <= end < d.len(),
        forall|k: int| i <= k < end ==> 0x61 <= #[trigger] d[k] <= 0x7a || d[k] == 0x2f,
    ensures
        d[end] == 0x3e ==> lists::ends_plainly(d, i),
        d[end] != 0x3e && d[end] != 0x2f && !(0x61 <= d[end] <= 0x7a) ==> !lists::ends_plainly(d, i),
    decreases end - i,
{
    if i < end {
        assert(0x61 <= d[i] <= 0x7a || d[i] == 0x2f);
        law_plain_tag(d, i + 1, end);
    }
}

/// Where a collection may begin in a list that is no XML: at a round or a curly bracket, and at its
/// name behind a colon or the beginning of a tag.
pub proof fn law_collections(d: Seq<u8>, i: int)
    requires
        0 <= i < d.len(),
    ensures
        ({
            let may = d[i] == 0x28 || d[i] == 0x7b || (d[i] == 0x3c || d[i] == 0x3a)
                && names_collection(d, i + 1) is Some;
            lists::collections(d, (i + 1) as nat) == lists::collections(d, i as nat) + if may {
                1nat
            } else {
                0nat
            }
        }),
        lists::collections(d, 0) == 0,
{
    lemma_name_end(d, i + 1);
}

/// Contracts speak of what is run by all that it holds.
pub proof fn law_view(v: Seq<drives::DriveCommand>, i: int, k: int)
    ensures
        drives::command_views(v).len() == v.len(),
        0 <= i < v.len() ==> {
            let c = drives::command_views(v)[i];
            &&& c.program == v[i].program@
            &&& c.args.len() == v[i].args@.len()
            &&& 0 <= k < v[i].args@.len() ==> c.args[k] == v[i].args@[k]@
            &&& match v[i].failure {
                Some(s) => c.failure == Some(s@),
                None => c.failure is None,
            }
        },
{
}

} // verus!
