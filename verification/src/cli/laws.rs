//! What holds of the commands as a whole.

use crate::cli::choices;
use crate::cli::flow;
use crate::cli::flow::{BurnRequest, Stage};
use crate::cli::output;
use crate::microsoft::catalog;
use crate::microsoft::models as products;
use crate::models;
use crate::text;
use vstd::prelude::*;

verus! {

// ---------------------------------------------------------------------------
// Choices
// ---------------------------------------------------------------------------
/// The usual words for the two architectures are understood in letters of any case; any other word
/// stays as it is.
pub proof fn law_arch_named(arch: Seq<char>)
    ensures
        ({
            let x64 = text::same_ignoring_case("x64"@, arch) || text::same_ignoring_case(
                "x86_64"@,
                arch,
            ) || text::same_ignoring_case("amd64"@, arch);
            let arm = text::same_ignoring_case("arm64"@, arch) || text::same_ignoring_case(
                "aarch64"@,
                arch,
            );
            &&& x64 ==> choices::arch_named(arch) == "x64"@
            &&& arm ==> choices::arch_named(arch) == "ARM64"@
            &&& !x64 && !arm ==> choices::arch_named(arch) == arch
        }),
{
    reveal_strlit("x64");
    reveal_strlit("x86_64");
    reveal_strlit("amd64");
    reveal_strlit("arm64");
    reveal_strlit("aarch64");
    if text::same_ignoring_case("amd64"@, arch) && text::same_ignoring_case("arm64"@, arch) {
        assert(text::ascii_lower("amd64"@[1]) == text::ascii_lower(arch[1]));
        assert(text::ascii_lower("arm64"@[1]) == text::ascii_lower(arch[1]));
        assert("amd64"@[1] == 'm' && "arm64"@[1] == 'r');
    }
}

/// The languages are offered all, each once: American English first, then other English ones, then
/// the rest, and within these by name, and in the order of the list where names are the same.
pub proof fn law_offer(l: Seq<models::LanguageView>, s: Seq<usize>, k: int, m: int)
    requires
        choices::is_offer(l, s),
        0 <= k < m < s.len(),
    ensures
        s.len() == l.len(),
        s[k] < l.len() && s[m] < l.len() && s[k] != s[m],
        ({
            let a = l[s[k] as int];
            let b = l[s[m] as int];
            &&& b.id == "en-us"@ ==> a.id == "en-us"@
            &&& text::begins_with(b.id, "en-"@) ==> text::begins_with(a.id, "en-"@)
            &&& (a.id == "en-us"@) == (b.id == "en-us"@) && text::begins_with(a.id, "en-"@)
                == text::begins_with(b.id, "en-"@) ==> text::text_less(a.name, b.name) || a.name
                == b.name && s[k] < s[m]
        }),
{
    assert(choices::offered_before(l, s[k] as int, s[m] as int));
    reveal_strlit("en-us");
    reveal_strlit("en-");
    assert("en-us"@.subrange(0, 3) =~= "en-"@);
    text::lemma_less_irreflexive(l[s[k] as int].name);
}

/// The language that is taken where one is asked for: the first whose name holds what is asked for,
/// or whose identifier is that, in letters of any case.
pub proof fn law_language_asked_for(
    l: Seq<models::LanguageView>,
    asked: Seq<char>,
    i: int,
    k: int,
)
    requires
        choices::resolves_to(l, Some(asked), i),
        0 <= k < l.len(),
        text::has_text(text::lowercase(l[k].name), text::lowercase(asked)) || text::lowercase(l[k].id)
            == text::lowercase(asked),
    ensures
        0 <= i <= k,
        text::has_text(text::lowercase(l[i].name), text::lowercase(asked)) || text::lowercase(l[i].id)
            == text::lowercase(asked),
{
    if k < i {
        assert(!choices::is_asked_for(
            text::lowercase(l[k].name),
            text::lowercase(l[k].id),
            text::lowercase(asked),
        ));
    }
}

/// The language that is taken where none is asked for: the first that is American English or has
/// `english` in its name, in letters of any case; the first of all where there is none.
pub proof fn law_usual_language(l: Seq<models::LanguageView>, i: int, k: int)
    requires
        choices::resolves_to(l, None, i),
        0 <= k < l.len(),
    ensures
        0 <= i < l.len(),
        l[k].id == "en-us"@ || text::has_text(text::lowercase(l[k].name), "english"@) ==> i <= k && (
        l[i].id == "en-us"@ || text::has_text(text::lowercase(l[i].name), "english"@)),
        !(l[i].id == "en-us"@ || text::has_text(text::lowercase(l[i].name), "english"@)) ==> i == 0,
{
    if choices::is_usual(text::lowercase(l[k].name), l[k].id) {
        assert(choices::is_usual(text::lowercase(l[k].name), l[k].id));
        if k < i {
            assert(!choices::is_usual(text::lowercase(l[k].name), l[k].id));
        }
    }
}

/// A download is saved under the name that goes with the language, or else with the link; a drive is
/// found by its device, and told by its name, size and device.
pub proof fn law_names_of_choices(
    l: models::LanguageView,
    link: models::DownloadLinkView,
    d: Seq<models::UsbDriveView>,
    device: Seq<char>,
    i: int,
    k: int,
    size: Seq<char>,
)
    requires
        choices::is_drive_at(d, device, i),
    ensures
        match l.friendly_filename {
            Some(f) => choices::output_name_of(l, link) == f,
            None => choices::output_name_of(l, link) == link.filename,
        },
        0 <= i < d.len(),
        d[i].device == device,
        0 <= k < d.len() && d[k].device == device ==> i <= k,
        choices::label_of(d[i], size) == d[i].name + " ("@ + size + ") — "@ + d[i].device,
        choices::devices(d).len() == d.len(),
        choices::devices(d)[i] == device,
{
}

// ---------------------------------------------------------------------------
// Courses
// ---------------------------------------------------------------------------
/// The wizard asks for the version, the architecture and the language before it looks for drives;
/// it asks for a drive only where one is wanted; and then the links are fetched and the file is
/// looked for.
pub proof fn law_wizard_begins(a: bool, b: bool, wanted: bool)
    ensures
        ({
            let s1 = flow::wizard_next(Stage::PickVersion, a, b);
            let s2 = flow::wizard_next(s1, a, b);
            let s3 = flow::wizard_next(s2, a, b);
            let s4 = flow::wizard_next(s3, a, b);
            let s5 = flow::wizard_next(s4, wanted, b);
            let s6 = if wanted {
                flow::wizard_next(s5, a, b)
            } else {
                s5
            };
            &&& s1 == Stage::PickArch && s2 == Stage::FetchLanguages && s3 == Stage::PickLanguage
            &&& s4 == Stage::ListDrives
            &&& wanted ==> s5 == Stage::PickDrive
            &&& s6 == Stage::FetchLinks
            &&& flow::wizard_next(s6, a, b) == Stage::CheckExisting
        }),
{
}

/// The wizard downloads the file unless it is there; then it burns it if a drive was picked and the
/// user consents, and ends.
pub proof fn law_wizard_finishes(there: bool, has_drive: bool, consent: bool, a: bool)
    ensures
        ({
            let s1 = flow::wizard_next(Stage::CheckExisting, there, has_drive);
            let s2 = if there {
                s1
            } else {
                flow::wizard_next(s1, a, has_drive)
            };
            let s3 = flow::wizard_next(s2, consent, has_drive);
            &&& !there ==> s1 == Stage::Download
            &&& has_drive ==> s2 == Stage::Confirm
            &&& !has_drive ==> s2 == Stage::Done
            &&& has_drive && consent ==> s3 == Stage::Burn
            &&& has_drive && !consent ==> s3 == Stage::Done
            &&& flow::wizard_next(Stage::Burn, a, has_drive) == Stage::Done
            &&& flow::wizard_next(Stage::Done, a, has_drive) == Stage::Done
        }),
{
}

/// To burn, a file that is not given is found first: the language is resolved, the links are
/// fetched, and the file is downloaded unless it is there.
pub proof fn law_burn_begins(q: BurnRequest, a: bool, there: bool)
    ensures
        q.has_iso ==> flow::burn_first(q) == Stage::ListDrives,
        !q.has_iso ==> ({
            let s1 = flow::burn_next(flow::burn_first(q), a, q);
            let s2 = flow::burn_next(s1, a, q);
            let s3 = flow::burn_next(s2, a, q);
            let s4 = flow::burn_next(s3, there, q);
            let s5 = if there {
                s4
            } else {
                flow::burn_next(s4, a, q)
            };
            &&& flow::burn_first(q) == Stage::FetchLanguages
            &&& s1 == Stage::ResolveLanguage && s2 == Stage::FetchLinks && s3
                == Stage::CheckExisting
            &&& !there ==> s4 == Stage::Download
            &&& s5 == Stage::ListDrives
        }),
{
}

/// Then the drive that is named is looked up, or one is picked; and it is burnt with the user's
/// consent, which may be given in advance.
pub proof fn law_burn_finishes(q: BurnRequest, a: bool, consent: bool)
    ensures
        ({
            let s1 = flow::burn_next(Stage::ListDrives, a, q);
            let s2 = flow::burn_next(s1, a, q);
            let s3 = flow::burn_next(s2, consent, q);
            &&& q.has_drive ==> s1 == Stage::FindDrive
            &&& !q.has_drive ==> s1 == Stage::PickDrive
            &&& q.yes ==> s2 == Stage::Burn
            &&& !q.yes ==> s2 == Stage::Confirm
            &&& !q.yes && consent ==> s3 == Stage::Burn
            &&& !q.yes && !consent ==> s3 == Stage::Done
            &&& flow::burn_next(Stage::Burn, a, q) == Stage::Done
            &&& flow::burn_next(Stage::Done, a, q) == Stage::Done
        }),
{
}

/// What the user is told before a download: what it is for, in which language, and whether a drive
/// will be written afterwards.
pub proof fn law_summary(
    product: Seq<char>,
    arch: Seq<char>,
    language: Seq<char>,
    drive: Option<Seq<char>>,
)
    ensures
        ({
            let s = flow::summary(product, arch, language, drive);
            &&& s[0] == "\n  Windows:  "@ + product + " ("@ + arch + ")"@
            &&& s[1] == "  Language: "@ + language
            &&& match drive {
                Some(d) => s.len() == 4 && s[2] == "  Drive:    "@ + d && s[3]
                    == "  Will download ISO, then write to USB.\n"@,
                None => s.len() == 3 && s[2] == "  Will download ISO to current directory.\n"@,
            }
        }),
{
}

// ---------------------------------------------------------------------------
// What is printed
// ---------------------------------------------------------------------------
/// A Windows version is printed by what stands behind `windows` in its key, with its architectures.
pub proof fn law_product_line(p: products::ProductView, version: Seq<char>)
    requires
        p.key == "windows"@ + version,
        !text::has_text(version, "windows"@),
    ensures
        output::product_line(p) == "  "@ + version + " — "@ + text::joined(
            p.editions.map_values(|e: products::EditionView| e.arch),
            ", "@,
        ),
{
    let from = "windows"@;
    reveal_strlit("windows");
    reveal_strlit("");
    assert(p.key.subrange(0, from.len() as int) =~= from);
    assert(text::first_at(p.key, from, 0));
    text::law_replaced(p.key, from, ""@, 0);
    text::law_replaced(version, from, ""@, 0);
    assert(p.key.skip(0int + from.len()) =~= version);
    assert(p.key.take(0) + ""@ + version =~= version);
}

/// A language is printed with its number, at least three characters wide, its name and its
/// identifier, and with its file where that has a name.
pub proof fn law_language_line(i: nat, l: models::LanguageView)
    ensures
        ({
            let n = text::decimal(i);
            let w = output::three_wide(n);
            let line = output::language_line(i, l);
            &&& w.len() >= 3
            &&& n.len() >= 3 ==> w == n
            &&& n.len() < 3 ==> w.len() == 3
            &&& w.subrange(w.len() - n.len(), w.len() as int) == n
            &&& forall|k: int| 0 <= k < w.len() - n.len() ==> #[trigger] w[k] == ' '
            &&& match l.friendly_filename {
                Some(f) => f.len() > 0 ==> line == "  "@ + w + ") "@ + l.name + " ("@ + l.id + ")"@
                    + (" — "@ + f),
                None => line == "  "@ + w + ") "@ + l.name + " ("@ + l.id + ")"@,
            }
            &&& l.friendly_filename == Some(Seq::<char>::empty()) ==> line == "  "@ + w + ") "@
                + l.name + " ("@ + l.id + ")"@
        }),
{
    let n = text::decimal(i);
    let w = output::three_wide(n);
    text::law_decimal(i);
    reveal_strlit("  ");
    reveal_strlit(" ");
    assert(w.subrange(w.len() - n.len(), w.len() as int) =~= n);
    let head = "  "@ + w + ") "@ + l.name + " ("@ + l.id + ")"@;
    assert(head + Seq::<char>::empty() =~= head);
}

/// A language in JSON has a name, a code and a file.
pub proof fn law_language_object(l: models::LanguageView)
    ensures
        output::language_object(l) == seq![
            ("name"@, Some(l.name)),
            ("code"@, Some(l.id)),
            ("filename"@, l.friendly_filename),
        ],
{
}

/// Where a language is not found, what was asked for and the first ten languages are told.
pub proof fn law_not_found(l: Seq<models::LanguageView>, asked: Seq<char>, k: int)
    ensures
        ({
            let f = output::first_labels(l);
            &&& l.len() <= 10 ==> f.len() == l.len()
            &&& l.len() > 10 ==> f.len() == 10
            &&& 0 <= k < f.len() ==> f[k] == l[k].name + " ("@ + l[k].id + ")"@
            &&& output::not_found_words(l, Some(asked)) == "Language '"@ + asked
                + "' not found. Available: "@ + text::joined(f, ", "@) + "..."@
            &&& output::not_found_words(l, None) == "Language '' not found. Available: "@
                + text::joined(f, ", "@) + "..."@
        }),
{
    reveal_strlit("Language '");
    reveal_strlit("' not found. Available: ");
    reveal_strlit("Language '' not found. Available: ");
    assert("Language '"@ + Seq::<char>::empty() + "' not found. Available: "@
        =~= "Language '' not found. Available: "@);
}

/// The link that is taken from a catalog: it is told by the first file in the language that is
/// resolved and for the architecture, and the language is one of those that the catalog has for it.
pub proof fn law_esd_link(
    es: Seq<catalog::CatalogEntryView>,
    arch: Seq<char>,
    filter: Option<Seq<char>>,
    l: Seq<models::LanguageView>,
    link: models::DownloadLinkView,
)
    requires
        flow::is_esd_choice(es, arch, filter, l, Ok(link)),
    ensures
        catalog::are_languages(es, arch, l),
        exists|i: int, j: int|
            {
                &&& #[trigger] choices::resolves_to(l, filter, i)
                &&& 0 <= i < l.len() && 0 <= j < es.len()
                &&& (#[trigger] es[j]).language_code == l[i].id
                &&& text::same_ignoring_case(es[j].architecture, arch)
                &&& link.url == es[j].file_path
                &&& link.filename == es[j].filename
                &&& link.size == Some(es[j].size)
                &&& link.sha1 == Some(es[j].sha1)
            },
{
    let (i, j) = choose|i: int, j: int|
        {
            &&& #[trigger] choices::resolves_to(l, filter, i)
            &&& #[trigger] catalog::is_first_wanted(es, l[i].id, arch, j)
            &&& link == catalog::link_of(es[j])
        };
    assert(choices::resolves_to(l, filter, i));
    assert(es[j].language_code == l[i].id);
}

} // verus!
