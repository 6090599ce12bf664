//! The courses of the commands: what is done next.

use crate::error;
use crate::error::{Error, Result};
use crate::cli::choices;
use crate::cli::output;
use crate::disk::partition::PartitionScheme;
use crate::microsoft::catalog;
use crate::microsoft::catalog::CatalogEntry;
use crate::microsoft::models as products;
use crate::models;
use crate::models::{DownloadLink, Language, UsbDrive};
use crate::text;
use vstd::prelude::*;
use vstd::string::*;

verus! {

// ---------------------------------------------------------------------------
// The course of a command
// ---------------------------------------------------------------------------
/// Something that a command does.
#[derive(Debug, Clone, Copy, PartialEq, Eq, Structural)]
pub enum Stage {
    /// The user chooses a version.
    PickVersion,
    /// The user chooses an architecture.
    PickArch,
    /// The languages of the edition are fetched from the download service.
    FetchLanguages,
    /// The user chooses a language.
    PickLanguage,
    /// The language that was asked for is looked up.
    ResolveLanguage,
    /// The drives are listed.
    ListDrives,
    /// The user chooses a drive.
    PickDrive,
    /// The drive that was asked for is looked up.
    FindDrive,
    /// The links for the language are fetched.
    FetchLinks,
    /// It is looked whether the file is there already.
    CheckExisting,
    /// The file is downloaded.
    Download,
    /// The user is asked for consent to erasing the drive.
    Confirm,
    /// The drive is written.
    Burn,
    /// There is nothing left to do.
    Done,
}

/// What the user asked for in a command that writes a drive.
#[derive(Debug, Clone, Copy, PartialEq, Eq, Structural)]
pub struct BurnRequest {
    /// The image is given, and need not be downloaded.
    pub has_iso: bool,
    /// The drive is given.
    pub has_drive: bool,
    /// Consent is given beforehand.
    pub yes: bool,
}

/// What the wizard does after a stage. `yes` says, after the drives were listed, that there are
/// any; after it was looked for the file, that it is there; after the question for consent, that
/// it was given. `has_drive` says that a drive was chosen.
pub open spec fn wizard_next(stage: Stage, yes: bool, has_drive: bool) -> Stage {
    match stage {
        Stage::PickVersion => Stage::PickArch,
        Stage::PickArch => Stage::FetchLanguages,
        Stage::FetchLanguages => Stage::PickLanguage,
        Stage::PickLanguage => Stage::ListDrives,
        Stage::ListDrives => if yes {
            Stage::PickDrive
        } else {
            Stage::FetchLinks
        },
        Stage::PickDrive => Stage::FetchLinks,
        Stage::FetchLinks => Stage::CheckExisting,
        Stage::CheckExisting => if !yes {
            Stage::Download
        } else if has_drive {
            Stage::Confirm
        } else {
            Stage::Done
        },
        Stage::Download => if has_drive {
            Stage::Confirm
        } else {
            Stage::Done
        },
        Stage::Confirm => if yes {
            Stage::Burn
        } else {
            Stage::Done
        },
        _ => Stage::Done,
    }
}

/// What the wizard does after a stage.
pub fn next_in_wizard(stage: Stage, yes: bool, has_drive: bool) -> (r: Stage)
    ensures
        r == wizard_next(stage, yes, has_drive),
{
    match stage {
        Stage::PickVersion => Stage::PickArch,
        Stage::PickArch => Stage::FetchLanguages,
        Stage::FetchLanguages => Stage::PickLanguage,
        Stage::PickLanguage => Stage::ListDrives,
        Stage::ListDrives => if yes {
            Stage::PickDrive
        } else {
            Stage::FetchLinks
        },
        Stage::PickDrive => Stage::FetchLinks,
        Stage::FetchLinks => Stage::CheckExisting,
        Stage::CheckExisting => if !yes {
            Stage::Download
        } else if has_drive {
            Stage::Confirm
        } else {
            Stage::Done
        },
        Stage::Download => if has_drive {
            Stage::Confirm
        } else {
            Stage::Done
        },
        Stage::Confirm => if yes {
            Stage::Burn
        } else {
            Stage::Done
        },
        _ => Stage::Done,
    }
}

/// The first thing that the command to write a drive does.
pub open spec fn burn_first(q: BurnRequest) -> Stage {
    if q.has_iso {
        Stage::ListDrives
    } else {
        Stage::FetchLanguages
    }
}

/// What the command to write a drive does after a stage; `yes` is as for the wizard.
pub open spec fn burn_next(stage: Stage, yes: bool, q: BurnRequest) -> Stage {
    match stage {
        Stage::FetchLanguages => Stage::ResolveLanguage,
        Stage::ResolveLanguage => Stage::FetchLinks,
        Stage::FetchLinks => Stage::CheckExisting,
        Stage::CheckExisting => if yes {
            Stage::ListDrives
        } else {
            Stage::Download
        },
        Stage::Download => Stage::ListDrives,
        Stage::ListDrives => if q.has_drive {
            Stage::FindDrive
        } else {
            Stage::PickDrive
        },
        Stage::FindDrive | Stage::PickDrive => if q.yes {
            Stage::Burn
        } else {
            Stage::Confirm
        },
        Stage::Confirm => if yes {
            Stage::Burn
        } else {
            Stage::Done
        },
        _ => Stage::Done,
    }
}

/// The first thing that the command to write a drive does.
pub fn start_burn(q: BurnRequest) -> (r: Stage)
    ensures
        r == burn_first(q),
{
    if q.has_iso {
        Stage::ListDrives
    } else {
        Stage::FetchLanguages
    }
}

/// What the command to write a drive does after a stage.
pub fn next_in_burn(stage: Stage, yes: bool, q: BurnRequest) -> (r: Stage)
    ensures
        r == burn_next(stage, yes, q),
{
    match stage {
        Stage::FetchLanguages => Stage::ResolveLanguage,
        Stage::ResolveLanguage => Stage::FetchLinks,
        Stage::FetchLinks => Stage::CheckExisting,
        Stage::CheckExisting => if yes {
            Stage::ListDrives
        } else {
            Stage::Download
        },
        Stage::Download => Stage::ListDrives,
        Stage::ListDrives => if q.has_drive {
            Stage::FindDrive
        } else {
            Stage::PickDrive
        },
        Stage::FindDrive => if q.yes {
            Stage::Burn
        } else {
            Stage::Confirm
        },
        Stage::PickDrive => if q.yes {
            Stage::Burn
        } else {
            Stage::Confirm
        },
        Stage::Confirm => if yes {
            Stage::Burn
        } else {
            Stage::Done
        },
        _ => Stage::Done,
    }
}

/// A drive is written only with consent: in the wizard after the user gave it, and by the command
/// to write a drive after they gave it or where it was given beforehand.
pub proof fn law_no_burn_without_consent(stage: Stage, yes: bool, has_drive: bool, q: BurnRequest)
    ensures
        wizard_next(stage, yes, has_drive) == Stage::Burn ==> stage == Stage::Confirm && yes,
        burn_next(stage, yes, q) == Stage::Burn ==> stage == Stage::Confirm && yes || q.yes,
        burn_first(q) != Stage::Burn,
{
}

/// How far a stage lies from the end of its command, at most.
pub open spec fn distance(stage: Stage) -> nat {
    match stage {
        Stage::PickVersion => 13,
        Stage::PickArch => 12,
        Stage::FetchLanguages => 11,
        Stage::PickLanguage => 10,
        Stage::ResolveLanguage => 10,
        Stage::FetchLinks => 6,
        Stage::CheckExisting => 5,
        Stage::Download => 4,
        Stage::ListDrives => 9,
        Stage::PickDrive => 8,
        Stage::FindDrive => 8,
        Stage::Confirm => 2,
        Stage::Burn => 1,
        Stage::Done => 0,
    }
}

/// The wizard comes to an end: each stage but the last is nearer to it than the one before.
pub proof fn law_wizard_ends(stage: Stage, yes: bool, has_drive: bool)
    ensures
        stage != Stage::Done ==> distance(wizard_next(stage, yes, has_drive)) < distance(stage),
{
}

/// How far a stage lies from the end of the command to write a drive, at most.
pub open spec fn distance_in_burn(stage: Stage) -> nat {
    match stage {
        Stage::FetchLanguages => 9,
        Stage::ResolveLanguage => 8,
        Stage::FetchLinks => 7,
        Stage::CheckExisting => 6,
        Stage::Download => 5,
        Stage::ListDrives => 4,
        Stage::PickDrive => 3,
        Stage::FindDrive => 3,
        Stage::Confirm => 2,
        Stage::Done => 0,
        _ => 1,
    }
}

/// The command to write a drive comes to an end: each stage but the last is nearer to it than the
/// one before.
pub proof fn law_burn_ends(stage: Stage, yes: bool, q: BurnRequest)
    ensures
        stage != Stage::Done ==> distance_in_burn(burn_next(stage, yes, q)) < distance_in_burn(
            stage,
        ),
{
}

// ---------------------------------------------------------------------------
// What is decided on the way
// ---------------------------------------------------------------------------
/// The edition that is downloaded, and the product that it belongs to.
#[derive(Debug)]
pub struct Selection {
    pub product_name: &'static str,
    pub segment: &'static str,
    pub edition_id: &'static str,
    pub edition_name: &'static str,
}

/// The edition of a version for an architecture.
pub fn select_edition(version_key: &str, arch: &str) -> (r: Result<Selection>)
    ensures
        match products::product_for(version_key@) {
            Some(p) => r is Ok && ({
                let e = products::edition_for(p, arch@);
                let s = r->Ok_0;
                &&& s.product_name@ == p.name
                &&& s.segment@ == p.segment
                &&& s.edition_id@ == e.id
                &&& s.edition_name@ == e.name
            }),
            None => r is Err && r->Err_0@ == error::ErrorView::Other(
                "Unknown version: "@ + version_key@,
            ),
        },
{
    match products::get_product(version_key) {
        None => Err(Error::Other(text::concat("Unknown version: ", version_key))),
        Some(p) => {
            let e = products::get_edition(&p, arch);
            Ok(
                Selection {
                    product_name: p.name,
                    segment: p.segment,
                    edition_id: e.id,
                    edition_name: e.name,
                },
            )
        },
    }
}

/// Fails where there are no languages for an architecture.
pub fn require_languages(languages: &Vec<Language>, arch: &str) -> (r: Result<()>)
    ensures
        if languages@.len() == 0 {
            r is Err && r->Err_0@ == error::ErrorView::Other(
                "No languages available for "@ + arch@
                    + ". Microsoft may have changed their API."@,
            )
        } else {
            r is Ok
        },
{
    if languages.len() == 0 {
        Err(
            Error::Other(
                text::concat3(
                    "No languages available for ",
                    arch,
                    ". Microsoft may have changed their API.",
                ),
            ),
        )
    } else {
        Ok(())
    }
}

/// The language that is asked for, or, where none is, that is taken.
pub fn require_language<'a>(languages: &'a Vec<Language>, filter: Option<&str>) -> (r: Result<
    &'a Language,
>)
    ensures
        match r {
            Ok(x) => exists|i: int|
                #[trigger] choices::resolves_to(
                    models::language_views(languages@),
                    text::opt_str(filter),
                    i,
                ) && x@ == languages@[i]@,
            Err(e) => {
                &&& forall|i: int|
                    !#[trigger] choices::resolves_to(
                        models::language_views(languages@),
                        text::opt_str(filter),
                        i,
                    )
                &&& e@ == error::ErrorView::Other(
                    output::not_found_words(
                        models::language_views(languages@),
                        text::opt_str(filter),
                    ),
                )
            },
        },
{
    match choices::resolve_language(languages, filter) {
        Some(x) => Ok(x),
        None => Err(output::language_not_found(languages, filter)),
    }
}

/// The language that is asked for, or, where none is, that is taken, for an image that is written
/// to a drive.
pub fn require_language_to_burn<'a>(languages: &'a Vec<Language>, filter: Option<&str>) -> (r:
    Result<&'a Language>)
    ensures
        match r {
            Ok(x) => exists|i: int|
                #[trigger] choices::resolves_to(
                    models::language_views(languages@),
                    text::opt_str(filter),
                    i,
                ) && x@ == languages@[i]@,
            Err(e) => {
                &&& forall|i: int|
                    !#[trigger] choices::resolves_to(
                        models::language_views(languages@),
                        text::opt_str(filter),
                        i,
                    )
                &&& e@ == error::ErrorView::Other("Language not found"@)
            },
        },
{
    match choices::resolve_language(languages, filter) {
        Some(x) => Ok(x),
        None => Err(error::other("Language not found")),
    }
}

/// What a catalog with the languages `l` gives for what is asked for: the first file in the
/// language that it stands for, or the error that there is no such language.
pub open spec fn is_esd_choice(
    es: Seq<catalog::CatalogEntryView>,
    arch: Seq<char>,
    filter: Option<Seq<char>>,
    l: Seq<models::LanguageView>,
    r: std::result::Result<models::DownloadLinkView, error::ErrorView>,
) -> bool {
    &&& catalog::are_languages(es, arch, l)
    &&& match r {
        Ok(link) => exists|i: int, j: int|
            {
                &&& #[trigger] choices::resolves_to(l, filter, i)
                &&& #[trigger] catalog::is_first_wanted(es, l[i].id, arch, j)
                &&& link == catalog::link_of(es[j])
            },
        Err(e) => {
            &&& forall|i: int| !#[trigger] choices::resolves_to(l, filter, i)
            &&& e == error::ErrorView::Other(output::not_found_words(l, filter))
        },
    }
}

/// A link, or the error in its place.
pub open spec fn link_result(r: Result<DownloadLink>) -> std::result::Result<
    models::DownloadLinkView,
    error::ErrorView,
> {
    match r {
        Ok(x) => Ok(x@),
        Err(e) => Err(e@),
    }
}

/// The link of a catalog for the language that is asked for, or, where none is, that is taken.
pub fn esd_link(entries: &Vec<CatalogEntry>, arch: &str, filter: Option<&str>) -> (r: Result<
    DownloadLink,
>)
    ensures
        exists|l: Seq<models::LanguageView>|
            #[trigger] is_esd_choice(
                catalog::catalog_views(entries@),
                arch@,
                text::opt_str(filter),
                l,
                link_result(r),
            ),
{
    let ghost es = catalog::catalog_views(entries@);
    let languages = catalog::get_languages_from_catalog(entries, arch);
    let ghost l = models::language_views(languages@);
    let language = match require_language(&languages, filter) {
        Ok(x) => x,
        Err(e) => {
            assert(is_esd_choice(es, arch@, text::opt_str(filter), l, Err(e@)));
            return Err(e);
        },
    };
    let ghost i = choose|i: int|
        #[trigger] choices::resolves_to(l, text::opt_str(filter), i) && language@
            == languages@[i]@;
    assert(l[i] == languages@[i]@);
    assert(es.len() == entries.len());
    let link = catalog::get_download_link_from_catalog(entries, language.id.as_str(), arch);
    proof {
        catalog::law_linked_if_listed(es, arch@, l, l[i].id, catalog::opt_link(link));
    }
    match link {
        Some(link) => {
            proof {
                let j = choose|j: int|
                    #[trigger] catalog::is_first_wanted(es, l[i].id, arch@, j) && link@
                        == catalog::link_of(es[j]);
                assert(catalog::is_first_wanted(es, l[i].id, arch@, j));
                assert(is_esd_choice(es, arch@, text::opt_str(filter), l, Ok(link@)));
            }
            Ok(link)
        },
        None => Err(error::other("No download link found.")),
    }
}

/// The link that is followed: the first one. In the wizard the user is told more where there is
/// none.
pub fn first_link(links: &Vec<DownloadLink>, in_wizard: bool) -> (r: Result<&DownloadLink>)
    ensures
        if links@.len() == 0 {
            r is Err && r->Err_0@ == error::ErrorView::Other(
                if in_wizard {
                    "No download links returned by Microsoft. Try again later."@
                } else {
                    "No download links returned."@
                },
            )
        } else {
            r is Ok && r->Ok_0@ == links@[0]@
        },
{
    if links.len() == 0 {
        if in_wizard {
            Err(error::other("No download links returned by Microsoft. Try again later."))
        } else {
            Err(error::other("No download links returned."))
        }
    } else {
        Ok(&links[0])
    }
}

/// Fails where there are no drives to write.
pub fn require_drives(drives: &Vec<UsbDrive>) -> (r: Result<()>)
    ensures
        if drives@.len() == 0 {
            r is Err && r->Err_0@ == error::ErrorView::Other(
                "No removable USB drives found. Insert a USB drive and try again."@,
            )
        } else {
            r is Ok
        },
{
    if drives.len() == 0 {
        Err(error::other("No removable USB drives found. Insert a USB drive and try again."))
    } else {
        Ok(())
    }
}

/// The version to download for the command to write a drive.
pub fn version_to_burn(version: Option<String>) -> (r: Result<String>)
    ensures
        match version {
            Some(v) => r is Ok && r->Ok_0@ == "windows"@ + v@,
            None => r is Err && r->Err_0@ == error::ErrorView::Other(
                "Either provide an ISO file or use --version to download one"@,
            ),
        },
{
    match version {
        Some(v) => Ok(text::concat("windows", v.as_str())),
        None => Err(error::other("Either provide an ISO file or use --version to download one")),
    }
}

/// The version to download for the command to download.
pub fn version_to_download(version: Option<String>) -> (r: Result<String>)
    ensures
        match version {
            Some(v) => r is Ok && r->Ok_0@ == "windows"@ + v@,
            None => r is Err && r->Err_0@ == error::ErrorView::Other(
                "--version is required for non-interactive download.\nUsage: winiso download --version 11 --lang en-us"@,
            ),
        },
{
    match version {
        Some(v) => Ok(text::concat("windows", v.as_str())),
        None => Err(
            error::other(
                "--version is required for non-interactive download.\nUsage: winiso download --version 11 --lang en-us",
            ),
        ),
    }
}

/// The error for an image that is not there.
pub fn iso_not_found(path: &str) -> (r: Error)
    ensures
        r@ == error::ErrorView::Other("ISO file not found: "@ + path@),
{
    Error::Other(text::concat("ISO file not found: ", path))
}

/// What the wizard tells before it begins; `drive` is the chosen drive in words, where one is
/// chosen.
pub open spec fn summary(
    product: Seq<char>,
    arch: Seq<char>,
    language: Seq<char>,
    drive: Option<Seq<char>>,
) -> Seq<Seq<char>> {
    let head = seq![
        "\n  Windows:  "@ + product + " ("@ + arch + ")"@,
        "  Language: "@ + language,
    ];
    match drive {
        Some(d) => head + seq![
            "  Drive:    "@ + d,
            "  Will download ISO, then write to USB.\n"@,
        ],
        None => head + seq!["  Will download ISO to current directory.\n"@],
    }
}

/// How the wizard has a drive written: with which partition table, and whether as a raw image.
pub fn wizard_burn() -> (r: (PartitionScheme, bool))
    ensures
        r == (PartitionScheme::Mbr, false),
{
    (PartitionScheme::Mbr, false)
}

/// What the wizard tells before it begins.
pub fn summary_lines(product: &str, arch: &str, language: &Language, drive: Option<&str>) -> (r: Vec<
    String,
>)
    ensures
        text::texts(r@) == summary(product@, arch@, language@.name, text::opt_str(drive)),
{
    let mut r: Vec<String> = Vec::new();
    let mut first = text::concat3("\n  Windows:  ", product, " (");
    first.append(arch);
    first.append(")");
    r.push(first);
    r.push(text::concat("  Language: ", language.name.as_str()));
    match drive {
        Some(d) => {
            r.push(text::concat("  Drive:    ", d));
            r.push("  Will download ISO, then write to USB.\n".to_owned());
        },
        None => {
            r.push("  Will download ISO to current directory.\n".to_owned());
        },
    }
    assert(text::texts(r@) =~= summary(product@, arch@, language@.name, text::opt_str(drive)));
    r
}

} // verus!
