//! Languages, download links and drives.

use crate::text;
use vstd::prelude::*;

verus! {

/// A language in which Windows is offered.
#[derive(Debug, Clone)]
pub struct Language {
    pub id: String,
    pub name: String,
    pub sku_id: String,
    pub friendly_filename: Option<String>,
}

/// A file to download.
#[derive(Debug, Clone)]
pub struct DownloadLink {
    pub url: String,
    pub filename: String,
    pub size: Option<u64>,
    pub sha1: Option<String>,
}

/// A removable drive.
#[derive(Debug, Clone)]
pub struct UsbDrive {
    pub device: String,
    pub name: String,
    pub size: u64,
    pub partitions: Vec<String>,
}

pub struct LanguageView {
    pub id: Seq<char>,
    pub name: Seq<char>,
    pub sku_id: Seq<char>,
    pub friendly_filename: Option<Seq<char>>,
}

pub struct DownloadLinkView {
    pub url: Seq<char>,
    pub filename: Seq<char>,
    pub size: Option<u64>,
    pub sha1: Option<Seq<char>>,
}

pub struct UsbDriveView {
    pub device: Seq<char>,
    pub name: Seq<char>,
    pub size: u64,
    pub partitions: Seq<Seq<char>>,
}

impl View for Language {
    type V = LanguageView;

    open spec fn view(&self) -> LanguageView {
        LanguageView {
            id: self.id@,
            name: self.name@,
            sku_id: self.sku_id@,
            friendly_filename: text::opt_text(self.friendly_filename),
        }
    }
}

impl View for DownloadLink {
    type V = DownloadLinkView;

    open spec fn view(&self) -> DownloadLinkView {
        DownloadLinkView {
            url: self.url@,
            filename: self.filename@,
            size: self.size,
            sha1: text::opt_text(self.sha1),
        }
    }
}

impl View for UsbDrive {
    type V = UsbDriveView;

    open spec fn view(&self) -> UsbDriveView {
        UsbDriveView {
            device: self.device@,
            name: self.name@,
            size: self.size,
            partitions: text::texts(self.partitions@),
        }
    }
}

/// The languages of a list, with strings as sequences of characters.
pub open spec fn language_views(v: Seq<Language>) -> Seq<LanguageView> {
    v.map_values(|l: Language| l@)
}

/// The links of a list, with strings as sequences of characters.
pub open spec fn link_views(v: Seq<DownloadLink>) -> Seq<DownloadLinkView> {
    v.map_values(|l: DownloadLink| l@)
}

/// The drives of a list, with strings as sequences of characters.
pub open spec fn drive_views(v: Seq<UsbDrive>) -> Seq<UsbDriveView> {
    v.map_values(|d: UsbDrive| d@)
}

/// Contracts speak of a language, a link and a drive by all that they hold, and of lists of them by
/// each of their members in turn.
pub proof fn law_views(
    l: Seq<Language>,
    k: Seq<DownloadLink>,
    d: Seq<UsbDrive>,
    i: int,
    j: int,
)
    ensures
        language_views(l).len() == l.len(),
        0 <= i < l.len() ==> {
            let v = language_views(l)[i];
            &&& v.id == l[i].id@ && v.name == l[i].name@ && v.sku_id == l[i].sku_id@
            &&& match l[i].friendly_filename {
                Some(f) => v.friendly_filename == Some(f@),
                None => v.friendly_filename is None,
            }
        },
        link_views(k).len() == k.len(),
        0 <= i < k.len() ==> {
            let v = link_views(k)[i];
            &&& v.url == k[i].url@ && v.filename == k[i].filename@ && v.size == k[i].size
            &&& match k[i].sha1 {
                Some(s) => v.sha1 == Some(s@),
                None => v.sha1 is None,
            }
        },
        drive_views(d).len() == d.len(),
        0 <= i < d.len() ==> {
            let v = drive_views(d)[i];
            &&& v.device == d[i].device@ && v.name == d[i].name@ && v.size == d[i].size
            &&& v.partitions.len() == d[i].partitions@.len()
            &&& 0 <= j < d[i].partitions@.len() ==> v.partitions[j] == d[i].partitions@[j]@
        },
{
}

} // verus!
