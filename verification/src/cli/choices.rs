//! What a user chooses from, and what is chosen for them.

use crate::error;
use crate::error::{Error, Result};
use crate::models;
use crate::models::{DownloadLink, Language, UsbDrive};
use crate::sort;
use crate::sort::{Order, Ranking};
use crate::text;
use vstd::prelude::*;
use vstd::string::*;

verus! {

// ---------------------------------------------------------------------------
// Versions and architectures
// ---------------------------------------------------------------------------
/// The architecture that a name stands for: the name that Microsoft uses, where it is another name
/// for one that is known, in either case; else the name itself.
pub open spec fn arch_named(arch: Seq<char>) -> Seq<char> {
    if text::same_ignoring_case("x64"@, arch) || text::same_ignoring_case("x86_64"@, arch)
        || text::same_ignoring_case("amd64"@, arch) {
        "x64"@
    } else if text::same_ignoring_case("arm64"@, arch) || text::same_ignoring_case(
        "aarch64"@,
        arch,
    ) {
        "ARM64"@
    } else {
        arch
    }
}

/// The architecture that a name stands for.
pub fn normalize_arch(arch: &str) -> (r: String)
    ensures
        r@ == arch_named(arch@),
{
    if text::eq_ignore_ascii_case("x64", arch) || text::eq_ignore_ascii_case("x86_64", arch)
        || text::eq_ignore_ascii_case("amd64", arch) {
        "x64".to_owned()
    } else if text::eq_ignore_ascii_case("arm64", arch) || text::eq_ignore_ascii_case(
        "aarch64",
        arch,
    ) {
        "ARM64".to_owned()
    } else {
        arch.to_owned()
    }
}

/// The key of the product with this version.
pub fn version_key(version: &str) -> (r: String)
    ensures
        r@ == "windows"@ + version@,
{
    text::concat("windows", version)
}

/// The versions that a user chooses from.
pub fn version_options() -> (r: Vec<&'static str>)
    ensures
        r@.len() == 2,
        r@[0]@ == "Windows 11"@,
        r@[1]@ == "Windows 10"@,
{
    let mut r: Vec<&'static str> = Vec::new();
    r.push("Windows 11");
    r.push("Windows 10");
    r
}

/// The key of the version that was chosen.
pub fn pick_version(selection: usize) -> (r: &'static str)
    ensures
        r@ == if selection == 0 {
            "windows11"@
        } else {
            "windows10"@
        },
{
    if selection == 0 {
        "windows11"
    } else {
        "windows10"
    }
}

/// The architectures that a user chooses from.
pub fn arch_options() -> (r: Vec<&'static str>)
    ensures
        r@.len() == 2,
        r@[0]@ == "x64"@,
        r@[1]@ == "ARM64"@,
{
    let mut r: Vec<&'static str> = Vec::new();
    r.push("x64");
    r.push("ARM64");
    r
}

/// The architecture that was chosen.
pub fn pick_arch(selection: usize) -> (r: &'static str)
    requires
        selection < 2,
    ensures
        r@ == if selection == 0 {
            "x64"@
        } else {
            "ARM64"@
        },
{
    if selection == 0 {
        "x64"
    } else {
        "ARM64"
    }
}

// ---------------------------------------------------------------------------
// Languages
// ---------------------------------------------------------------------------
/// How early a language is offered: American English first, then other kinds of English, then the
/// rest.
pub open spec fn rank(id: Seq<char>) -> int {
    if id == "en-us"@ {
        0
    } else if text::begins_with(id, "en-"@) {
        1
    } else {
        2
    }
}

/// Language `i` is offered before language `j`: by rank, then by name, then as they stand.
pub open spec fn offered_before(l: Seq<models::LanguageView>, i: int, j: int) -> bool {
    ||| rank(l[i].id) < rank(l[j].id)
    ||| rank(l[i].id) == rank(l[j].id) && text::text_less(l[i].name, l[j].name)
    ||| rank(l[i].id) == rank(l[j].id) && l[i].name == l[j].name && i < j
}

/// The list names all languages, in the order in which they are offered.
pub open spec fn is_offer(l: Seq<models::LanguageView>, s: Seq<usize>) -> bool {
    &&& s.len() == l.len()
    &&& forall|k: int| 0 <= k < s.len() ==> #[trigger] s[k] < l.len()
    &&& forall|k: int, m: int|
        0 <= k < m < s.len() ==> offered_before(l, #[trigger] s[k] as int, #[trigger] s[m] as int)
}

/// The order in which languages are offered.
struct ByOffer<'a> {
    languages: &'a Vec<Language>,
}

impl<'a> Order for ByOffer<'a> {
    closed spec fn count(&self) -> nat {
        self.languages@.len()
    }

    closed spec fn before(&self, i: int, j: int) -> bool {
        offered_before(models::language_views(self.languages@), i, j)
    }

    proof fn total(&self, i: int, j: int) {
        ViewsByOffer { l: models::language_views(self.languages@) }.total(i, j);
    }

    proof fn transitive(&self, i: int, j: int, k: int) {
        ViewsByOffer { l: models::language_views(self.languages@) }.transitive(i, j, k);
    }
}

/// How early a language is offered.
fn rank_of(id: &str) -> (r: u8)
    ensures
        r == rank(id@),
{
    if text::text_eq(id, "en-us") {
        0
    } else if text::starts_with(id, "en-") {
        1
    } else {
        2
    }
}

impl<'a> Ranking for ByOffer<'a> {
    fn is_before(&self, i: usize, j: usize) -> (r: bool) {
        let a = &self.languages[i];
        let b = &self.languages[j];
        let x: u8 = rank_of(a.id.as_str());
        let y: u8 = rank_of(b.id.as_str());
        if x != y {
            return x < y;
        }
        if text::text_lt(a.name.as_str(), b.name.as_str()) {
            return true;
        }
        text::text_eq(a.name.as_str(), b.name.as_str()) && i < j
    }
}

/// The order in which languages are offered, by their places.
pub fn order_languages(languages: &Vec<Language>) -> (r: Vec<usize>)
    ensures
        is_offer(models::language_views(languages@), r@),
{
    let n: usize = languages.len();
    let ghost l = models::language_views(languages@);
    let mut all: Vec<usize> = Vec::new();
    let mut i: usize = 0;
    while i < n
        invariant
            i <= n,
            n == languages@.len(),
            all@.len() == i,
            forall|k: int| 0 <= k < i ==> #[trigger] all@[k] == k,
        decreases n - i,
    {
        all.push(i);
        i += 1;
    }
    let ranking = ByOffer { languages };
    proof {
        assert forall|k: int| 0 <= k < all@.len() implies #[trigger] all@[k]
            < ranking.count() by {}
        assert(sort::distinct(all@));
    }
    let r = sort::sort_indices(&ranking, &all);
    proof {
        assert forall|k: int| 0 <= k < r@.len() implies #[trigger] r@[k] < l.len() by {
            assert(r@[k] < ranking.count());
        }
        assert forall|k: int, m: int| 0 <= k < m < r@.len() implies offered_before(
            l,
            #[trigger] r@[k] as int,
            #[trigger] r@[m] as int,
        ) by {
            assert(ranking.before(r@[k] as int, r@[m] as int));
        }
    }
    r
}

/// The place of the language that was chosen from the offer.
pub fn pick_language(languages: &Vec<Language>, selection: usize) -> (r: usize)
    requires
        selection < languages@.len(),
    ensures
        r < languages@.len(),
        exists|s: Seq<usize>|
            #[trigger] is_offer(models::language_views(languages@), s) && r == s[selection as int],
{
    let order = order_languages(languages);
    order[selection]
}

/// The order in which languages are offered is the only one.
pub proof fn law_one_offer(l: Seq<models::LanguageView>, a: Seq<usize>, b: Seq<usize>)
    requires
        is_offer(l, a),
        is_offer(l, b),
        l.len() <= usize::MAX,
    ensures
        a == b,
{
    let r = ViewsByOffer { l };
    lemma_offer_whole(l, a);
    lemma_offer_whole(l, b);
    assert forall|x: usize| #[trigger] a.contains(x) <==> b.contains(x) by {
        if a.contains(x) {
            let k = choose|k: int| 0 <= k < a.len() && a[k] == x;
            assert(a[k] < l.len());
        }
        if b.contains(x) {
            let k = choose|k: int| 0 <= k < b.len() && b[k] == x;
            assert(b[k] < l.len());
        }
    }
    sort::lemma_arrangement_unique(&r, a, b);
}

/// American English is offered first, where it is among the languages.
pub proof fn law_american_english_first(l: Seq<models::LanguageView>, s: Seq<usize>)
    requires
        is_offer(l, s),
        l.len() <= usize::MAX,
        exists|i: int| 0 <= i < l.len() && (#[trigger] l[i]).id == "en-us"@,
    ensures
        l[s[0] as int].id == "en-us"@,
{
    let i = choose|i: int| 0 <= i < l.len() && (#[trigger] l[i]).id == "en-us"@;
    lemma_offer_whole(l, s);
    assert(s.contains(i as usize));
    let k = choose|k: int| 0 <= k < s.len() && s[k] == i as usize;
    if k > 0 {
        assert(offered_before(l, s[0] as int, s[k] as int));
    }
}

/// The order in which languages are offered.
struct ViewsByOffer {
    l: Seq<models::LanguageView>,
}

impl Order for ViewsByOffer {
    closed spec fn count(&self) -> nat {
        self.l.len()
    }

    closed spec fn before(&self, i: int, j: int) -> bool {
        offered_before(self.l, i, j)
    }

    proof fn total(&self, i: int, j: int) {
        let a = self.l[i];
        let b = self.l[j];
        text::lemma_less_irreflexive(a.name);
        if a.name != b.name {
            text::lemma_less_total(a.name, b.name);
            if text::text_less(a.name, b.name) && text::text_less(b.name, a.name) {
                text::lemma_less_transitive(a.name, b.name, a.name);
            }
        }
    }

    proof fn transitive(&self, i: int, j: int, k: int) {
        let a = self.l[i];
        let b = self.l[j];
        let c = self.l[k];
        if text::text_less(a.name, b.name) && text::text_less(b.name, c.name) {
            text::lemma_less_transitive(a.name, b.name, c.name);
        }
    }
}

/// An offer names every language.
proof fn lemma_offer_whole(l: Seq<models::LanguageView>, s: Seq<usize>)
    requires
        is_offer(l, s),
        l.len() <= usize::MAX,
    ensures
        forall|i: usize| i < l.len() ==> #[trigger] s.contains(i),
{
    let r = ViewsByOffer { l };
    sort::lemma_ordered_distinct(&r, s);
    sort::lemma_distinct_covers(s, l.len());
}

/// A language is the one that is asked for: its name, in lower case, holds what is asked for, or
/// its code is that.
pub open spec fn is_asked_for(name: Seq<char>, id: Seq<char>, asked: Seq<char>) -> bool {
    text::has_text(name, asked) || id == asked
}

/// The first language that is asked for; names, codes and what is asked for are in lower case.
pub fn find_asked_for(names: &Vec<String>, ids: &Vec<String>, asked: &str) -> (r: Option<usize>)
    requires
        names@.len() == ids@.len(),
    ensures
        match r {
            Some(i) => {
                &&& i < names@.len()
                &&& is_asked_for(names@[i as int]@, ids@[i as int]@, asked@)
                &&& forall|k: int|
                    0 <= k < i ==> !is_asked_for((#[trigger] names@[k])@, ids@[k]@, asked@)
            },
            None => forall|k: int|
                0 <= k < names@.len() ==> !is_asked_for((#[trigger] names@[k])@, ids@[k]@, asked@),
        },
{
    let n: usize = names.len();
    let mut i: usize = 0;
    while i < n
        invariant
            i <= n,
            n == names@.len(),
            n == ids@.len(),
            forall|k: int|
                0 <= k < i ==> !is_asked_for((#[trigger] names@[k])@, ids@[k]@, asked@),
        decreases n - i,
    {
        if text::contains_text(names[i].as_str(), asked) || text::text_eq(ids[i].as_str(), asked) {
            return Some(i);
        }
        i += 1;
    }
    None
}

/// A language is the one that is taken where none is asked for; the name is in lower case.
pub open spec fn is_usual(name: Seq<char>, id: Seq<char>) -> bool {
    id == "en-us"@ || text::has_text(name, "english"@)
}

/// The first language that is taken where none is asked for, or the first of all; names are in
/// lower case.
pub fn find_usual(names: &Vec<String>, languages: &Vec<Language>) -> (r: Option<usize>)
    requires
        names@.len() == languages@.len(),
    ensures
        match r {
            Some(i) => {
                &&& i < names@.len()
                &&& {
                    ||| is_usual(names@[i as int]@, languages@[i as int]@.id) && forall|k: int|
                        0 <= k < i ==> !is_usual((#[trigger] names@[k])@, languages@[k]@.id)
                    ||| i == 0 && forall|k: int|
                        0 <= k < names@.len() ==> !is_usual(
                            (#[trigger] names@[k])@,
                            languages@[k]@.id,
                        )
                }
            },
            None => names@.len() == 0,
        },
{
    let n: usize = names.len();
    let mut i: usize = 0;
    while i < n
        invariant
            i <= n,
            n == names@.len(),
            n == languages@.len(),
            forall|k: int| 0 <= k < i ==> !is_usual((#[trigger] names@[k])@, languages@[k]@.id),
        decreases n - i,
    {
        if text::text_eq(languages[i].id.as_str(), "en-us") || text::contains_text(
            names[i].as_str(),
            "english",
        ) {
            return Some(i);
        }
        i += 1;
    }
    if n == 0 {
        None
    } else {
        Some(0)
    }
}

/// The place of the language that is asked for, or, where none is, that is taken.
pub open spec fn resolves_to(
    l: Seq<models::LanguageView>,
    filter: Option<Seq<char>>,
    i: int,
) -> bool {
    &&& 0 <= i < l.len()
    &&& match filter {
        Some(f) => {
            let asked = text::lowercase(f);
            &&& is_asked_for(text::lowercase(l[i].name), text::lowercase(l[i].id), asked)
            &&& forall|k: int|
                0 <= k < i ==> !is_asked_for(
                    text::lowercase((#[trigger] l[k]).name),
                    text::lowercase(l[k].id),
                    asked,
                )
        },
        None => {
            ||| is_usual(text::lowercase(l[i].name), l[i].id) && forall|k: int|
                0 <= k < i ==> !is_usual(text::lowercase((#[trigger] l[k]).name), l[k].id)
            ||| i == 0 && forall|k: int|
                0 <= k < l.len() ==> !is_usual(text::lowercase((#[trigger] l[k]).name), l[k].id)
        },
    }
}

/// The names of languages in lower case.
fn lowered_names(languages: &Vec<Language>) -> (r: Vec<String>)
    ensures
        r@.len() == languages@.len(),
        forall|k: int|
            0 <= k < r@.len() ==> (#[trigger] r@[k])@ == text::lowercase(languages@[k]@.name),
{
    let n: usize = languages.len();
    let mut r: Vec<String> = Vec::new();
    let mut i: usize = 0;
    while i < n
        invariant
            i <= n,
            n == languages@.len(),
            r@.len() == i,
            forall|k: int|
                0 <= k < i ==> (#[trigger] r@[k])@ == text::lowercase(languages@[k]@.name),
        decreases n - i,
    {
        r.push(text::to_lowercase(languages[i].name.as_str()));
        i += 1;
    }
    r
}

/// The codes of languages in lower case.
fn lowered_ids(languages: &Vec<Language>) -> (r: Vec<String>)
    ensures
        r@.len() == languages@.len(),
        forall|k: int|
            0 <= k < r@.len() ==> (#[trigger] r@[k])@ == text::lowercase(languages@[k]@.id),
{
    let n: usize = languages.len();
    let mut r: Vec<String> = Vec::new();
    let mut i: usize = 0;
    while i < n
        invariant
            i <= n,
            n == languages@.len(),
            r@.len() == i,
            forall|k: int|
                0 <= k < i ==> (#[trigger] r@[k])@ == text::lowercase(languages@[k]@.id),
        decreases n - i,
    {
        r.push(text::to_lowercase(languages[i].id.as_str()));
        i += 1;
    }
    r
}

/// The language that is asked for, or, where none is, that is taken.
pub fn resolve_language<'a>(languages: &'a Vec<Language>, filter: Option<&str>) -> (r: Option<
    &'a Language,
>)
    ensures
        match r {
            Some(x) => exists|i: int|
                #[trigger] resolves_to(models::language_views(languages@), text::opt_str(filter), i)
                    && x@ == languages@[i]@,
            None => forall|i: int|
                !#[trigger] resolves_to(models::language_views(languages@), text::opt_str(filter), i),
        },
{
    let ghost l = models::language_views(languages@);
    let names = lowered_names(languages);
    proof {
        assert forall|k: int| 0 <= k < l.len() implies #[trigger] l[k] == languages@[k]@ by {}
    }
    match filter {
        Some(f) => {
            let ids = lowered_ids(languages);
            let asked = text::to_lowercase(f);
            match find_asked_for(&names, &ids, asked.as_str()) {
                Some(i) => {
                    proof {
                        assert forall|k: int| 0 <= k < i implies !is_asked_for(
                            text::lowercase((#[trigger] l[k]).name),
                            text::lowercase(l[k].id),
                            asked@,
                        ) by {
                            assert(!is_asked_for(names@[k]@, ids@[k]@, asked@));
                        }
                        assert(resolves_to(l, text::opt_str(filter), i as int));
                    }
                    Some(&languages[i])
                },
                None => {
                    proof {
                        assert forall|i: int| !#[trigger] resolves_to(
                            l,
                            text::opt_str(filter),
                            i,
                        ) by {
                            if 0 <= i < l.len() {
                                assert(!is_asked_for(names@[i]@, ids@[i]@, asked@));
                            }
                        }
                    }
                    None
                },
            }
        },
        None => match find_usual(&names, languages) {
            Some(i) => {
                proof {
                    assert forall|k: int|
                        0 <= k < l.len() && !is_usual(
                            names@[k]@,
                            languages@[k]@.id,
                        ) implies !is_usual(text::lowercase((#[trigger] l[k]).name), l[k].id) by {}
                    assert(resolves_to(l, text::opt_str(filter), i as int));
                }
                Some(&languages[i])
            },
            None => None,
        },
    }
}

/// Where no language is asked for, one is found as long as there are any.
pub proof fn law_some_language_is_taken(l: Seq<models::LanguageView>)
    requires
        l.len() > 0,
    ensures
        exists|i: int| resolves_to(l, None, i),
{
    if exists|i: int| 0 <= i < l.len() && is_usual(text::lowercase((#[trigger] l[i]).name), l[i].id) {
        let i = choose|i: int|
            0 <= i < l.len() && is_usual(text::lowercase((#[trigger] l[i]).name), l[i].id);
        let j = lemma_first_usual(l, i);
        assert(resolves_to(l, None, j));
    } else {
        assert(resolves_to(l, None, 0));
    }
}

proof fn lemma_first_usual(l: Seq<models::LanguageView>, i: int) -> (j: int)
    requires
        0 <= i < l.len(),
        is_usual(text::lowercase(l[i].name), l[i].id),
    ensures
        0 <= j <= i,
        is_usual(text::lowercase(l[j].name), l[j].id),
        forall|k: int| 0 <= k < j ==> !is_usual(text::lowercase((#[trigger] l[k]).name), l[k].id),
    decreases i,
{
    if exists|k: int| 0 <= k < i && is_usual(text::lowercase((#[trigger] l[k]).name), l[k].id) {
        let k = choose|k: int|
            0 <= k < i && is_usual(text::lowercase((#[trigger] l[k]).name), l[k].id);
        lemma_first_usual(l, k)
    } else {
        i
    }
}

// ---------------------------------------------------------------------------
// Links and drives
// ---------------------------------------------------------------------------
/// The name under which a download is saved: the one that the language gives, or that of the link.
pub open spec fn output_name_of(
    l: models::LanguageView,
    link: models::DownloadLinkView,
) -> Seq<char> {
    match l.friendly_filename {
        Some(f) => f,
        None => link.filename,
    }
}

/// The name under which a download is saved.
pub fn output_name(language: &Language, link: &DownloadLink) -> (r: String)
    ensures
        r@ == output_name_of(language@, link@),
{
    match &language.friendly_filename {
        Some(f) => f.clone(),
        None => link.filename.clone(),
    }
}

/// The `i`-th drive is the first with this path.
pub open spec fn is_drive_at(d: Seq<models::UsbDriveView>, device: Seq<char>, i: int) -> bool {
    &&& 0 <= i < d.len()
    &&& d[i].device == device
    &&& forall|k: int| 0 <= k < i ==> (#[trigger] d[k]).device != device
}

/// The paths of drives.
pub open spec fn devices(d: Seq<models::UsbDriveView>) -> Seq<Seq<char>> {
    d.map_values(|x: models::UsbDriveView| x.device)
}

/// How a drive is offered; `size` is its size in words.
pub open spec fn label_of(d: models::UsbDriveView, size: Seq<char>) -> Seq<char> {
    d.name + " ("@ + size + ") — "@ + d.device
}

/// How a drive is offered.
pub fn drive_label(drive: &UsbDrive, size: &str) -> (r: String)
    ensures
        r@ == label_of(drive@, size@),
{
    let mut r = text::concat3(drive.name.as_str(), " (", size);
    r.append(") — ");
    r.append(drive.device.as_str());
    r
}

/// The place of the drive with this path.
pub fn select_drive(drives: &Vec<UsbDrive>, device: &str) -> (r: Result<usize>)
    ensures
        match r {
            Ok(i) => is_drive_at(models::drive_views(drives@), device@, i as int),
            Err(e) => {
                &&& forall|i: int| !is_drive_at(models::drive_views(drives@), device@, i)
                &&& e@ == error::ErrorView::Other(
                    "Drive "@ + device@ + " not found. Available: "@ + text::joined(
                        devices(models::drive_views(drives@)),
                        ", "@,
                    ),
                )
            },
        },
{
    let n: usize = drives.len();
    let ghost d = models::drive_views(drives@);
    let mut paths: Vec<String> = Vec::new();
    let mut i: usize = 0;
    while i < n
        invariant
            i <= n,
            n == drives@.len(),
            d == models::drive_views(drives@),
            paths@.len() == i,
            forall|k: int| 0 <= k < i ==> (#[trigger] paths@[k])@ == d[k].device,
            forall|k: int| 0 <= k < i ==> (#[trigger] d[k]).device != device@,
        decreases n - i,
    {
        assert(d[i as int] == drives@[i as int]@);
        if text::text_eq(drives[i].device.as_str(), device) {
            return Ok(i);
        }
        paths.push(drives[i].device.clone());
        i += 1;
    }
    assert(text::texts(paths@) =~= devices(d));
    let list = text::join(&paths, ", ");
    let head = text::concat3("Drive ", device, " not found. Available: ");
    Err(Error::Other(text::concat(head.as_str(), list.as_str())))
}

} // verus!
