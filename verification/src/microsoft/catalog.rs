//! The catalog of installation files.

use crate::error;
use crate::error::{Error, Result};
use crate::microsoft::cabinet;
use crate::microsoft::cabinet::CabText;
use crate::models;
use crate::models::{DownloadLink, Language};
use crate::sort;
use crate::sort::{Order, Ranking};
use crate::text;
use vstd::prelude::*;
use vstd::string::*;

verus! {

/// A file in the catalog.
#[derive(Debug, Clone)]
pub struct CatalogEntry {
    pub filename: String,
    pub language_code: String,
    pub language: String,
    pub architecture: String,
    pub size: u64,
    pub sha1: String,
    pub file_path: String,
}

/// A file in the catalog.
pub struct CatalogEntryView {
    pub filename: Seq<char>,
    pub language_code: Seq<char>,
    pub language: Seq<char>,
    pub architecture: Seq<char>,
    pub size: u64,
    pub sha1: Seq<char>,
    pub file_path: Seq<char>,
}

impl View for CatalogEntry {
    type V = CatalogEntryView;

    open spec fn view(&self) -> CatalogEntryView {
        CatalogEntryView {
            filename: self.filename@,
            language_code: self.language_code@,
            language: self.language@,
            architecture: self.architecture@,
            size: self.size,
            sha1: self.sha1@,
            file_path: self.file_path@,
        }
    }
}

/// The entries of a list.
pub open spec fn catalog_views(v: Seq<CatalogEntry>) -> Seq<CatalogEntryView> {
    v.map_values(|x: CatalogEntry| x@)
}

// ---------------------------------------------------------------------------
// Where the catalog is
// ---------------------------------------------------------------------------
/// The address of the catalog of a version.
pub open spec fn url_for(version: Seq<char>) -> Option<Seq<char>> {
    if version == "windows11"@ {
        Some("https://go.microsoft.com/fwlink/?LinkId=2156292"@)
    } else if version == "windows10"@ {
        Some("https://go.microsoft.com/fwlink/?LinkId=841361"@)
    } else {
        None
    }
}

/// The address of the catalog of a version.
pub fn catalog_url(version: &str) -> (r: Result<&'static str>)
    ensures
        match r {
            Ok(u) => url_for(version@) == Some(u@),
            Err(e) => url_for(version@) is None && e@ == error::ErrorView::Other(
                "Unknown version: "@ + version@,
            ),
        },
{
    if text::text_eq(version, "windows11") {
        Ok("https://go.microsoft.com/fwlink/?LinkId=2156292")
    } else if text::text_eq(version, "windows10") {
        Ok("https://go.microsoft.com/fwlink/?LinkId=841361")
    } else {
        Err(Error::Other(text::concat("Unknown version: ", version)))
    }
}

// ---------------------------------------------------------------------------
// The cabinet
// ---------------------------------------------------------------------------
/// A name in lower case is that of an XML file.
pub open spec fn is_xml_name(lowered: Seq<char>) -> bool {
    text::finishes_with(lowered, ".xml"@)
}

/// A name in lower case is that of the XML file with the products.
pub open spec fn is_products_name(lowered: Seq<char>) -> bool {
    text::has_text(lowered, "products"@) && is_xml_name(lowered)
}

/// The `i`-th of the names, given in lower case, is the one to read: the first of an XML file with
/// the products, or, where there is none, the first of an XML file.
pub open spec fn is_chosen_name(lowered: Seq<Seq<char>>, i: int) -> bool {
    &&& 0 <= i < lowered.len()
    &&& if exists|k: int| 0 <= k < lowered.len() && is_products_name(#[trigger] lowered[k]) {
        is_products_name(lowered[i]) && forall|k: int|
            0 <= k < i ==> !is_products_name(#[trigger] lowered[k])
    } else {
        is_xml_name(lowered[i]) && forall|k: int|
            0 <= k < i ==> !is_xml_name(#[trigger] lowered[k])
    }
}

/// Chooses the file to read among names that are given in lower case.
pub fn choose_name(lowered: &Vec<String>) -> (r: Option<usize>)
    ensures
        match r {
            Some(i) => is_chosen_name(text::texts(lowered@), i as int),
            None => forall|i: int|
                0 <= i < lowered@.len() ==> !is_xml_name(#[trigger] text::texts(lowered@)[i]),
        },
{
    let n: usize = lowered.len();
    let ghost all = text::texts(lowered@);
    let mut i: usize = 0;
    let mut plain: Option<usize> = None;
    while i < n
        invariant
            i <= n,
            n == lowered@.len(),
            all == text::texts(lowered@),
            forall|k: int| 0 <= k < i ==> !is_products_name(#[trigger] all[k]),
            match plain {
                Some(p) => p < i && is_xml_name(all[p as int]) && forall|k: int|
                    0 <= k < p ==> !is_xml_name(#[trigger] all[k]),
                None => forall|k: int| 0 <= k < i ==> !is_xml_name(#[trigger] all[k]),
            },
        decreases n - i,
    {
        assert(all[i as int] == lowered@[i as int]@);
        let xml = text::ends_with(lowered[i].as_str(), ".xml");
        if xml && text::contains_text(lowered[i].as_str(), "products") {
            return Some(i);
        }
        if xml && plain.is_none() {
            plain = Some(i);
        }
        i += 1;
    }
    plain
}

/// The names in lower case.
pub open spec fn lowercase_all(names: Seq<Seq<char>>) -> Seq<Seq<char>> {
    names.map_values(|s: Seq<char>| text::lowercase(s))
}

/// The text of the XML file in a cabinet, or what is wrong with it.
pub open spec fn is_xml_of(
    data: Seq<u8>,
    names: Seq<Seq<char>>,
    r: std::result::Result<Seq<char>, error::ErrorView>,
) -> bool {
    let lowered = lowercase_all(names);
    if exists|i: int| is_chosen_name(lowered, i) {
        exists|i: int|
            #[trigger] is_chosen_name(lowered, i) && r == text_or_error(
                names[i],
                cabinet::cab_text(data, names[i]),
            )
    } else {
        r == Err::<Seq<char>, _>(error::ErrorView::Cab("No XML file found in CAB archive"@))
    }
}

/// The text that was read, or the error for a file `name` that could not be.
pub open spec fn text_or_error(
    name: Seq<char>,
    t: cabinet::CabTextView,
) -> std::result::Result<Seq<char>, error::ErrorView> {
    match t {
        cabinet::CabTextView::Closed(e) => Err(
            error::ErrorView::Cab("Failed to read "@ + name + ": "@ + e),
        ),
        cabinet::CabTextView::Garbled(e) => Err(error::ErrorView::Cab("Failed to decode XML: "@ + e)),
        cabinet::CabTextView::Text(s) => Ok(s),
    }
}

/// The text that was read, or the error for a file `name` that could not be.
pub fn cabinet_text(name: &str, t: CabText) -> (r: Result<String>)
    ensures
        match r {
            Ok(s) => text_or_error(name@, t@) == Ok::<_, error::ErrorView>(s@),
            Err(e) => text_or_error(name@, t@) == Err::<Seq<char>, _>(e@),
        },
{
    match t {
        CabText::Closed(e) => {
            let head = text::concat3("Failed to read ", name, ": ");
            Err(Error::Cab(text::concat(head.as_str(), e.as_str())))
        },
        CabText::Garbled(e) => Err(Error::Cab(text::concat("Failed to decode XML: ", e.as_str()))),
        CabText::Text(s) => Ok(s),
    }
}

/// The file that is read from a cabinet, where there is one, can be unpacked whatever its data are.
pub open spec fn xml_can_be_unpacked(data: Seq<u8>) -> bool {
    match cabinet::cab_names(data) {
        Ok(names) => forall|i: int|
            #[trigger] is_chosen_name(lowercase_all(names), i) ==> cabinet::can_be_unpacked(
                data,
                names[i],
            ),
        Err(_) => true,
    }
}

/// Names in lower case.
fn lowered(names: &Vec<String>) -> (r: Vec<String>)
    ensures
        text::texts(r@) == lowercase_all(text::texts(names@)),
{
    let n: usize = names.len();
    let ghost all = text::texts(names@);
    let mut r: Vec<String> = Vec::new();
    let mut i: usize = 0;
    while i < n
        invariant
            i <= n,
            n == names@.len(),
            all == text::texts(names@),
            r@.len() == i,
            forall|k: int| 0 <= k < i ==> (#[trigger] r@[k])@ == text::lowercase(all[k]),
        decreases n - i,
    {
        assert(all[i as int] == names@[i as int]@);
        r.push(text::to_lowercase(names[i].as_str()));
        i += 1;
    }
    assert(text::texts(r@) =~= lowercase_all(all));
    r
}

/// The name of the file that is read from a cabinet.
pub fn find_xml(data: &[u8]) -> (r: Result<String>)
    ensures
        match cabinet::cab_names(data@) {
            Err(e) => r is Err && r->Err_0@ == error::ErrorView::Cab("Failed to open CAB: "@ + e),
            Ok(names) => match r {
                Ok(name) => exists|i: int|
                    #[trigger] is_chosen_name(lowercase_all(names), i) && name@ == names[i],
                Err(e) => {
                    &&& e@ == error::ErrorView::Cab("No XML file found in CAB archive"@)
                    &&& forall|i: int| !#[trigger] is_chosen_name(lowercase_all(names), i)
                },
            },
        },
{
    let names = match cabinet::list_cabinet(data) {
        Ok(v) => v,
        Err(e) => {
            return Err(Error::Cab(text::concat("Failed to open CAB: ", e.as_str())));
        },
    };
    let ghost all = text::texts(names@);
    assert(cabinet::cab_names(data@)->Ok_0 == all);
    match choose_name(&lowered(&names)) {
        None => {
            proof {
                assert forall|i: int| !#[trigger] is_chosen_name(lowercase_all(all), i) by {
                    if is_chosen_name(lowercase_all(all), i) {
                        assert(is_xml_name(lowercase_all(all)[i]));
                    }
                }
            }
            Err(Error::Cab("No XML file found in CAB archive".to_owned()))
        },
        Some(k) => {
            assert(is_chosen_name(lowercase_all(all), k as int));
            assert(all[k as int] == names@[k as int]@);
            Ok(names[k].clone())
        },
    }
}

/// Whether the file that is read from a cabinet, where there is one, can be unpacked whatever its
/// data are.
pub fn check_cabinet(data: &[u8]) -> (r: bool)
    ensures
        r == xml_can_be_unpacked(data@),
{
    match find_xml(data) {
        Err(_) => true,
        Ok(name) => {
            proof {
                let all = cabinet::cab_names(data@)->Ok_0;
                let k = choose|k: int|
                    #[trigger] is_chosen_name(lowercase_all(all), k) && name@ == all[k];
                assert forall|i: int| #[trigger] is_chosen_name(lowercase_all(all), i) implies i
                    == k by {
                    lemma_one_chosen(lowercase_all(all), i, k);
                }
            }
            cabinet::check_file(data, name.as_str())
        },
    }
}

/// There is only one name to read.
pub proof fn lemma_one_chosen(lowered: Seq<Seq<char>>, i: int, j: int)
    requires
        is_chosen_name(lowered, i),
        is_chosen_name(lowered, j),
    ensures
        i == j,
{
    if i < j {
        assert(lowered[i] == lowered[i]);
    } else if j < i {
        assert(lowered[j] == lowered[j]);
    }
}

/// Takes the XML file out of a cabinet.
pub fn extract_xml_from_cab(data: &[u8]) -> (r: Result<String>)
    requires
        xml_can_be_unpacked(data@),
    ensures
        match cabinet::cab_names(data@) {
            Err(e) => r is Err && r->Err_0@ == error::ErrorView::Cab("Failed to open CAB: "@ + e),
            Ok(names) => match r {
                Ok(s) => is_xml_of(data@, names, Ok(s@)),
                Err(e) => is_xml_of(data@, names, Err(e@)),
            },
        },
{
    match find_xml(data) {
        Err(e) => Err(e),
        Ok(name) => {
            let t = cabinet::read_cabinet(data, name.as_str());
            cabinet_text(name.as_str(), t)
        },
    }
}

// ---------------------------------------------------------------------------
// The XML file
// ---------------------------------------------------------------------------
/// A node of an XML document. The nodes of a document stand in document order, and each names its
/// parent by its place.
#[derive(Debug)]
pub struct XmlNode {
    pub parent: Option<usize>,
    /// The local name of an element; empty for other nodes.
    pub tag: String,
    /// The text of the node, or with which the element begins.
    pub text: Option<String>,
}

/// A node of an XML document.
pub struct XmlNodeView {
    pub parent: Option<usize>,
    pub tag: Seq<char>,
    pub text: Option<Seq<char>>,
}

impl View for XmlNode {
    type V = XmlNodeView;

    open spec fn view(&self) -> XmlNodeView {
        XmlNodeView { parent: self.parent, tag: self.tag@, text: text::opt_text(self.text) }
    }
}

/// The nodes of a list.
pub open spec fn xml_views(v: Seq<XmlNode>) -> Seq<XmlNodeView> {
    v.map_values(|x: XmlNode| x@)
}

/// The nodes of an XML document, or why it is none.
pub uninterp spec fn xml_tree(xml: Seq<char>) -> std::result::Result<Seq<XmlNodeView>, Seq<char>>;

/// `Document::parse` of roxmltree, with its `descendants` as a list: of each node the place of its
/// parent, its tag name without a namespace, and its `text`. A function of the text, named
/// `xml_tree`. An error is given in words.
#[verifier::external_body]
fn read_xml(xml: &str) -> (r: std::result::Result<Vec<XmlNode>, String>)
    ensures
        match r {
            Ok(v) => xml_tree(xml@) == Ok::<_, Seq<char>>(xml_views(v@)),
            Err(e) => xml_tree(xml@) == Err::<Seq<XmlNodeView>, _>(e@),
        },
{
    let doc = roxmltree::Document::parse(xml).map_err(|e| e.to_string())?;
    let node = |n: roxmltree::Node| XmlNode {
        parent: n.parent().map(|p| p.id().get_usize()),
        tag: n.tag_name().name().to_string(),
        text: n.text().map(str::to_string),
    };
    Ok(doc.descendants().map(node).collect())
}

/// Node `j` is the first child of node `i` with this tag.
pub open spec fn is_child(nodes: Seq<XmlNodeView>, i: int, tag: Seq<char>, j: int) -> bool {
    &&& 0 <= j < nodes.len()
    &&& has_parent_and_tag(nodes, i, tag, j)
    &&& forall|k: int| 0 <= k < j ==> !#[trigger] has_parent_and_tag(nodes, i, tag, k)
}

/// Node `j` is a child of node `i` and has this tag.
pub open spec fn has_parent_and_tag(
    nodes: Seq<XmlNodeView>,
    i: int,
    tag: Seq<char>,
    j: int,
) -> bool {
    nodes[j].parent is Some && nodes[j].parent->0 == i && nodes[j].tag == tag
}

/// The text of the first child of node `i` with this tag, without white space around it; empty
/// where there is none.
pub open spec fn child_text_of(nodes: Seq<XmlNodeView>, i: int, tag: Seq<char>) -> Seq<char> {
    if exists|j: int| is_child(nodes, i, tag, j) {
        let j = choose|j: int| is_child(nodes, i, tag, j);
        match nodes[j].text {
            Some(s) => text::trimmed(s),
            None => Seq::empty(),
        }
    } else {
        Seq::empty()
    }
}

/// The size that a text gives; zero where it gives none.
pub open spec fn size_of_text(s: Seq<char>) -> u64 {
    match text::parsed_u64(s) {
        Some(n) => n,
        None => 0,
    }
}

/// The file that node `i` describes.
pub open spec fn file_at(nodes: Seq<XmlNodeView>, i: int) -> CatalogEntryView {
    CatalogEntryView {
        filename: child_text_of(nodes, i, "FileName"@),
        language_code: child_text_of(nodes, i, "LanguageCode"@),
        language: child_text_of(nodes, i, "Language"@),
        architecture: child_text_of(nodes, i, "Architecture"@),
        size: size_of_text(child_text_of(nodes, i, "Size"@)),
        sha1: child_text_of(nodes, i, "Sha1"@),
        file_path: child_text_of(nodes, i, "FilePath"@),
    }
}

/// The files that the first `n` nodes describe: those with the tag of a file and a file name.
pub open spec fn files_in(nodes: Seq<XmlNodeView>, n: nat) -> Seq<CatalogEntryView>
    decreases n,
{
    if n == 0 {
        Seq::empty()
    } else {
        let before = files_in(nodes, (n - 1) as nat);
        if nodes[n - 1].tag == "File"@ && child_text_of(nodes, n - 1, "FileName"@).len() > 0 {
            before.push(file_at(nodes, n - 1))
        } else {
            before
        }
    }
}

/// The text of the first child of a node with this tag.
fn child_text(nodes: &Vec<XmlNode>, i: usize, tag: &str) -> (r: String)
    ensures
        r@ == child_text_of(xml_views(nodes@), i as int, tag@),
{
    let n: usize = nodes.len();
    let ghost all = xml_views(nodes@);
    let mut j: usize = 0;
    while j < n
        invariant
            j <= n,
            n == nodes@.len(),
            all == xml_views(nodes@),
            forall|k: int| 0 <= k < j ==> !#[trigger] has_parent_and_tag(all, i as int, tag@, k),
        decreases n - j,
    {
        assert(all[j as int] == nodes@[j as int]@);
        let here: bool = match nodes[j].parent {
            Some(p) => p == i,
            None => false,
        };
        if here && text::text_eq(nodes[j].tag.as_str(), tag) {
            proof {
                assert(is_child(all, i as int, tag@, j as int));
                let k = choose|k: int| is_child(all, i as int, tag@, k);
                if k < j {
                    assert(!has_parent_and_tag(all, i as int, tag@, k));
                } else if j < k {
                    assert(!has_parent_and_tag(all, i as int, tag@, j as int));
                }
            }
            return match &nodes[j].text {
                Some(s) => text::trim(s.as_str()),
                None => String::new(),
            };
        }
        j += 1;
    }
    proof {
        if exists|k: int| is_child(all, i as int, tag@, k) {
            let k = choose|k: int| is_child(all, i as int, tag@, k);
            assert(has_parent_and_tag(all, i as int, tag@, k));
        }
    }
    String::new()
}

/// The files that an XML document describes.
pub fn files_of_nodes(nodes: &Vec<XmlNode>) -> (r: Vec<CatalogEntry>)
    ensures
        catalog_views(r@) == files_in(xml_views(nodes@), nodes@.len()),
{
    let n: usize = nodes.len();
    let ghost all = xml_views(nodes@);
    let mut r: Vec<CatalogEntry> = Vec::new();
    let mut i: usize = 0;
    assert(catalog_views(r@) =~= Seq::empty());
    while i < n
        invariant
            i <= n,
            n == nodes@.len(),
            all == xml_views(nodes@),
            catalog_views(r@) == files_in(all, i as nat),
        decreases n - i,
    {
        assert(all[i as int] == nodes@[i as int]@);
        if text::text_eq(nodes[i].tag.as_str(), "File") {
            let filename = child_text(nodes, i, "FileName");
            if !filename.as_str().is_empty() {
                let size_text = child_text(nodes, i, "Size");
                let size: u64 = match text::parse_u64(size_text.as_str()) {
                    Some(s) => s,
                    None => 0,
                };
                let one = CatalogEntry {
                    filename,
                    language_code: child_text(nodes, i, "LanguageCode"),
                    language: child_text(nodes, i, "Language"),
                    architecture: child_text(nodes, i, "Architecture"),
                    size,
                    sha1: child_text(nodes, i, "Sha1"),
                    file_path: child_text(nodes, i, "FilePath"),
                };
                let ghost before = catalog_views(r@);
                r.push(one);
                assert(catalog_views(r@) =~= before.push(one@));
            }
        }
        i += 1;
    }
    r
}

/// Reads the files that the text of the catalog describes.
pub fn parse_products_xml(xml: &str) -> (r: Result<Vec<CatalogEntry>>)
    ensures
        match xml_tree(xml@) {
            Ok(nodes) => r is Ok && catalog_views(r->Ok_0@) == files_in(nodes, nodes.len()),
            Err(e) => r is Err && r->Err_0@ == error::ErrorView::Xml(
                "Failed to parse products XML: "@ + e,
            ),
        },
{
    match read_xml(xml) {
        Err(e) => Err(Error::Xml(text::concat("Failed to parse products XML: ", e.as_str()))),
        Ok(nodes) => Ok(files_of_nodes(&nodes)),
    }
}

/// What the catalog in a cabinet comes to: its files, or what is wrong with it.
pub open spec fn is_catalog_of(
    data: Seq<u8>,
    r: std::result::Result<Seq<CatalogEntryView>, error::ErrorView>,
) -> bool {
    match cabinet::cab_names(data) {
        Err(e) => r == Err::<Seq<CatalogEntryView>, _>(
            error::ErrorView::Cab("Failed to open CAB: "@ + e),
        ),
        Ok(names) => exists|x: std::result::Result<Seq<char>, error::ErrorView>|
            #[trigger] is_xml_of(data, names, x) && r == match x {
                Err(e) => Err(e),
                Ok(xml) => match xml_tree(xml) {
                    Ok(nodes) => Ok(files_in(nodes, nodes.len())),
                    Err(e) => Err(error::ErrorView::Xml("Failed to parse products XML: "@ + e)),
                },
            },
    }
}

/// The files of a catalog, or the error in their place.
pub open spec fn catalog_result(r: Result<Vec<CatalogEntry>>) -> std::result::Result<
    Seq<CatalogEntryView>,
    error::ErrorView,
> {
    match r {
        Ok(v) => Ok(catalog_views(v@)),
        Err(e) => Err(e@),
    }
}

/// Reads the catalog from the cabinet that holds it.
pub fn read_catalog(data: &[u8]) -> (r: Result<Vec<CatalogEntry>>)
    requires
        xml_can_be_unpacked(data@),
    ensures
        is_catalog_of(data@, catalog_result(r)),
{
    match extract_xml_from_cab(data) {
        Err(e) => {
            proof {
                if let Ok(names) = cabinet::cab_names(data@) {
                    assert(is_xml_of(data@, names, Err(e@)));
                }
            }
            Err(e)
        },
        Ok(xml) => {
            proof {
                if let Ok(names) = cabinet::cab_names(data@) {
                    assert(is_xml_of(data@, names, Ok(xml@)));
                }
            }
            parse_products_xml(xml.as_str())
        },
    }
}

/// Reads the catalog from the cabinet that holds it, where the file to read can be unpacked whatever
/// its data are.
pub fn open_catalog(data: &[u8]) -> (r: Option<Result<Vec<CatalogEntry>>>)
    ensures
        match r {
            Some(c) => xml_can_be_unpacked(data@) && is_catalog_of(data@, catalog_result(c)),
            None => !xml_can_be_unpacked(data@),
        },
{
    if check_cabinet(data) {
        Some(read_catalog(data))
    } else {
        None
    }
}

// ---------------------------------------------------------------------------
// Languages and links
// ---------------------------------------------------------------------------
/// The `i`-th file is for this architecture, whose case does not matter.
pub open spec fn is_for_arch(es: Seq<CatalogEntryView>, arch: Seq<char>, i: int) -> bool {
    text::same_ignoring_case(es[i].architecture, arch)
}

/// The `i`-th file is the first for this architecture in its language.
pub open spec fn is_first_in_language(es: Seq<CatalogEntryView>, arch: Seq<char>, i: int) -> bool {
    &&& is_for_arch(es, arch, i)
    &&& forall|j: int|
        0 <= j < i && #[trigger] is_for_arch(es, arch, j) ==> es[j].language_code
            != es[i].language_code
}

/// The `i`-th file stands before the `j`-th by the names of their languages, and by the codes of
/// these where the names are the same.
pub open spec fn named_before(es: Seq<CatalogEntryView>, i: int, j: int) -> bool {
    ||| text::text_less(es[i].language, es[j].language)
    ||| es[i].language == es[j].language && text::text_less(
        es[i].language_code,
        es[j].language_code,
    )
    ||| es[i].language == es[j].language && es[i].language_code == es[j].language_code && i < j
}

/// The language of a file.
pub open spec fn language_of(e: CatalogEntryView) -> models::LanguageView {
    models::LanguageView {
        id: e.language_code,
        name: e.language,
        sku_id: e.language_code,
        friendly_filename: Some(e.filename),
    }
}

/// The list names one file in each language for this architecture, the first one, in the order of
/// the names of the languages.
pub open spec fn is_language_order(
    es: Seq<CatalogEntryView>,
    arch: Seq<char>,
    s: Seq<usize>,
) -> bool {
    &&& forall|k: int| 0 <= k < s.len() ==> #[trigger] s[k] < es.len()
    &&& forall|k: int, l: int|
        0 <= k < l < s.len() ==> named_before(es, #[trigger] s[k] as int, #[trigger] s[l] as int)
    &&& forall|i: usize|
        i < es.len() ==> (#[trigger] s.contains(i) <==> is_first_in_language(es, arch, i as int))
}

/// The languages are those of the files for this architecture, in the order of their names.
pub open spec fn are_languages(
    es: Seq<CatalogEntryView>,
    arch: Seq<char>,
    l: Seq<models::LanguageView>,
) -> bool {
    exists|s: Seq<usize>|
        #[trigger] is_language_order(es, arch, s) && l == s.map_values(
            |i: usize| language_of(es[i as int]),
        )
}

/// The order of files by the names of their languages.
struct ByLanguage<'a> {
    entries: &'a Vec<CatalogEntry>,
}

impl<'a> Order for ByLanguage<'a> {
    closed spec fn count(&self) -> nat {
        self.entries@.len()
    }

    closed spec fn before(&self, i: int, j: int) -> bool {
        named_before(catalog_views(self.entries@), i, j)
    }

    proof fn total(&self, i: int, j: int) {
        let a = catalog_views(self.entries@)[i];
        let b = catalog_views(self.entries@)[j];
        text::lemma_less_irreflexive(a.language);
        text::lemma_less_irreflexive(a.language_code);
        if a.language != b.language {
            text::lemma_less_total(a.language, b.language);
            if text::text_less(a.language, b.language) && text::text_less(b.language, a.language) {
                text::lemma_less_transitive(a.language, b.language, a.language);
            }
        } else if a.language_code != b.language_code {
            text::lemma_less_total(a.language_code, b.language_code);
            if text::text_less(a.language_code, b.language_code) && text::text_less(
                b.language_code,
                a.language_code,
            ) {
                text::lemma_less_transitive(a.language_code, b.language_code, a.language_code);
            }
        }
    }

    proof fn transitive(&self, i: int, j: int, k: int) {
        let a = catalog_views(self.entries@)[i];
        let b = catalog_views(self.entries@)[j];
        let c = catalog_views(self.entries@)[k];
        if text::text_less(a.language, b.language) && text::text_less(b.language, c.language) {
            text::lemma_less_transitive(a.language, b.language, c.language);
        }
        if text::text_less(a.language_code, b.language_code) && text::text_less(
            b.language_code,
            c.language_code,
        ) {
            text::lemma_less_transitive(a.language_code, b.language_code, c.language_code);
        }
    }
}

impl<'a> Ranking for ByLanguage<'a> {
    fn is_before(&self, i: usize, j: usize) -> (r: bool) {
        let a = &self.entries[i];
        let b = &self.entries[j];
        if text::text_lt(a.language.as_str(), b.language.as_str()) {
            return true;
        }
        if !text::text_eq(a.language.as_str(), b.language.as_str()) {
            return false;
        }
        if text::text_lt(a.language_code.as_str(), b.language_code.as_str()) {
            return true;
        }
        text::text_eq(a.language_code.as_str(), b.language_code.as_str()) && i < j
    }
}

/// Whether the `i`-th file is the first for this architecture in its language.
fn first_in_language(entries: &Vec<CatalogEntry>, arch: &str, i: usize) -> (r: bool)
    requires
        i < entries@.len(),
    ensures
        r == is_first_in_language(catalog_views(entries@), arch@, i as int),
{
    let ghost es = catalog_views(entries@);
    assert(es[i as int] == entries@[i as int]@);
    if !text::eq_ignore_ascii_case(entries[i].architecture.as_str(), arch) {
        return false;
    }
    let mut j: usize = 0;
    while j < i
        invariant
            j <= i,
            i < entries@.len(),
            es == catalog_views(entries@),
            forall|k: int|
                0 <= k < j && #[trigger] is_for_arch(es, arch@, k) ==> es[k].language_code
                    != es[i as int].language_code,
        decreases i - j,
    {
        assert(es[j as int] == entries@[j as int]@);
        assert(es[i as int] == entries@[i as int]@);
        if text::eq_ignore_ascii_case(entries[j].architecture.as_str(), arch) && text::text_eq(
            entries[j].language_code.as_str(),
            entries[i].language_code.as_str(),
        ) {
            assert(is_for_arch(es, arch@, j as int));
            return false;
        }
        j += 1;
    }
    true
}

/// The languages in which there are files for an architecture, in the order of their names.
pub fn get_languages_from_catalog(entries: &Vec<CatalogEntry>, arch: &str) -> (r: Vec<Language>)
    ensures
        are_languages(catalog_views(entries@), arch@, models::language_views(r@)),
{
    let n: usize = entries.len();
    let ghost es = catalog_views(entries@);
    let mut chosen: Vec<usize> = Vec::new();
    let mut i: usize = 0;
    while i < n
        invariant
            i <= n,
            n == entries@.len(),
            es == catalog_views(entries@),
            forall|k: int| 0 <= k < chosen@.len() ==> #[trigger] chosen@[k] < i,
            forall|k: int, l: int|
                0 <= k < l < chosen@.len() ==> #[trigger] chosen@[k] < #[trigger] chosen@[l],
            forall|x: usize|
                x < i ==> (#[trigger] chosen@.contains(x) <==> is_first_in_language(
                    es,
                    arch@,
                    x as int,
                )),
        decreases n - i,
    {
        let ghost before = chosen@;
        if first_in_language(entries, arch, i) {
            chosen.push(i);
            proof {
                assert forall|x: usize| x < i + 1 implies (#[trigger] chosen@.contains(x)
                    <==> is_first_in_language(es, arch@, x as int)) by {
                    if before.contains(x) {
                        let k = choose|k: int| 0 <= k < before.len() && before[k] == x;
                        assert(chosen@[k] == x);
                    }
                    if x == i {
                        assert(chosen@[before.len() as int] == x);
                    }
                    if chosen@.contains(x) && x != i {
                        let k = choose|k: int| 0 <= k < chosen@.len() && chosen@[k] == x;
                        assert(before[k] == x);
                    }
                }
            }
        } else {
            proof {
                if chosen@.contains(i) {
                    let k = choose|k: int| 0 <= k < chosen@.len() && chosen@[k] == i;
                    assert(chosen@[k] < i);
                }
            }
        }
        i += 1;
    }
    let ranking = ByLanguage { entries };
    proof {
        assert forall|k: int| 0 <= k < chosen@.len() implies #[trigger] chosen@[k]
            < ranking.count() by {}
        assert(sort::distinct(chosen@));
    }
    let order = sort::sort_indices(&ranking, &chosen);
    let m: usize = order.len();
    proof {
        assert forall|k: int| 0 <= k < order@.len() implies #[trigger] order@[k] < es.len() by {
            assert(order@[k] < ranking.count());
        }
        assert forall|k: int, l: int| 0 <= k < l < order@.len() implies named_before(
            es,
            #[trigger] order@[k] as int,
            #[trigger] order@[l] as int,
        ) by {
            assert(ranking.before(order@[k] as int, order@[l] as int));
        }
        assert forall|x: usize| x < es.len() implies (#[trigger] order@.contains(x)
            <==> is_first_in_language(es, arch@, x as int)) by {
            assert(chosen@.contains(x) <==> order@.contains(x));
        }
        assert(is_language_order(es, arch@, order@));
    }
    let ghost goal = order@.map_values(|i: usize| language_of(es[i as int]));
    let mut r: Vec<Language> = Vec::new();
    let mut k: usize = 0;
    while k < m
        invariant
            k <= m,
            m == order@.len(),
            es == catalog_views(entries@),
            forall|k: int| 0 <= k < order@.len() ==> #[trigger] order@[k] < entries@.len(),
            goal == order@.map_values(|i: usize| language_of(es[i as int])),
            r@.len() == k,
            forall|j: int| 0 <= j < k ==> (#[trigger] r@[j])@ == goal[j],
        decreases m - k,
    {
        let e = &entries[order[k]];
        assert(es[order@[k as int] as int] == e@);
        r.push(
            Language {
                id: e.language_code.clone(),
                name: e.language.clone(),
                sku_id: e.language_code.clone(),
                friendly_filename: Some(e.filename.clone()),
            },
        );
        k += 1;
    }
    assert(models::language_views(r@) =~= goal);
    r
}

/// The link to a file.
pub open spec fn link_of(e: CatalogEntryView) -> models::DownloadLinkView {
    models::DownloadLinkView {
        url: e.file_path,
        filename: e.filename,
        size: Some(e.size),
        sha1: Some(e.sha1),
    }
}

/// The `i`-th file is in this language and for this architecture.
pub open spec fn is_wanted(
    es: Seq<CatalogEntryView>,
    code: Seq<char>,
    arch: Seq<char>,
    i: int,
) -> bool {
    es[i].language_code == code && is_for_arch(es, arch, i)
}

/// The `i`-th file is the first in this language and for this architecture.
pub open spec fn is_first_wanted(
    es: Seq<CatalogEntryView>,
    code: Seq<char>,
    arch: Seq<char>,
    i: int,
) -> bool {
    &&& 0 <= i < es.len()
    &&& is_wanted(es, code, arch, i)
    &&& forall|j: int| 0 <= j < i ==> !#[trigger] is_wanted(es, code, arch, j)
}

/// `r` is the link to the first file in a language and for an architecture; none where there is no
/// such file.
pub open spec fn is_link_for(
    es: Seq<CatalogEntryView>,
    code: Seq<char>,
    arch: Seq<char>,
    r: Option<models::DownloadLinkView>,
) -> bool {
    match r {
        Some(l) => exists|i: int|
            #[trigger] is_first_wanted(es, code, arch, i) && l == link_of(es[i]),
        None => forall|i: int| 0 <= i < es.len() ==> !#[trigger] is_wanted(es, code, arch, i),
    }
}

/// An optional link.
pub open spec fn opt_link(r: Option<DownloadLink>) -> Option<models::DownloadLinkView> {
    match r {
        Some(l) => Some(l@),
        None => None,
    }
}

/// The link to the first file in a language and for an architecture.
pub fn get_download_link_from_catalog(
    entries: &Vec<CatalogEntry>,
    language_code: &str,
    arch: &str,
) -> (r: Option<DownloadLink>)
    ensures
        is_link_for(catalog_views(entries@), language_code@, arch@, opt_link(r)),
{
    let n: usize = entries.len();
    let ghost es = catalog_views(entries@);
    let mut i: usize = 0;
    while i < n
        invariant
            i <= n,
            n == entries@.len(),
            es == catalog_views(entries@),
            forall|j: int|
                0 <= j < i ==> !#[trigger] is_wanted(es, language_code@, arch@, j),
        decreases n - i,
    {
        let e = &entries[i];
        assert(es[i as int] == e@);
        if text::text_eq(e.language_code.as_str(), language_code) && text::eq_ignore_ascii_case(
            e.architecture.as_str(),
            arch,
        ) {
            assert(is_first_wanted(es, language_code@, arch@, i as int));
            return Some(
                DownloadLink {
                    url: e.file_path.clone(),
                    filename: e.filename.clone(),
                    size: Some(e.size),
                    sha1: Some(e.sha1.clone()),
                },
            );
        }
        i += 1;
    }
    None
}

/// There is a link for a code and an architecture if and only if the catalog lists a language with
/// that code for that architecture. It is the link to the first file with that code and for that
/// architecture, which is the file that the language names.
pub proof fn law_linked_if_listed(
    es: Seq<CatalogEntryView>,
    arch: Seq<char>,
    l: Seq<models::LanguageView>,
    code: Seq<char>,
    r: Option<models::DownloadLinkView>,
)
    requires
        are_languages(es, arch, l),
        is_link_for(es, code, arch, r),
        es.len() <= usize::MAX,
    ensures
        r is Some <==> exists|k: int| 0 <= k < l.len() && (#[trigger] l[k]).id == code,
        r is Some ==> exists|i: int|
            #[trigger] is_first_wanted(es, code, arch, i) && r->0 == (models::DownloadLinkView {
                url: es[i].file_path,
                filename: es[i].filename,
                size: Some(es[i].size),
                sha1: Some(es[i].sha1),
            }),
        forall|k: int|
            0 <= k < l.len() && (#[trigger] l[k]).id == code ==> r is Some
                && l[k].friendly_filename == Some(r->0.filename),
{
    let s = choose|s: Seq<usize>|
        #[trigger] is_language_order(es, arch, s) && l == s.map_values(
            |i: usize| language_of(es[i as int]),
        );
    assert forall|k: int| 0 <= k < l.len() && (#[trigger] l[k]).id == code implies r is Some
        && l[k].friendly_filename == Some(r->0.filename) by {
        let i = s[k] as int;
        assert(s.contains(s[k]));
        assert(is_first_in_language(es, arch, i));
        assert(is_wanted(es, code, arch, i));
        assert forall|j: int| 0 <= j < i implies !#[trigger] is_wanted(es, code, arch, j) by {
            if is_for_arch(es, arch, j) {
                assert(es[j].language_code != es[i].language_code);
            }
        }
        let f = choose|f: int|
            #[trigger] is_first_wanted(es, code, arch, f) && r->0 == link_of(es[f]);
        assert(f == i);
    }
    if r is Some {
        let f = choose|f: int|
            #[trigger] is_first_wanted(es, code, arch, f) && r->0 == link_of(es[f]);
        assert(is_first_in_language(es, arch, f)) by {
            assert forall|j: int|
                0 <= j < f && #[trigger] is_for_arch(es, arch, j) implies es[j].language_code
                != es[f].language_code by {
                assert(!is_wanted(es, code, arch, j));
            }
        }
        assert(s.contains(f as usize));
        let k = choose|k: int| 0 <= k < s.len() && s[k] == f as usize;
        assert(l[k].id == code);
    }
}

/// No two languages that the catalog lists have the same code.
pub proof fn law_codes_differ(
    es: Seq<CatalogEntryView>,
    arch: Seq<char>,
    l: Seq<models::LanguageView>,
    a: int,
    b: int,
)
    requires
        are_languages(es, arch, l),
        0 <= a < b < l.len(),
        es.len() <= usize::MAX,
    ensures
        l[a].id != l[b].id,
        !text::text_less(l[b].name, l[a].name),
{
    let s = choose|s: Seq<usize>|
        #[trigger] is_language_order(es, arch, s) && l == s.map_values(
            |i: usize| language_of(es[i as int]),
        );
    let i = s[a] as int;
    let j = s[b] as int;
    assert(s.contains(s[a]) && s.contains(s[b]));
    assert(is_first_in_language(es, arch, i));
    assert(is_first_in_language(es, arch, j));
    assert(named_before(es, i, j));
    text::lemma_less_irreflexive(es[i].language);
    text::lemma_less_irreflexive(es[i].language_code);
    if text::text_less(es[i].language, es[j].language) && text::text_less(
        es[j].language,
        es[i].language,
    ) {
        text::lemma_less_transitive(es[i].language, es[j].language, es[i].language);
    }
    if es[i].language_code == es[j].language_code {
        if i < j {
            assert(is_for_arch(es, arch, i));
        } else if j < i {
            assert(is_for_arch(es, arch, j));
        } else {
            assert(named_before(es, i, i));
        }
    }
}

} // verus!
