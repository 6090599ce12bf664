//! The Windows versions on offer.

use crate::text;
use vstd::prelude::*;

verus! {

/// An edition of a Windows version for one architecture.
#[derive(Debug)]
pub struct Edition {
    pub id: &'static str,
    pub name: &'static str,
    pub arch: &'static str,
}

/// A Windows version.
#[derive(Debug)]
pub struct Product {
    pub key: &'static str,
    pub name: &'static str,
    pub editions: Vec<Edition>,
    /// The last part of the address of its download page.
    pub segment: &'static str,
}

/// An edition of a Windows version for one architecture.
pub struct EditionView {
    pub id: Seq<char>,
    pub name: Seq<char>,
    pub arch: Seq<char>,
}

/// A Windows version.
pub struct ProductView {
    pub key: Seq<char>,
    pub name: Seq<char>,
    pub editions: Seq<EditionView>,
    pub segment: Seq<char>,
}

impl View for Edition {
    type V = EditionView;

    open spec fn view(&self) -> EditionView {
        EditionView { id: self.id@, name: self.name@, arch: self.arch@ }
    }
}

/// The editions of a list.
pub open spec fn edition_views(v: Seq<Edition>) -> Seq<EditionView> {
    v.map_values(|x: Edition| x@)
}

impl View for Product {
    type V = ProductView;

    open spec fn view(&self) -> ProductView {
        ProductView {
            key: self.key@,
            name: self.name@,
            editions: edition_views(self.editions@),
            segment: self.segment@,
        }
    }
}

/// The products of a list.
pub open spec fn product_views(v: Seq<Product>) -> Seq<ProductView> {
    v.map_values(|x: Product| x@)
}

pub open spec fn windows11() -> ProductView {
    ProductView {
        key: "windows11"@,
        name: "Windows 11"@,
        editions: seq![
            EditionView { id: "3321"@, name: "Windows 11 (x64)"@, arch: "x64"@ },
            EditionView { id: "3324"@, name: "Windows 11 (ARM64)"@, arch: "ARM64"@ },
        ],
        segment: "windows11"@,
    }
}

pub open spec fn windows10() -> ProductView {
    ProductView {
        key: "windows10"@,
        name: "Windows 10"@,
        editions: seq![EditionView { id: "2618"@, name: "Windows 10 (x64)"@, arch: "x64"@ }],
        segment: "windows10ISO"@,
    }
}

/// The product with this key.
pub open spec fn product_for(key: Seq<char>) -> Option<ProductView> {
    if key == windows11().key {
        Some(windows11())
    } else if key == windows10().key {
        Some(windows10())
    } else {
        None
    }
}

/// The edition for this architecture, whose case does not matter; the first one where there is
/// none for it.
pub open spec fn edition_for(p: ProductView, arch: Seq<char>) -> EditionView
    recommends
        p.editions.len() > 0,
{
    if exists|i: int| is_edition_for(p, arch, i) {
        p.editions[choose|i: int| is_edition_for(p, arch, i)]
    } else {
        p.editions[0]
    }
}

/// The `i`-th edition is the first for this architecture.
pub open spec fn is_edition_for(p: ProductView, arch: Seq<char>, i: int) -> bool {
    &&& 0 <= i < p.editions.len()
    &&& text::same_ignoring_case(p.editions[i].arch, arch)
    &&& forall|j: int|
        0 <= j < i ==> !text::same_ignoring_case(#[trigger] p.editions[j].arch, arch)
}

/// The Windows versions on offer.
pub fn products() -> (r: Vec<Product>)
    ensures
        product_views(r@) == seq![windows11(), windows10()],
{
    let mut eleven: Vec<Edition> = Vec::new();
    eleven.push(Edition { id: "3321", name: "Windows 11 (x64)", arch: "x64" });
    eleven.push(Edition { id: "3324", name: "Windows 11 (ARM64)", arch: "ARM64" });
    let mut ten: Vec<Edition> = Vec::new();
    ten.push(Edition { id: "2618", name: "Windows 10 (x64)", arch: "x64" });
    let a = Product { key: "windows11", name: "Windows 11", editions: eleven, segment: "windows11" };
    let b = Product { key: "windows10", name: "Windows 10", editions: ten, segment: "windows10ISO" };
    assert(edition_views(a.editions@) =~= windows11().editions);
    assert(edition_views(b.editions@) =~= windows10().editions);
    let mut r: Vec<Product> = Vec::new();
    r.push(a);
    r.push(b);
    assert(product_views(r@) =~= seq![windows11(), windows10()]);
    r
}

/// The product with this key.
pub fn get_product(key: &str) -> (r: Option<Product>)
    ensures
        match r {
            Some(p) => product_for(key@) == Some(p@),
            None => product_for(key@) is None,
        },
        r matches Some(p) ==> p@.editions.len() > 0,
{
    let mut all = products();
    assert(product_views(all@)[0] == windows11());
    assert(product_views(all@)[1] == windows10());
    assert(product_views(all@).len() == 2);
    if text::text_eq(key, all[0].key) {
        return Some(all.swap_remove(0));
    }
    if text::text_eq(key, all[1].key) {
        return Some(all.swap_remove(1));
    }
    None
}

/// The edition of a product for an architecture.
pub fn get_edition<'a>(product: &'a Product, arch: &str) -> (r: &'a Edition)
    requires
        product@.editions.len() > 0,
    ensures
        r@ == edition_for(product@, arch@),
{
    let n: usize = product.editions.len();
    let ghost p = product@;
    let mut i: usize = 0;
    while i < n
        invariant
            i <= n,
            n == product.editions@.len(),
            p == product@,
            forall|j: int|
                0 <= j < i ==> !text::same_ignoring_case(#[trigger] p.editions[j].arch, arch@),
        decreases n - i,
    {
        assert(p.editions[i as int] == product.editions@[i as int]@);
        if text::eq_ignore_ascii_case(product.editions[i].arch, arch) {
            proof {
                assert(is_edition_for(p, arch@, i as int));
                let k = choose|k: int| is_edition_for(p, arch@, k);
                assert(k == i) by {
                    if k < i {
                        assert(!text::same_ignoring_case(p.editions[k].arch, arch@));
                    } else if i < k {
                        assert(!text::same_ignoring_case(p.editions[i as int].arch, arch@));
                    }
                }
            }
            return &product.editions[i];
        }
        i += 1;
    }
    assert(p.editions[0] == product.editions@[0]@);
    &product.editions[0]
}

} // verus!
