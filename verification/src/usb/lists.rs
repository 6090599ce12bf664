//! Reading property lists.

use crate::text;
use crate::tree;
use crate::tree::{Leaf, TreeNode};
use plist::Value;
use vstd::prelude::*;

verus! {

// ---------------------------------------------------------------------------
// Which can be read
// ---------------------------------------------------------------------------
/// How many arrays and dictionaries may be nested.
pub const MAX_NESTING: usize = 256;

/// The years of the dates that every machine can count.
pub const FIRST_YEAR: u16 = 1602;

pub const LAST_YEAR: u16 = 9998;

/// The bytes with which a binary list begins.
pub open spec fn binary_mark() -> Seq<u8> {
    seq![0x62, 0x70, 0x6c, 0x69, 0x73, 0x74, 0x30, 0x30]
}

/// The name of an array.
pub open spec fn array_name() -> Seq<u8> {
    seq![0x61, 0x72, 0x72, 0x61, 0x79]
}

/// The name of a dictionary.
pub open spec fn dict_name() -> Seq<u8> {
    seq![0x64, 0x69, 0x63, 0x74]
}

/// The name of a date.
pub open spec fn date_name() -> Seq<u8> {
    seq![0x64, 0x61, 0x74, 0x65]
}

/// The bytes from `i` on begin with these.
pub open spec fn stands_at(d: Seq<u8>, i: int, name: Seq<u8>) -> bool {
    0 <= i && i + name.len() <= d.len() && d.subrange(i, i + name.len()) == name
}

/// The place behind the name of an array or a dictionary at `i`.
pub open spec fn name_end(d: Seq<u8>, i: int) -> Option<int> {
    if stands_at(d, i, array_name()) {
        Some(i + 5)
    } else if stands_at(d, i, dict_name()) {
        Some(i + 4)
    } else {
        None
    }
}

/// The tag of an array or a dictionary begins at `i`.
pub open spec fn is_start(d: Seq<u8>, i: int) -> bool {
    d[i] == 0x3c && name_end(d, i + 1) is Some
}

/// The tag of an empty array or dictionary, which is its end too, stands at `i`.
pub open spec fn is_empty(d: Seq<u8>, i: int) -> bool {
    &&& is_start(d, i)
    &&& name_end(d, i + 1)->0 + 1 < d.len()
    &&& d[name_end(d, i + 1)->0] == 0x2f
    &&& d[name_end(d, i + 1)->0 + 1] == 0x3e
}

/// The tag that ends an array or a dictionary stands at `i`.
pub open spec fn is_end(d: Seq<u8>, i: int) -> bool {
    &&& d[i] == 0x3c
    &&& i + 1 < d.len()
    &&& d[i + 1] == 0x2f
    &&& name_end(d, i + 2) is Some
    &&& name_end(d, i + 2)->0 < d.len()
    &&& d[name_end(d, i + 2)->0] == 0x3e
}

/// How many arrays and dictionaries are open behind the first `n` bytes, by the tags among them.
pub open spec fn opened(d: Seq<u8>, n: nat) -> nat
    decreases n,
{
    if n == 0 {
        0
    } else {
        let before = opened(d, (n - 1) as nat);
        if is_empty(d, n - 1) {
            before
        } else if is_start(d, n - 1) {
            before + 1
        } else if is_end(d, n - 1) && before > 0 {
            (before - 1) as nat
        } else {
            before
        }
    }
}

/// A tag that has begun before `i` ends after nothing but letters and slashes.
pub open spec fn ends_plainly(d: Seq<u8>, i: int) -> bool
    decreases d.len() - i,
{
    if i < 0 || i >= d.len() {
        false
    } else if d[i] == 0x3e {
        true
    } else {
        (0x61 <= d[i] <= 0x7a || d[i] == 0x2f) && ends_plainly(d, i + 1)
    }
}

/// No tag of an array or a dictionary is missed at `i`, and none is seen where there is none: in an
/// array or a dictionary all tags are plain ones, and no tag of an array or a dictionary has a
/// prefix.
pub open spec fn is_told_rightly(d: Seq<u8>, i: int) -> bool {
    &&& d[i] == 0x3c && (opened(d, i as nat) > 0 || is_start(d, i)) ==> ends_plainly(d, i + 1)
    &&& d[i] == 0x3a ==> name_end(d, i + 1) is None
}

/// A list in XML that does not nest too deeply.
pub open spec fn nests_little(d: Seq<u8>) -> bool {
    forall|i: int|
        0 <= i < d.len() ==> #[trigger] is_told_rightly(d, i) && opened(d, (i + 1) as nat)
            <= MAX_NESTING
}

/// An array or a dictionary may begin at `i`, in XML or in the older form that has brackets.
pub open spec fn may_open(d: Seq<u8>, i: int) -> bool {
    ||| d[i] == 0x28
    ||| d[i] == 0x7b
    ||| (d[i] == 0x3c || d[i] == 0x3a) && name_end(d, i + 1) is Some
}

/// At how many of the first `n` bytes an array or a dictionary may begin.
pub open spec fn collections(d: Seq<u8>, n: nat) -> nat
    decreases n,
{
    if n == 0 {
        0
    } else if may_open(d, n - 1) {
        collections(d, (n - 1) as nat) + 1
    } else {
        collections(d, (n - 1) as nat)
    }
}

/// The byte is a decimal digit.
pub open spec fn is_digit(b: u8) -> bool {
    0x30 <= b <= 0x39
}

/// The number that four digits at `i` write.
pub open spec fn year_at(d: Seq<u8>, i: int) -> int {
    (d[i] - 0x30) * 1000 + (d[i + 1] - 0x30) * 100 + (d[i + 2] - 0x30) * 10 + (d[i + 3] - 0x30)
}

/// Where a date may begin at `i`, it begins with a year that every machine can count.
pub open spec fn has_no_odd_date(d: Seq<u8>, i: int) -> bool {
    (d[i] == 0x3c || d[i] == 0x3a) && stands_at(d, i + 1, date_name()) ==> {
        &&& d[i] == 0x3c
        &&& i + 10 <= d.len()
        &&& d[i + 5] == 0x3e
        &&& is_digit(d[i + 6]) && is_digit(d[i + 7]) && is_digit(d[i + 8]) && is_digit(d[i + 9])
        &&& FIRST_YEAR <= year_at(d, i + 6) <= LAST_YEAR
    }
}

/// The list can be read whatever else is in it: it is no binary one, its dates can be counted, and
/// it does not nest too deeply.
pub open spec fn is_tame(d: Seq<u8>) -> bool {
    &&& !stands_at(d, 0, binary_mark())
    &&& forall|i: int| 0 <= i < d.len() ==> #[trigger] has_no_odd_date(d, i)
    &&& if d.len() > 0 && d[0] == 0x3c {
        nests_little(d)
    } else {
        collections(d, d.len()) <= MAX_NESTING
    }
}

/// Whether the bytes from `i` on begin with these.
fn check_at(data: &[u8], i: usize, name: &[u8]) -> (r: bool)
    ensures
        r == stands_at(data@, i as int, name@),
{
    let n: usize = name.len();
    let len: usize = data.len();
    if len < i || len - i < n {
        return false;
    }
    let mut k: usize = 0;
    while k < n
        invariant
            k <= n,
            n == name@.len(),
            i + n <= len,
            len == data@.len(),
            data@.subrange(i as int, i + k) == name@.take(k as int),
        decreases n - k,
    {
        assert(data@.subrange(i as int, i + n)[k as int] == data@[i + k]);
        if data[i + k] != name[k] {
            assert(name@[k as int] != data@.subrange(i as int, i + n)[k as int]);
            return false;
        }
        assert(data@.subrange(i as int, i + k + 1) =~= data@.subrange(i as int, i + k).push(
            data@[i + k],
        ));
        assert(name@.take(k + 1) =~= name@.take(k as int).push(name@[k as int]));
        k += 1;
    }
    assert(name@.take(n as int) =~= name@);
    true
}

/// The place behind the name of an array or a dictionary at `i`.
fn find_name_end(data: &[u8], i: usize) -> (r: Option<usize>)
    ensures
        match r {
            Some(j) => name_end(data@, i as int) == Some(j as int) && j <= data@.len(),
            None => name_end(data@, i as int) is None,
        },
{
    let array: [u8; 5] = [0x61, 0x72, 0x72, 0x61, 0x79];
    let dict: [u8; 4] = [0x64, 0x69, 0x63, 0x74];
    assert(array@ =~= array_name());
    assert(dict@ =~= dict_name());
    assert(data@.len() == data.len());
    if check_at(data, i, &array) {
        Some(i + 5)
    } else if check_at(data, i, &dict) {
        Some(i + 4)
    } else {
        None
    }
}

/// Whether the tag of an empty array or dictionary stands at `i`.
fn check_empty(data: &[u8], i: usize) -> (r: bool)
    requires
        i < data@.len(),
    ensures
        r == is_empty(data@, i as int),
{
    let n: usize = data.len();
    if data[i] != 0x3c {
        return false;
    }
    match find_name_end(data, i + 1) {
        Some(j) => j < n && n - j > 1 && data[j] == 0x2f && data[j + 1] == 0x3e,
        None => false,
    }
}

/// Whether the tag that ends an array or a dictionary stands at `i`.
fn check_end(data: &[u8], i: usize) -> (r: bool)
    requires
        i < data@.len(),
    ensures
        r == is_end(data@, i as int),
{
    let n: usize = data.len();
    if data[i] != 0x3c || n - i < 2 || data[i + 1] != 0x2f {
        return false;
    }
    match find_name_end(data, i + 2) {
        Some(j) => j < n && data[j] == 0x3e,
        None => false,
    }
}

/// Whether a tag that has begun before `i` ends after nothing but letters and slashes.
fn check_plain(data: &[u8], i: usize) -> (r: bool)
    ensures
        r == ends_plainly(data@, i as int),
{
    let n: usize = data.len();
    let mut j: usize = i;
    while j < n
        invariant
            n == data@.len(),
            ends_plainly(data@, i as int) == ends_plainly(data@, j as int),
        decreases n - j,
    {
        let b: u8 = data[j];
        if b == 0x3e {
            return true;
        }
        if !(0x61 <= b && b <= 0x7a || b == 0x2f) {
            return false;
        }
        j += 1;
    }
    false
}

/// Whether a list in XML does not nest too deeply.
fn check_nesting(data: &[u8]) -> (r: bool)
    ensures
        r == nests_little(data@),
{
    let n: usize = data.len();
    let mut depth: usize = 0;
    let mut i: usize = 0;
    while i < n
        invariant
            i <= n,
            n == data@.len(),
            depth == opened(data@, i as nat),
            depth <= MAX_NESTING,
            forall|k: int|
                0 <= k < i ==> #[trigger] is_told_rightly(data@, k) && opened(
                    data@,
                    (k + 1) as nat,
                ) <= MAX_NESTING,
        decreases n - i,
    {
        let b: u8 = data[i];
        let named: bool = (b == 0x3c || b == 0x3a) && find_name_end(data, i + 1).is_some();
        let start: bool = b == 0x3c && named;
        if b == 0x3a && named || b == 0x3c && (depth > 0 || start) && !check_plain(data, i + 1) {
            assert(!is_told_rightly(data@, i as int));
            return false;
        }
        let empty: bool = check_empty(data, i);
        let end: bool = check_end(data, i);
        assert(is_told_rightly(data@, i as int));
        if start && !empty {
            depth += 1;
        } else if !empty && end && depth > 0 {
            depth -= 1;
        }
        assert(depth == opened(data@, (i + 1) as nat));
        if depth > MAX_NESTING {
            return false;
        }
        assert forall|k: int| 0 <= k < i + 1 implies #[trigger] is_told_rightly(data@, k)
            && opened(data@, (k + 1) as nat) <= MAX_NESTING by {
            assert(k == i || is_told_rightly(data@, k));
        }
        i += 1;
    }
    true
}

/// Whether few enough arrays and dictionaries may begin.
fn check_collections(data: &[u8]) -> (r: bool)
    ensures
        r == (collections(data@, data@.len()) <= MAX_NESTING),
{
    let n: usize = data.len();
    let mut count: usize = 0;
    let mut i: usize = 0;
    while i < n
        invariant
            i <= n,
            n == data@.len(),
            count <= i,
            count == collections(data@, i as nat),
        decreases n - i,
    {
        let b: u8 = data[i];
        if b == 0x28 || b == 0x7b || (b == 0x3c || b == 0x3a) && find_name_end(
            data,
            i + 1,
        ).is_some() {
            count += 1;
        }
        i += 1;
    }
    count <= MAX_NESTING
}

/// Whether the byte is a decimal digit.
fn check_digit(b: u8) -> (r: bool)
    ensures
        r == is_digit(b),
{
    0x30 <= b && b <= 0x39
}

/// Whether a date that may begin at `i` begins with a year that every machine can count.
fn check_date(data: &[u8], i: usize) -> (r: bool)
    requires
        i < data@.len(),
    ensures
        r == has_no_odd_date(data@, i as int),
{
    let date: [u8; 4] = [0x64, 0x61, 0x74, 0x65];
    assert(date@ =~= date_name());
    let n: usize = data.len();
    if data[i] != 0x3c && data[i] != 0x3a || !check_at(data, i + 1, &date) {
        return true;
    }
    if data[i] != 0x3c || n - i < 10 || data[i + 5] != 0x3e || !check_digit(data[i + 6])
        || !check_digit(data[i + 7]) || !check_digit(data[i + 8]) || !check_digit(data[i + 9]) {
        return false;
    }
    let year: u16 = (data[i + 6] - 0x30) as u16 * 1000 + (data[i + 7] - 0x30) as u16 * 100 + (
    data[i + 8] - 0x30) as u16 * 10 + (data[i + 9] - 0x30) as u16;
    FIRST_YEAR <= year && year <= LAST_YEAR
}

/// Whether the list can be read whatever else is in it.
pub fn check_list(data: &[u8]) -> (r: bool)
    ensures
        r == is_tame(data@),
{
    let binary: [u8; 8] = [0x62, 0x70, 0x6c, 0x69, 0x73, 0x74, 0x30, 0x30];
    assert(binary@ =~= binary_mark());
    if check_at(data, 0, &binary) {
        return false;
    }
    let n: usize = data.len();
    let mut i: usize = 0;
    while i < n
        invariant
            i <= n,
            n == data@.len(),
            forall|k: int| 0 <= k < i ==> #[trigger] has_no_odd_date(data@, k),
        decreases n - i,
    {
        if !check_date(data, i) {
            assert(!has_no_odd_date(data@, i as int));
            return false;
        }
        i += 1;
    }
    if n > 0 && data[0] == 0x3c {
        check_nesting(data)
    } else {
        check_collections(data)
    }
}

// ---------------------------------------------------------------------------
// What is in them
// ---------------------------------------------------------------------------
/// A property list of `plist`.
#[verifier::external_type_specification]
#[verifier::external_body]
pub struct ExPlist(plist::Value);

/// What a value holds directly: the elements of an array, or the members of a dictionary with their
/// names.
pub uninterp spec fn plist_held(v: plist::Value) -> Seq<(Option<Seq<char>>, plist::Value)>;

/// The characters of a string.
pub uninterp spec fn plist_string(v: plist::Value) -> Option<Seq<char>>;

/// The value of a truth value.
pub uninterp spec fn plist_boolean(v: plist::Value) -> Option<bool>;

/// The value of a whole number that is not negative.
pub uninterp spec fn plist_number(v: plist::Value) -> Option<u64>;

/// The values in the property list that these bytes are, or why they are none.
pub uninterp spec fn plist_tree(data: Seq<u8>) -> std::result::Result<
    Seq<tree::TreeNodeView>,
    Seq<char>,
>;

/// `Value::as_string` of plist: the characters of a string, named `plist_string`.
pub assume_specification[ plist::Value::as_string ](v: &plist::Value) -> (r: Option<&str>)
    ensures
        text::opt_str(r) == plist_string(*v),
;

/// `Value::as_boolean` of plist: the value of a truth value, named `plist_boolean`.
pub assume_specification[ plist::Value::as_boolean ](v: &plist::Value) -> (r: Option<bool>)
    ensures
        r == plist_boolean(*v),
;

/// `Value::as_unsigned_integer` of plist: the value of a whole number that is not negative, named
/// `plist_number`.
pub assume_specification[ plist::Value::as_unsigned_integer ](v: &plist::Value) -> (r: Option<u64>)
    ensures
        r == plist_number(*v),
;

/// The elements of an array of plist in their order, or the members of a dictionary as its `iter`
/// gives them: what the value holds, named `plist_held`. Other values hold none.
#[verifier::external_body]
fn list_members(v: &Value) -> (r: Vec<(Option<String>, &Value)>)
    ensures
        tree::held_views(r@) == plist_held(*v),
{
    match v {
        Value::Array(a) => a.iter().map(|x| (None, x)).collect(),
        Value::Dictionary(d) => d.iter().map(|(k, x)| (Some(k.clone()), x)).collect(),
        _ => Vec::new(),
    }
}

impl tree::Document for plist::Value {
    open spec fn held(&self) -> Seq<(Option<Seq<char>>, plist::Value)> {
        plist_held(*self)
    }

    open spec fn leaf(&self) -> tree::LeafView {
        tree::LeafView {
            text: Seq::empty(),
            string: plist_string(*self),
            boolean: plist_boolean(*self),
            number: plist_number(*self),
        }
    }

    fn list_held(&self) -> (r: Vec<(Option<String>, &plist::Value)>) {
        list_members(self)
    }

    fn to_leaf(&self) -> (r: Leaf) {
        let text = String::new();
        assert(text@ =~= Seq::empty());
        Leaf {
            text,
            string: text::own_opt(self.as_string()),
            boolean: self.as_boolean(),
            number: self.as_unsigned_integer(),
        }
    }
}

/// `plist::from_bytes` into a `Value`: the values in it are a function of the bytes, named
/// `plist_tree`. An error is given in words. It would panic on a date whose year, taken to UTC, has
/// not four digits. It reads an array or a dictionary inside another by a call of itself, so that
/// many overrun the stack. A binary list can refer to a value more than once, and so come to more
/// values than there is memory for.
#[verifier::external_body]
fn parse_plist(data: &[u8]) -> (r: std::result::Result<Value, String>)
    requires
        is_tame(data@),
    ensures
        match r {
            Ok(v) => plist_tree(data@) == Ok::<_, Seq<char>>(tree::tree_of(v)),
            Err(e) => plist_tree(data@) == Err::<Seq<tree::TreeNodeView>, _>(e@),
        },
{
    plist::from_bytes(data).map_err(|e| e.to_string())
}

/// What came of reading a property list: its values, or why there are none.
pub open spec fn list_result(r: std::result::Result<Vec<TreeNode>, String>) -> std::result::Result<
    Seq<tree::TreeNodeView>,
    Seq<char>,
> {
    match r {
        Ok(v) => Ok(tree::tree_views(v@)),
        Err(e) => Err(e@),
    }
}

/// The values in the property list that these bytes are.
pub fn read_plist(data: &[u8]) -> (r: std::result::Result<Vec<TreeNode>, String>)
    requires
        is_tame(data@),
    ensures
        list_result(r) == plist_tree(data@),
        r is Ok ==> tree::is_tree(tree::tree_views(r->Ok_0@)),
{
    match parse_plist(data) {
        Ok(v) => Ok(tree::list_values(&v)),
        Err(e) => Err(e),
    }
}

} // verus!
