//! Documents of nested values, as lists of values.

use crate::text;
use vstd::prelude::*;

verus! {

/// A value in a document. The first value of a list is the document itself, and each of the others
/// stands behind the one that holds it.
#[derive(Debug)]
pub struct TreeNode {
    /// The place of the value that holds it; zero for the document itself.
    pub parent: usize,
    /// The name of the value in the map that holds it; none in an array.
    pub key: Option<String>,
    /// The value, written compactly, where the document can be written that way.
    pub text: String,
    /// The characters of a string.
    pub string: Option<String>,
    /// The value of a truth value.
    pub boolean: Option<bool>,
    /// The value of a whole number that is not negative.
    pub number: Option<u64>,
}

/// A value in a document.
pub struct TreeNodeView {
    pub parent: int,
    pub key: Option<Seq<char>>,
    pub text: Seq<char>,
    pub string: Option<Seq<char>>,
    pub boolean: Option<bool>,
    pub number: Option<u64>,
}

impl View for TreeNode {
    type V = TreeNodeView;

    open spec fn view(&self) -> TreeNodeView {
        TreeNodeView {
            parent: self.parent as int,
            key: text::opt_text(self.key),
            text: self.text@,
            string: text::opt_text(self.string),
            boolean: self.boolean,
            number: self.number,
        }
    }
}

/// The values of a list.
pub open spec fn tree_views(v: Seq<TreeNode>) -> Seq<TreeNodeView> {
    v.map_values(|x: TreeNode| x@)
}

// ---------------------------------------------------------------------------
// Listing the values
// ---------------------------------------------------------------------------
/// A value of a document that holds other values.
pub trait Document: Sized {
    /// The values that it holds directly, in order, each with its name where it has one.
    spec fn held(&self) -> Seq<(Option<Seq<char>>, Self)>;

    /// What it is itself.
    spec fn leaf(&self) -> LeafView;

    /// The values that it holds directly.
    fn list_held(&self) -> (r: Vec<(Option<String>, &Self)>)
        ensures
            held_views(r@) == self.held(),
    ;

    /// What it is itself.
    fn to_leaf(&self) -> (r: Leaf)
        ensures
            r@ == self.leaf(),
    ;
}

/// What a value is, apart from where it stands.
#[derive(Debug)]
pub struct Leaf {
    pub text: String,
    pub string: Option<String>,
    pub boolean: Option<bool>,
    pub number: Option<u64>,
}

/// What a value is, apart from where it stands.
pub struct LeafView {
    pub text: Seq<char>,
    pub string: Option<Seq<char>>,
    pub boolean: Option<bool>,
    pub number: Option<u64>,
}

impl View for Leaf {
    type V = LeafView;

    open spec fn view(&self) -> LeafView {
        LeafView {
            text: self.text@,
            string: text::opt_text(self.string),
            boolean: self.boolean,
            number: self.number,
        }
    }
}

/// A value with the place of the one that holds it and its name there.
pub open spec fn node_of(parent: int, key: Option<Seq<char>>, leaf: LeafView) -> TreeNodeView {
    TreeNodeView {
        parent,
        key,
        text: leaf.text,
        string: leaf.string,
        boolean: leaf.boolean,
        number: leaf.number,
    }
}

/// A value with the place of the one that holds it and its name there.
fn make_node(parent: usize, key: Option<String>, leaf: Leaf) -> (r: TreeNode)
    ensures
        r@ == node_of(parent as int, text::opt_text(key), leaf@),
{
    TreeNode {
        parent,
        key,
        text: leaf.text,
        string: leaf.string,
        boolean: leaf.boolean,
        number: leaf.number,
    }
}

/// Values with their names.
pub open spec fn held_views<D>(v: Seq<(Option<String>, &D)>) -> Seq<(Option<Seq<char>>, D)> {
    v.map_values(|x: (Option<String>, &D)| (text::opt_text(x.0), *x.1))
}

/// A value of a document, with the place of the one that holds it and its name there.
pub struct Listed<D> {
    pub parent: int,
    pub key: Option<Seq<char>>,
    pub value: D,
}

/// The values that the one at place `i` holds.
pub open spec fn listed_in<D>(held: Seq<(Option<Seq<char>>, D)>, i: int) -> Seq<Listed<D>> {
    held.map_values(|x: (Option<Seq<char>>, D)| Listed { parent: i, key: x.0, value: x.1 })
}

/// The document, followed by the values that each of the first `n` in this list holds.
pub open spec fn listed<D: Document>(root: D, n: nat) -> Seq<Listed<D>>
    decreases n,
{
    if n == 0 {
        seq![Listed { parent: 0, key: None, value: root }]
    } else {
        let before = listed(root, (n - 1) as nat);
        if n - 1 < before.len() {
            before + listed_in(before[n - 1].value.held(), n - 1)
        } else {
            before
        }
    }
}

/// What the first `n` values hold is all there is.
pub open spec fn is_all<D: Document>(root: D, n: nat) -> bool {
    listed(root, n).len() <= n
}

/// The values of a list as plain ones.
pub open spec fn nodes_of<D: Document>(v: Seq<Listed<D>>) -> Seq<TreeNodeView> {
    v.map_values(|x: Listed<D>| node_of(x.parent, x.key, x.value.leaf()))
}

/// All values of a document: the document itself, then what it holds, then what these hold, and so
/// on.
pub open spec fn tree_of<D: Document>(root: D) -> Seq<TreeNodeView> {
    nodes_of(listed(root, choose|n: nat| is_all(root, n)))
}

/// Each value but the first stands behind the one that holds it.
pub open spec fn is_tree(nodes: Seq<TreeNodeView>) -> bool {
    &&& nodes.len() > 0
    &&& forall|i: int| 0 < i < nodes.len() ==> 0 <= (#[trigger] nodes[i]).parent < i
}

/// Once all values are there, no more come.
proof fn lemma_all_listed<D: Document>(root: D, n: nat, m: nat)
    requires
        is_all(root, n),
        n <= m,
    ensures
        listed(root, m) == listed(root, n),
    decreases m,
{
    if n < m {
        lemma_all_listed(root, n, (m - 1) as nat);
    }
}

/// The values of a document, as a list.
pub fn list_values<D: Document>(root: &D) -> (r: Vec<TreeNode>)
    ensures
        tree_views(r@) == tree_of(*root),
        is_tree(tree_views(r@)),
{
    let mut nodes: Vec<TreeNode> = Vec::new();
    let mut values: Vec<&D> = Vec::new();
    nodes.push(make_node(0, None, root.to_leaf()));
    values.push(root);
    let mut i: usize = 0;
    while i < values.len()
        invariant
            0 < values@.len(),
            i <= values@.len(),
            values@.len() == nodes@.len(),
            values@.len() == listed(*root, i as nat).len(),
            forall|k: int|
                0 <= k < values@.len() ==> *(#[trigger] values@[k]) == listed(
                    *root,
                    i as nat,
                )[k].value,
            forall|k: int|
                0 <= k < nodes@.len() ==> (#[trigger] nodes@[k])@ == nodes_of(
                    listed(*root, i as nat),
                )[k],
            forall|k: int|
                0 < k < values@.len() ==> 0 <= (#[trigger] listed(*root, i as nat)[k]).parent < k,
        decreases usize::MAX - i,
    {
        let ghost before = listed(*root, i as nat);
        let ghost held = values@[i as int].held();
        let ghost more = listed_in(held, i as int);
        let found = values[i].list_held();
        let n: usize = found.len();
        let mut j: usize = 0;
        assert(held_views(found@).len() == found@.len());
        assert(listed(*root, (i + 1) as nat) == before + more);
        while j < n
            invariant
                j <= n,
                n == found@.len(),
                i < before.len(),
                held_views(found@) == held,
                more == listed_in(held, i as int),
                values@.len() == nodes@.len(),
                values@.len() == before.len() + j,
                forall|k: int|
                    0 <= k < values@.len() ==> *(#[trigger] values@[k]) == (before + more)[k].value,
                forall|k: int|
                    0 <= k < nodes@.len() ==> (#[trigger] nodes@[k])@ == nodes_of(before + more)[k],
            decreases n - j,
        {
            let (key, value) = &found[j];
            assert(held[j as int] == held_views(found@)[j as int]);
            assert((before + more)[before.len() + j] == more[j as int]);
            let key = text::clone_opt(key);
            nodes.push(make_node(i, key, value.to_leaf()));
            values.push(*value);
            j += 1;
        }
        i += 1;
    }
    proof {
        let n = choose|n: nat| is_all(*root, n);
        assert(is_all(*root, i as nat));
        if n <= i {
            lemma_all_listed(*root, n, i as nat);
        } else {
            lemma_all_listed(*root, i as nat, n);
        }
    }
    assert(tree_views(nodes@) =~= nodes_of(listed(*root, i as nat)));
    nodes
}

// ---------------------------------------------------------------------------
// Looking things up
// ---------------------------------------------------------------------------
/// Value `i` holds value `j`.
pub open spec fn holds(nodes: Seq<TreeNodeView>, i: int, j: int) -> bool {
    0 < j && nodes[j].parent == i
}

/// Value `j` is called `key` in value `i`.
pub open spec fn is_called(nodes: Seq<TreeNodeView>, i: int, key: Seq<char>, j: int) -> bool {
    holds(nodes, i, j) && nodes[j].key == Some(key)
}

/// Value `j` is the first that is called `key` in value `i`.
pub open spec fn is_member(nodes: Seq<TreeNodeView>, i: int, key: Seq<char>, j: int) -> bool {
    &&& 0 <= j < nodes.len()
    &&& is_called(nodes, i, key, j)
    &&& forall|k: int| 0 <= k < j ==> !#[trigger] is_called(nodes, i, key, k)
}

/// The value that is called `key` in value `i`.
pub open spec fn member(nodes: Seq<TreeNodeView>, i: int, key: Seq<char>) -> Option<int> {
    if exists|j: int| is_member(nodes, i, key, j) {
        Some(choose|j: int| is_member(nodes, i, key, j))
    } else {
        None
    }
}

/// Value `j` is an element of the array `i`.
pub open spec fn is_element(nodes: Seq<TreeNodeView>, i: int, j: int) -> bool {
    holds(nodes, i, j) && nodes[j].key is None
}

/// The values among the first `n` that are elements of the array `i`.
pub open spec fn held_among(nodes: Seq<TreeNodeView>, i: int, n: nat) -> Seq<int>
    decreases n,
{
    if n == 0 {
        Seq::empty()
    } else if is_element(nodes, i, n - 1) {
        held_among(nodes, i, (n - 1) as nat).push(n - 1)
    } else {
        held_among(nodes, i, (n - 1) as nat)
    }
}

/// The values in the array that is called `key` in value `i`; none where that is no array.
pub open spec fn elements(nodes: Seq<TreeNodeView>, i: int, key: Seq<char>) -> Seq<int> {
    match member(nodes, i, key) {
        Some(j) => held_among(nodes, j, nodes.len()),
        None => Seq::empty(),
    }
}

/// The string that is called `key` in value `i`.
pub open spec fn string_in(nodes: Seq<TreeNodeView>, i: int, key: Seq<char>) -> Option<Seq<char>> {
    match member(nodes, i, key) {
        Some(j) => nodes[j].string,
        None => None,
    }
}

/// What is called `key` in value `i`, written compactly.
pub open spec fn text_in(nodes: Seq<TreeNodeView>, i: int, key: Seq<char>) -> Seq<char> {
    match member(nodes, i, key) {
        Some(j) => nodes[j].text,
        None => "null"@,
    }
}

/// The value that is called `key` in value `i`.
pub fn find_member(nodes: &Vec<TreeNode>, i: usize, key: &str) -> (r: Option<usize>)
    ensures
        match r {
            Some(j) => j < nodes@.len() && member(tree_views(nodes@), i as int, key@) == Some(
                j as int,
            ),
            None => member(tree_views(nodes@), i as int, key@) is None,
        },
{
    let n: usize = nodes.len();
    let ghost all = tree_views(nodes@);
    let mut j: usize = 0;
    while j < n
        invariant
            j <= n,
            n == nodes@.len(),
            all == tree_views(nodes@),
            forall|k: int| 0 <= k < j ==> !#[trigger] is_called(all, i as int, key@, k),
        decreases n - j,
    {
        assert(all[j as int] == nodes@[j as int]@);
        let called: bool = match &nodes[j].key {
            Some(k) => text::text_eq(k.as_str(), key),
            None => false,
        };
        if j > 0 && nodes[j].parent == i && called {
            proof {
                assert(is_member(all, i as int, key@, j as int));
                let k = choose|k: int| is_member(all, i as int, key@, k);
                if k < j {
                    assert(!is_called(all, i as int, key@, k));
                } else if j < k {
                    assert(!is_called(all, i as int, key@, j as int));
                }
            }
            return Some(j);
        }
        j += 1;
    }
    proof {
        if exists|k: int| is_member(all, i as int, key@, k) {
            let k = choose|k: int| is_member(all, i as int, key@, k);
            assert(is_called(all, i as int, key@, k));
        }
    }
    None
}

/// The places of a list as numbers.
pub open spec fn places(v: Seq<usize>) -> Seq<int> {
    v.map_values(|x: usize| x as int)
}

/// The values in the array that is called `key` in value `i`.
pub fn find_elements(nodes: &Vec<TreeNode>, i: usize, key: &str) -> (r: Vec<usize>)
    ensures
        places(r@) == elements(tree_views(nodes@), i as int, key@),
        forall|k: int| 0 <= k < r@.len() ==> #[trigger] r@[k] < nodes@.len(),
{
    let n: usize = nodes.len();
    let ghost all = tree_views(nodes@);
    let mut r: Vec<usize> = Vec::new();
    assert(places(r@) =~= Seq::empty());
    let j: usize = match find_member(nodes, i, key) {
        Some(j) => j,
        None => {
            return r;
        },
    };
    let mut k: usize = 0;
    while k < n
        invariant
            k <= n,
            n == nodes@.len(),
            all == tree_views(nodes@),
            places(r@) == held_among(all, j as int, k as nat),
            forall|x: int| 0 <= x < r@.len() ==> #[trigger] r@[x] < k,
        decreases n - k,
    {
        assert(all[k as int] == nodes@[k as int]@);
        if k > 0 && nodes[k].parent == j && nodes[k].key.is_none() {
            let ghost before = places(r@);
            r.push(k);
            assert(places(r@) =~= before.push(k as int));
        }
        k += 1;
    }
    r
}

/// The string that is called `key` in value `i`.
pub fn find_string(nodes: &Vec<TreeNode>, i: usize, key: &str) -> (r: Option<String>)
    ensures
        text::opt_text(r) == string_in(tree_views(nodes@), i as int, key@),
{
    match find_member(nodes, i, key) {
        Some(j) => {
            assert(tree_views(nodes@)[j as int] == nodes@[j as int]@);
            text::clone_opt(&nodes[j].string)
        },
        None => None,
    }
}

/// What is called `key` in value `i`, written compactly.
pub fn find_text(nodes: &Vec<TreeNode>, i: usize, key: &str) -> (r: String)
    ensures
        r@ == text_in(tree_views(nodes@), i as int, key@),
{
    match find_member(nodes, i, key) {
        Some(j) => {
            assert(tree_views(nodes@)[j as int] == nodes@[j as int]@);
            nodes[j].text.clone()
        },
        None => "null".to_owned(),
    }
}

// ---------------------------------------------------------------------------
// What holds of them
// ---------------------------------------------------------------------------
/// What a value holds under a key is the first value in the list that stands in it under that key;
/// it holds nothing under a key only where none does.
pub proof fn law_member(nodes: Seq<TreeNodeView>, i: int, key: Seq<char>, j: int)
    ensures
        member(nodes, i, key) == Some(j) <==> {
            &&& 0 < j < nodes.len()
            &&& nodes[j].parent == i && nodes[j].key == Some(key)
            &&& forall|k: int|
                0 < k < j ==> !((#[trigger] nodes[k]).parent == i && nodes[k].key == Some(key))
        },
        member(nodes, i, key) is None <==> forall|k: int|
            0 < k < nodes.len() ==> !((#[trigger] nodes[k]).parent == i && nodes[k].key == Some(
                key,
            )),
{
    let m = member(nodes, i, key);
    if m is Some {
        assert(is_member(nodes, i, key, m->0));
        assert(!(forall|k: int|
            0 < k < nodes.len() ==> !((#[trigger] nodes[k]).parent == i && nodes[k].key == Some(
                key,
            )))) by {
            assert(nodes[m->0].parent == i);
        }
    } else {
        assert forall|k: int| 0 < k < nodes.len() implies !((#[trigger] nodes[k]).parent == i
            && nodes[k].key == Some(key)) by {
            if nodes[k].parent == i && nodes[k].key == Some(key) {
                lemma_first_called(nodes, i, key, k);
            }
        }
    }
    let is = 0 < j < nodes.len() && nodes[j].parent == i && nodes[j].key == Some(key) && forall|
        k: int,
    |
        0 < k < j ==> !((#[trigger] nodes[k]).parent == i && nodes[k].key == Some(key));
    if m == Some(j) {
        assert forall|k: int| 0 < k < j implies !((#[trigger] nodes[k]).parent == i && nodes[k].key
            == Some(key)) by {
            assert(!is_called(nodes, i, key, k));
        }
    }
    if is {
        assert(is_member(nodes, i, key, j)) by {
            assert forall|k: int| 0 <= k < j implies !#[trigger] is_called(nodes, i, key, k) by {
                if k > 0 {
                    assert(!(nodes[k].parent == i && nodes[k].key == Some(key)));
                }
            }
        }
        let x = m->0;
        assert(is_member(nodes, i, key, x));
        if x < j {
            assert(!is_called(nodes, i, key, x));
        } else if j < x {
            assert(!is_called(nodes, i, key, j));
        }
    }
}

proof fn lemma_first_called(nodes: Seq<TreeNodeView>, i: int, key: Seq<char>, k: int)
    requires
        0 < k < nodes.len(),
        is_called(nodes, i, key, k),
    ensures
        exists|j: int| is_member(nodes, i, key, j),
    decreases k,
{
    if exists|x: int| 0 <= x < k && #[trigger] is_called(nodes, i, key, x) {
        let x = choose|x: int| 0 <= x < k && #[trigger] is_called(nodes, i, key, x);
        lemma_first_called(nodes, i, key, x);
    } else {
        assert(is_member(nodes, i, key, k));
    }
}

/// The elements of the list that a value holds under a key are all values that stand in that list
/// without a key, in their order; where it holds nothing under the key, there are none.
pub proof fn law_elements(nodes: Seq<TreeNodeView>, i: int, key: Seq<char>)
    ensures
        member(nodes, i, key) is None ==> elements(nodes, i, key).len() == 0,
        member(nodes, i, key) matches Some(j) ==> ({
            let e = elements(nodes, i, key);
            &&& forall|a: int, b: int| 0 <= a < b < e.len() ==> #[trigger] e[a] < #[trigger] e[b]
            &&& forall|x: int| #[trigger]
                e.contains(x) <==> 0 < x < nodes.len() && nodes[x].parent == j
                    && nodes[x].key is None
        }),
{
    if let Some(j) = member(nodes, i, key) {
        lemma_held_among(nodes, j, nodes.len());
    }
}

proof fn lemma_held_among(nodes: Seq<TreeNodeView>, j: int, n: nat)
    ensures
        ({
            let e = held_among(nodes, j, n);
            &&& forall|a: int, b: int| 0 <= a < b < e.len() ==> #[trigger] e[a] < #[trigger] e[b]
            &&& forall|x: int| #[trigger]
                e.contains(x) <==> 0 < x < n && nodes[x].parent == j && nodes[x].key is None
        }),
    decreases n,
{
    let e = held_among(nodes, j, n);
    if n > 0 {
        let b = held_among(nodes, j, (n - 1) as nat);
        lemma_held_among(nodes, j, (n - 1) as nat);
        if is_element(nodes, j, n - 1) {
            assert forall|x: int| #[trigger]
                e.contains(x) <==> 0 < x < n && nodes[x].parent == j && nodes[x].key is None by {
                if e.contains(x) {
                    let k = choose|k: int| 0 <= k < e.len() && e[k] == x;
                    if k < b.len() {
                        assert(b[k] == x);
                        assert(b.contains(x));
                    }
                }
                if b.contains(x) {
                    let k = choose|k: int| 0 <= k < b.len() && b[k] == x;
                    assert(e[k] == x);
                }
                if x == n - 1 {
                    assert(e[b.len() as int] == x);
                }
            }
            assert forall|a: int, c: int| 0 <= a < c < e.len() implies #[trigger] e[a]
                < #[trigger] e[c] by {
                if c == b.len() {
                    assert(b[a] == e[a]);
                    assert(b.contains(b[a]));
                } else {
                    assert(b[a] == e[a] && b[c] == e[c]);
                }
            }
        }
    }
}

/// The text of what a value holds under a key is that of the value found there, and the word `null`
/// where nothing is; a string is found only where the value there is one.
pub proof fn law_lookups(nodes: Seq<TreeNodeView>, i: int, key: Seq<char>)
    ensures
        match member(nodes, i, key) {
            Some(j) => text_in(nodes, i, key) == nodes[j].text && string_in(nodes, i, key)
                == nodes[j].string,
            None => text_in(nodes, i, key) == "null"@ && string_in(nodes, i, key) is None,
        },
{
}

/// The list of a document begins with the document itself, and holds the values within each value
/// that it lists one behind another, in their order, with their keys and with that value as the one
/// that they stand in.
pub proof fn law_all_listed<D: Document>(root: D, n: nat, p: int)
    requires
        is_all(root, n),
        0 <= p < listed(root, n).len(),
    ensures
        ({
            let v = listed(root, n);
            let held = v[p].value.held();
            &&& v[0] == (Listed { parent: 0, key: None, value: root })
            &&& exists|at: int|
                p < at && at + held.len() <= v.len() && (#[trigger] v.skip(at)).take(
                    held.len() as int,
                ) == held.map_values(
                    |x: (Option<Seq<char>>, D)| Listed { parent: p, key: x.0, value: x.1 },
                )
        }),
{
    lemma_listed_block(root, n, p);
}

proof fn lemma_listed_block<D: Document>(root: D, n: nat, p: int)
    requires
        0 <= p < n,
        p < listed(root, n).len(),
    ensures
        ({
            let v = listed(root, n);
            let held = v[p].value.held();
            &&& v[0] == (Listed { parent: 0, key: None, value: root })
            &&& exists|at: int|
                p < at && at + held.len() <= v.len() && (#[trigger] v.skip(at)).take(
                    held.len() as int,
                ) == held.map_values(
                    |x: (Option<Seq<char>>, D)| Listed { parent: p, key: x.0, value: x.1 },
                )
        }),
    decreases n,
{
    let before = listed(root, (n - 1) as nat);
    let v = listed(root, n);
    lemma_listed_first(root, (n - 1) as nat);
    if p == n - 1 {
        if p < before.len() {
            let held = before[p].value.held();
            assert(v == before + listed_in(held, n - 1));
            assert(v[p] == before[p]);
            let at = before.len() as int;
            assert(v.skip(at).take(held.len() as int) =~= held.map_values(
                |x: (Option<Seq<char>>, D)| Listed { parent: p, key: x.0, value: x.1 },
            ));
            assert(p < at && at + held.len() <= v.len());
        }
    } else {
        assert(p < before.len()) by {
            if p >= before.len() {
                assert(v == before);
            }
        }
        lemma_listed_block(root, (n - 1) as nat, p);
        let held = before[p].value.held();
        let at = choose|at: int|
            p < at && at + held.len() <= before.len() && (#[trigger] before.skip(at)).take(
                held.len() as int,
            ) == held.map_values(
                |x: (Option<Seq<char>>, D)| Listed { parent: p, key: x.0, value: x.1 },
            );
        assert(v[p] == before[p]);
        assert(v.skip(at).take(held.len() as int) =~= before.skip(at).take(held.len() as int));
        assert(p < at && at + held.len() <= v.len());
    }
}

proof fn lemma_listed_first<D: Document>(root: D, n: nat)
    ensures
        listed(root, n).len() > 0,
        listed(root, n)[0] == (Listed { parent: 0, key: None, value: root }),
    decreases n,
{
    if n > 0 {
        lemma_listed_first(root, (n - 1) as nat);
    }
}

/// Each line of the list tells of its value what it is.
pub proof fn law_nodes_tell<D: Document>(v: Seq<Listed<D>>, k: int)
    requires
        0 <= k < v.len(),
    ensures
        nodes_of(v).len() == v.len(),
        nodes_of(v)[k] == (TreeNodeView {
            parent: v[k].parent,
            key: v[k].key,
            text: v[k].value.leaf().text,
            string: v[k].value.leaf().string,
            boolean: v[k].value.leaf().boolean,
            number: v[k].value.leaf().number,
        }),
{
}

/// The values of a document are those of any list of it that is complete.
pub proof fn law_tree_of<D: Document>(root: D, n: nat)
    requires
        is_all(root, n),
    ensures
        tree_of(root) == nodes_of(listed(root, n)),
{
    let m = choose|m: nat| is_all(root, m);
    if m < n {
        lemma_all_listed(root, m, n);
    } else {
        lemma_all_listed(root, n, m);
    }
}

/// Contracts speak of a line of a list by all that it holds.
pub proof fn law_view(v: Seq<TreeNode>, i: int)
    ensures
        tree_views(v).len() == v.len(),
        0 <= i < v.len() ==> {
            let n = tree_views(v)[i];
            &&& n.parent == v[i].parent
            &&& match v[i].key {
                Some(s) => n.key == Some(s@),
                None => n.key is None,
            }
            &&& n.text == v[i].text@
            &&& match v[i].string {
                Some(s) => n.string == Some(s@),
                None => n.string is None,
            }
            &&& n.boolean == v[i].boolean
            &&& n.number == v[i].number
        },
{
}

} // verus!
