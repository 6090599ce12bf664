//! Reading JSON.

use crate::text;
use crate::tree;
use crate::tree::{Leaf, TreeNode};
use serde_json::Value;
use vstd::prelude::*;

verus! {

/// A JSON document of `serde_json`.
#[verifier::external_type_specification]
#[verifier::external_body]
pub struct ExValue(serde_json::Value);

/// What a JSON value holds directly: the elements of an array, or the members of an object with
/// their names.
pub uninterp spec fn json_held(v: serde_json::Value) -> Seq<(Option<Seq<char>>, serde_json::Value)>;

/// A JSON value, written compactly.
pub uninterp spec fn json_text(v: serde_json::Value) -> Seq<char>;

/// The characters of a string.
pub uninterp spec fn json_string(v: serde_json::Value) -> Option<Seq<char>>;

/// The value of a truth value.
pub uninterp spec fn json_boolean(v: serde_json::Value) -> Option<bool>;

/// The value of a whole number that is not negative.
pub uninterp spec fn json_number(v: serde_json::Value) -> Option<u64>;

/// The values in the JSON document that these bytes are, or why they are none.
pub uninterp spec fn json_tree(data: Seq<u8>) -> std::result::Result<
    Seq<tree::TreeNodeView>,
    Seq<char>,
>;

/// `Value::as_str` of serde_json: the characters of a string, named `json_string`.
pub assume_specification[ serde_json::Value::as_str ](v: &serde_json::Value) -> (r: Option<&str>)
    ensures
        text::opt_str(r) == json_string(*v),
;

/// `Value::as_bool` of serde_json: the value of a truth value, named `json_boolean`.
pub assume_specification[ serde_json::Value::as_bool ](v: &serde_json::Value) -> (r: Option<bool>)
    ensures
        r == json_boolean(*v),
;

/// `Value::as_u64` of serde_json: the value of a whole number that is not negative, named
/// `json_number`.
pub assume_specification[ serde_json::Value::as_u64 ](v: &serde_json::Value) -> (r: Option<u64>)
    ensures
        r == json_number(*v),
;

/// `Value::to_string` of serde_json: the value, written compactly, named `json_text`.
#[verifier::external_body]
fn write_compactly(v: &Value) -> (r: String)
    ensures
        r@ == json_text(*v),
{
    v.to_string()
}

/// The elements of an array of serde_json in their order, or the members of an object as its `iter`
/// gives them: what the value holds, named `json_held`. Other values hold none.
#[verifier::external_body]
fn list_members(v: &Value) -> (r: Vec<(Option<String>, &Value)>)
    ensures
        tree::held_views(r@) == json_held(*v),
{
    match v {
        Value::Array(a) => a.iter().map(|x| (None, x)).collect(),
        Value::Object(o) => o.iter().map(|(k, x)| (Some(k.clone()), x)).collect(),
        _ => Vec::new(),
    }
}

impl tree::Document for serde_json::Value {
    open spec fn held(&self) -> Seq<(Option<Seq<char>>, serde_json::Value)> {
        json_held(*self)
    }

    open spec fn leaf(&self) -> tree::LeafView {
        tree::LeafView {
            text: json_text(*self),
            string: json_string(*self),
            boolean: json_boolean(*self),
            number: json_number(*self),
        }
    }

    fn list_held(&self) -> (r: Vec<(Option<String>, &serde_json::Value)>) {
        list_members(self)
    }

    fn to_leaf(&self) -> (r: Leaf) {
        Leaf {
            text: write_compactly(self),
            string: text::own_opt(self.as_str()),
            boolean: self.as_bool(),
            number: self.as_u64(),
        }
    }
}

/// `serde_json::from_slice` into a `Value`: the values in it are a function of the bytes, named
/// `json_tree`. An error is given in words.
#[verifier::external_body]
fn parse_json(data: &[u8]) -> (r: std::result::Result<Value, String>)
    ensures
        match r {
            Ok(v) => json_tree(data@) == Ok::<_, Seq<char>>(tree::tree_of(v)),
            Err(e) => json_tree(data@) == Err::<Seq<tree::TreeNodeView>, _>(e@),
        },
{
    serde_json::from_slice(data).map_err(|e| e.to_string())
}

/// The values in the JSON document that these bytes are.
pub fn read_json(data: &[u8]) -> (r: std::result::Result<Vec<TreeNode>, String>)
    ensures
        match r {
            Ok(v) => {
                &&& json_tree(data@) == Ok::<_, Seq<char>>(tree::tree_views(v@))
                &&& tree::is_tree(tree::tree_views(v@))
            },
            Err(e) => json_tree(data@) == Err::<Seq<tree::TreeNodeView>, _>(e@),
        },
{
    match parse_json(data) {
        Ok(v) => Ok(tree::list_values(&v)),
        Err(e) => Err(e),
    }
}

} // verus!
