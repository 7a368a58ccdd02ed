//! YAML values, read through `serde_yaml`.
//!
//! The YAML parser is `serde_yaml`'s; a parsed `serde_yaml::Value` is opaque
//! here and is read through a few accessors whose contracts speak of
//! [`YamlTree`], the contents of a value as plain data.
use vstd::prelude::*;

verus! {

#[verifier::external_type_specification]
#[verifier::external_body]
pub struct ExYamlValue(serde_yaml::Value);

/// The contents of a YAML value. Tags are removed from values; a mapping
/// key keeps its tags, at every depth, as [`YamlTree::Tagged`], because a
/// tagged key is a different key from the same key untagged.
///
/// A number is held as the text it is read back as: the decimal digits of a
/// non-negative integer, otherwise the shortest decimal form of its `f64`
/// value (as `f64::to_string` writes it); the flag is `true` exactly for
/// `serde_yaml`'s unsigned integers.
pub enum YamlTree {
    Null,
    Bool(bool),
    Number(Seq<char>, bool),
    Str(Seq<char>),
    Sequence(Seq<YamlTree>),
    Mapping(Seq<(YamlTree, YamlTree)>),
    Tagged(Seq<char>, Box<YamlTree>),
}

/// The contents of a `serde_yaml::Value`.
pub uninterp spec fn yaml_tree_of(v: serde_yaml::Value) -> YamlTree;

/// The result of parsing YAML text: the document's contents, or `None`
/// when `serde_yaml` rejects the text.
pub uninterp spec fn yaml_parse(text: Seq<char>) -> Option<YamlTree>;

/// The message of `serde_yaml`'s error for text it rejects.
pub uninterp spec fn yaml_error_message(text: Seq<char>) -> Seq<char>;

/// Value of the entry of `entries` whose key is `key` (the first; a
/// mapping holds each key once).
pub open spec fn entries_lookup(entries: Seq<(YamlTree, YamlTree)>, key: YamlTree) -> Option<YamlTree>
    decreases entries.len(),
{
    if entries.len() == 0 {
        None
    } else if entries[0].0 == key {
        Some(entries[0].1)
    } else {
        entries_lookup(entries.drop_first(), key)
    }
}

/// Look up a string key in a mapping: only an untagged string key matches
/// (`None` for anything but a mapping).
pub open spec fn tree_get(t: YamlTree, key: Seq<char>) -> Option<YamlTree> {
    match t {
        YamlTree::Mapping(entries) => entries_lookup(entries, YamlTree::Str(key)),
        _ => None,
    }
}

/// Look up a whole number: element `i` of a sequence (`None` out of range),
/// or the value under the untagged unsigned-integer key `i` of a mapping
/// (`None` for anything else).
pub open spec fn tree_index(t: YamlTree, i: int) -> Option<YamlTree> {
    match t {
        YamlTree::Sequence(items) => if 0 <= i < items.len() {
            Some(items[i])
        } else {
            None
        },
        YamlTree::Mapping(entries) => if i >= 0 {
            entries_lookup(entries, YamlTree::Number(crate::text::decimal(i as nat), true))
        } else {
            None
        },
        _ => None,
    }
}

/// The shape of a YAML value, with scalars in full.
pub enum YamlScalar {
    Null,
    Bool(bool),
    Number(String),
    Str(String),
    Sequence(usize),
    Mapping,
}

/// `s` describes the value `t`.
pub open spec fn scalar_describes(s: YamlScalar, t: YamlTree) -> bool {
    match (s, t) {
        (YamlScalar::Null, YamlTree::Null) => true,
        (YamlScalar::Bool(a), YamlTree::Bool(b)) => a == b,
        (YamlScalar::Number(a), YamlTree::Number(b, _)) => a@ == b,
        (YamlScalar::Str(a), YamlTree::Str(b)) => a@ == b,
        (YamlScalar::Sequence(n), YamlTree::Sequence(items)) => n == items.len(),
        (YamlScalar::Mapping, YamlTree::Mapping(_)) => true,
        _ => false,
    }
}

/// Parse YAML text with `serde_yaml::from_str` into a `serde_yaml::Value`.
/// Claimed: the result is `Ok` exactly when [`yaml_parse`] gives a tree, and
/// then the value holds that tree; an error carries `serde_yaml`'s message.
#[verifier::external_body]
pub(crate) fn yaml_load(text: &str) -> (r: Result<serde_yaml::Value, String>)
    ensures
        r is Ok <==> yaml_parse(text@) is Some,
        r matches Ok(v) ==> yaml_parse(text@) == Some(yaml_tree_of(v)),
        r matches Err(m) ==> m@ == yaml_error_message(text@),
{
    serde_yaml::from_str::<serde_yaml::Value>(text).map_err(|e| e.to_string())
}

/// `serde_yaml::Value::get` with a string key: the value stored under the
/// untagged string key `key` when `v` is a mapping that has it.
#[verifier::external_body]
pub(crate) fn yaml_get<'a>(v: &'a serde_yaml::Value, key: &str) -> (r: Option<&'a serde_yaml::Value>)
    ensures
        match r {
            Some(x) => tree_get(yaml_tree_of(*v), key@) == Some(yaml_tree_of(*x)),
            None => tree_get(yaml_tree_of(*v), key@) is None,
        },
{
    v.get(key)
}

/// `serde_yaml::Value::get` with an index: element `i` of a sequence, or
/// the value under the unsigned-integer key `i` of a mapping.
#[verifier::external_body]
pub(crate) fn yaml_index<'a>(v: &'a serde_yaml::Value, i: usize) -> (r: Option<&'a serde_yaml::Value>)
    ensures
        match r {
            Some(x) => tree_index(yaml_tree_of(*v), i as int) == Some(yaml_tree_of(*x)),
            None => tree_index(yaml_tree_of(*v), i as int) is None,
        },
{
    v.get(i)
}

/// What kind of value `v` is, telling `serde_yaml::Value`'s variants apart
/// with its `as_str`, `as_bool`, `as_u64`, `as_f64`, `as_sequence` and
/// `as_mapping` accessors; numbers are rendered as [`YamlTree::Number`] says.
#[verifier::external_body]
pub(crate) fn yaml_scalar(v: &serde_yaml::Value) -> (r: YamlScalar)
    ensures
        scalar_describes(r, yaml_tree_of(*v)),
{
    if let Some(s) = v.as_str() {
        YamlScalar::Str(s.to_string())
    } else if let Some(b) = v.as_bool() {
        YamlScalar::Bool(b)
    } else if let Some(n) = v.as_u64() {
        YamlScalar::Number(n.to_string())
    } else if let Some(f) = v.as_f64() {
        YamlScalar::Number(f.to_string())
    } else if let Some(items) = v.as_sequence() {
        YamlScalar::Sequence(items.len())
    } else if v.as_mapping().is_some() {
        YamlScalar::Mapping
    } else {
        YamlScalar::Null
    }
}

} // verus!
