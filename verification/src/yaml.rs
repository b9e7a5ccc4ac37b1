//! Configuration files, which are YAML texts.

use crate::layers::{names_once, Doc, Key, Layer, Shape};
use vstd::prelude::*;

verus! {

/// A value of YAML, of the crate `serde_yaml`. Nothing is claimed of what is
/// inside.
#[verifier::external_type_specification]
#[verifier::external_body]
pub struct ExYamlValue(serde_yaml::Value);

/// The value that a YAML text stands for, or why it is none.
pub uninterp spec fn parsed_yaml(bytes: Seq<u8>) -> Result<serde_yaml::Value, Seq<char>>;

/// What a value of YAML holds, as far as merging looks into it.
pub uninterp spec fn value_doc(value: serde_yaml::Value) -> Doc<serde_yaml::Value>;

/// The document in a YAML text, or why there is none.
pub open spec fn yaml_doc(bytes: Seq<u8>) -> Result<Doc<serde_yaml::Value>, Seq<char>> {
    match parsed_yaml(bytes) {
        Ok(value) => Ok(value_doc(value)),
        Err(error) => Err(error),
    }
}

/// The value that a YAML text stands for.
///
/// Calls `from_slice` of the crate `serde_yaml`, and `to_string` of its error.
/// Claimed of it: the value, or the text of the error, is a function of the
/// bytes alone.
#[verifier::external_body]
fn yaml_value(bytes: &[u8]) -> (r: Result<serde_yaml::Value, String>)
    ensures
        match r {
            Ok(value) => parsed_yaml(bytes@) == Ok::<serde_yaml::Value, Seq<char>>(value),
            Err(error) => parsed_yaml(bytes@) == Err::<serde_yaml::Value, Seq<char>>(error@),
        },
{
    serde_yaml::from_slice(bytes).map_err(|e| e.to_string())
}

/// What a value of YAML holds: the entries of a mapping, level by level, and
/// anything else as a whole, with what `is_null` and `is_mapping` say of it. A
/// key that is a string is a name; of any other key the text is taken.
///
/// Tells the variants of `Value` of the crate `serde_yaml` apart and takes its
/// `Mapping` to pieces. Claimed of them: the result is a function of the value
/// alone, and no name occurs twice in a mapping, whose keys are distinct.
#[verifier::external_body]
fn layer_of(value: serde_yaml::Value) -> (r: Layer<serde_yaml::Value>)
    ensures
        r.doc() == value_doc(value),
        names_once(r.doc()),
{
    match value {
        serde_yaml::Value::Mapping(map) => Layer::Mapping(map.into_iter().map(|(key, value)| (match key {
            serde_yaml::Value::String(name) => Key::Name(name),
            other => Key::Other(serde_yaml::to_string(&other).unwrap_or_default()),
        }, layer_of(value))).collect()),
        whole => {
            let shape = Shape { null: whole.is_null(), mapping: whole.is_mapping() };
            Layer::Whole(whole, shape)
        },
    }
}

/// Parses a YAML text.
pub fn parse_yaml(bytes: &[u8]) -> (r: Result<Layer<serde_yaml::Value>, String>)
    ensures
        match r {
            Ok(layer) => yaml_doc(bytes@) == Ok::<Doc<serde_yaml::Value>, Seq<char>>(layer.doc()) && names_once(
                layer.doc(),
            ),
            Err(error) => yaml_doc(bytes@) == Err::<Doc<serde_yaml::Value>, Seq<char>>(error@),
        },
{
    match yaml_value(bytes) {
        Ok(value) => Ok(layer_of(value)),
        Err(error) => Err(error),
    }
}

} // verus!
