//! The call into `serde_yaml`: reading a text as a YAML document and asking
//! whether it maps a key to a sequence.

use vstd::prelude::*;

verus! {

#[verifier::external_type_specification]
#[verifier::external_body]
pub struct ExYamlError(serde_yaml::Error);

/// Whether `serde_yaml` reads `content` as a YAML document.
pub uninterp spec fn yaml_accepts(content: Seq<char>) -> bool;

/// Whether the YAML document `content` is a mapping whose entry under `key`
/// is a sequence, as `serde_yaml::Value::get` and `Value::as_sequence` tell.
pub uninterp spec fn yaml_entry_is_sequence(content: Seq<char>, key: Seq<char>) -> bool;

/// Calls `serde_yaml::from_str` for a `serde_yaml::Value`, then
/// `Value::get(key)` and `Value::as_sequence` on it. Whether the parse
/// succeeds, and whether the entry is a sequence, depend on `content` and
/// `key` alone; both are named, not spelled out.
#[verifier::external_body]
pub(crate) fn yaml_entry_sequence(content: &str, key: &str) -> (r: Result<bool, serde_yaml::Error>)
    ensures
        r is Ok <==> yaml_accepts(content@),
        r matches Ok(b) ==> b == yaml_entry_is_sequence(content@, key@),
{
    match serde_yaml::from_str::<serde_yaml::Value>(content) {
        Ok(doc) => Ok(doc.get(key).and_then(serde_yaml::Value::as_sequence).is_some()),
        Err(e) => Err(e),
    }
}

} // verus!
