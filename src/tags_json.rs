//! Tag lists travel as compact JSON objects. The encoding and decoding are
//! serde_json's; this module states what the rest of the crate relies on.
use vstd::prelude::*;
use crate::data::tags_view;

verus! {

#[verifier::external_type_specification]
#[verifier::external_body]
pub struct ExJsonError(serde_json::Error);

/// The bytes serde_json writes for a tag list, as an object keyed by tag.
pub uninterp spec fn tags_json(tags: Seq<(Seq<char>, Seq<char>)>) -> Seq<u8>;

/// The tag list serde_json reads back from bytes, if they hold a JSON object
/// of strings.
pub uninterp spec fn tags_from_json(bytes: Seq<u8>) -> Option<Seq<(Seq<char>, Seq<char>)>>;

/// Relies on serde_json::to_vec over a map of strings: the bytes depend on
/// the tag list alone, and it succeeds, since it fails only where a
/// `Serialize` impl fails or a map key is not a string.
#[verifier::external_body]
pub(crate) fn encode_tags(tags: &Vec<(String, String)>) -> (r: Result<Vec<u8>, serde_json::Error>)
    ensures
        r is Ok,
        r matches Ok(b) ==> b@ == tags_json(tags_view(tags@)),
{
    let m: std::collections::BTreeMap<&str, &str> = tags.iter().map(|t| (t.0.as_str(), t.1.as_str())).collect();
    serde_json::to_vec(&m)
}

/// Relies on serde_json::from_slice into a map of strings: success and the
/// pairs read depend on the bytes alone.
#[verifier::external_body]
pub(crate) fn decode_tags(bytes: &[u8]) -> (r: Result<Vec<(String, String)>, serde_json::Error>)
    ensures
        r is Ok <==> tags_from_json(bytes@) is Some,
        r matches Ok(t) ==> Some(tags_view(t@)) == tags_from_json(bytes@),
{
    match serde_json::from_slice::<std::collections::BTreeMap<String, String>>(bytes) {
        Ok(m) => Ok(m.into_iter().collect()),
        Err(e) => Err(e),
    }
}

} // verus!
