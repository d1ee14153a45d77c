//! The mapping builder's per-descriptor step: the text of one descriptor
//! file is parsed as YAML, the string under its `guid` key is read, the
//! canonical identifier it spells is extracted, and a mapping entry pairing
//! it with a freshly drawn identifier is produced. Every malformed
//! descriptor yields no entry and nothing else.

use vstd::prelude::*;

use crate::ident::{
    bytes_of_digits, canonical_digits, compact_of_bytes, is_canonical, parse_canonical, to_compact,
    MappingEntry,
};

verus! {

#[verifier::external_type_specification]
#[verifier::external_body]
pub struct ExYaml(yaml_rust::Yaml);

/// What YAML parsing yields for a given text: the sequence of top-level
/// documents, or none when the text is not well-formed YAML.
pub uninterp spec fn yaml_documents(s: Seq<char>) -> Option<Seq<yaml_rust::Yaml>>;

/// What a parsed document holds at a top-level key: the bytes of the string
/// there when the document is a hash whose value at the key is a string,
/// and none otherwise.
pub uninterp spec fn yaml_string_entry(d: yaml_rust::Yaml, key: Seq<char>) -> Option<Seq<u8>>;

/// Relies on yaml_rust::YamlLoader::load_from_str: the parse result is a
/// function of the text alone, one Yaml value per document in the text.
#[verifier::external_body]
fn load_documents(text: &str) -> (r: Option<Vec<yaml_rust::Yaml>>)
    ensures
        r is Some <==> yaml_documents(text@) is Some,
        r matches Some(v) ==> yaml_documents(text@) matches Some(d) && v@ == d,
{
    yaml_rust::YamlLoader::load_from_str(text).ok()
}

/// Relies on the yaml_rust::Yaml::Hash variant holding its entries in a
/// linked_hash_map::LinkedHashMap, and on LinkedHashMap::get: the value
/// found is a function of the document and the key alone.
#[verifier::external_body]
fn string_entry(doc: &yaml_rust::Yaml, key: &str) -> (r: Option<Vec<u8>>)
    ensures
        r is Some <==> yaml_string_entry(*doc, key@) is Some,
        r matches Some(g) ==> yaml_string_entry(*doc, key@) matches Some(e) && g@ == e,
{
    match doc {
        yaml_rust::Yaml::Hash(h) => match h.get(&yaml_rust::Yaml::String(key.to_string())) {
            Some(yaml_rust::Yaml::String(s)) => Some(s.clone().into_bytes()),
            _ => None,
        },
        _ => None,
    }
}

/// Relies on uuid::Uuid::new_v4 and Uuid::into_bytes: a freshly drawn
/// version-4 identifier is 16 bytes. The value is random, so nothing is
/// promised of it beyond its length.
#[verifier::external_body]
fn fresh_identifier_bytes() -> (r: Vec<u8>)
    ensures
        r@.len() == 16,
{
    uuid::Uuid::new_v4().into_bytes().to_vec()
}

/// The string a descriptor text declares under `key`: the text must parse
/// as exactly one YAML document, a hash with a string value at the key.
pub open spec fn spec_descriptor_string(s: Seq<char>, key: Seq<char>) -> Option<Seq<u8>> {
    match yaml_documents(s) {
        Some(docs) => if docs.len() == 1 {
            yaml_string_entry(docs[0], key)
        } else {
            None
        },
        None => None,
    }
}

/// Reads the string under the top-level `guid` key of a descriptor text.
/// Returns it exactly when the text is one YAML document carrying one;
/// multiple documents, malformed text, a non-hash document, a missing key
/// and a non-string value all yield none.
pub fn descriptor_guid(text: &str) -> (r: Option<Vec<u8>>)
    ensures
        r is Some <==> spec_descriptor_string(text@, "guid"@) is Some,
        r matches Some(g) ==> spec_descriptor_string(text@, "guid"@) matches Some(e) && g@ == e,
{
    let docs = match load_documents(text) {
        Some(d) => d,
        None => {
            return None;
        },
    };
    if docs.len() != 1 {
        return None;
    }
    let mut docs = docs;
    let doc = docs.remove(0);
    string_entry(&doc, "guid")
}

/// The mapping builder's work on one descriptor text: an entry pairing the
/// declared identifier, rendered compactly, with a fresh replacement. An
/// entry comes back exactly when the text declares a string under `guid`
/// that spells a canonical identifier; the entry is then well formed, its
/// two spellings 32 characters each.
pub fn build_entry(text: &str) -> (r: Option<MappingEntry>)
    ensures
        r is Some <==> (spec_descriptor_string(text@, "guid"@) matches Some(g)
            && is_canonical(g)),
        r matches Some(e) ==> e.wf() && e.old_id@.len() == 32 && e.new_id@.len() == 32,
        r matches Some(e) ==> spec_descriptor_string(text@, "guid"@) matches Some(g)
            && e.old_id@ == compact_of_bytes(bytes_of_digits(canonical_digits(g))),
{
    let guid = match descriptor_guid(text) {
        Some(g) => g,
        None => {
            return None;
        },
    };
    let bytes = match parse_canonical(&guid) {
        Some(b) => b,
        None => {
            return None;
        },
    };
    let old_id = to_compact(&bytes);
    let fresh = fresh_identifier_bytes();
    let new_id = to_compact(&fresh);
    Some(MappingEntry { old_id, new_id })
}

} // verus!
