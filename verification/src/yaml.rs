//! The `yaml_edit` calls behind the frontmatter checks. A parsed document, its
//! root mapping and a value found in it are held together with the text (and
//! key) they were obtained from; only the calls in this module build them, so
//! each one's view is the input of the call that produced it.

use vstd::prelude::*;
use yaml_edit::{Document, Mapping, YamlNode};
use std::str::FromStr;

verus! {

#[verifier::external_type_specification]
#[verifier::external_body]
pub struct ExDocument(Document);

#[verifier::external_type_specification]
#[verifier::external_body]
pub struct ExMapping(Mapping);

#[verifier::external_type_specification]
#[verifier::external_body]
pub struct ExYamlNode(YamlNode);

/// The display text of the error `yaml_edit` reports for YAML text, or none when it parses.
pub uninterp spec fn yaml_parse_error(text: Seq<char>) -> Option<Seq<char>>;

/// Whether the document that `yaml_edit` parses from the text has a mapping at its root.
pub uninterp spec fn yaml_root_is_mapping(text: Seq<char>) -> bool;

/// Whether the root mapping of the parsed text has an entry for the key.
pub uninterp spec fn yaml_key_present(text: Seq<char>, key: Seq<char>) -> bool;

/// Whether the root mapping's value for the key is a scalar node.
pub uninterp spec fn yaml_key_is_scalar(text: Seq<char>, key: Seq<char>) -> bool;

/// A document parsed from YAML text, kept with that text; its view is the text.
pub struct YamlDocument {
    doc: Document,
    text: String,
}

impl View for YamlDocument {
    type V = Seq<char>;

    closed spec fn view(&self) -> Seq<char> {
        self.text@
    }
}

/// The root mapping of a parsed document, kept with the document's text; its view is that text.
pub struct YamlMapping {
    mapping: Mapping,
    text: String,
}

impl View for YamlMapping {
    type V = Seq<char>;

    closed spec fn view(&self) -> Seq<char> {
        self.text@
    }
}

/// The value a root mapping holds for a key, kept with the text and the key; its
/// view is the pair of them.
pub struct YamlValue {
    node: YamlNode,
    text: String,
    key: String,
}

impl View for YamlValue {
    type V = (Seq<char>, Seq<char>);

    closed spec fn view(&self) -> (Seq<char>, Seq<char>) {
        (self.text@, self.key@)
    }
}

/// `yaml_edit::Document::from_str`: the document, kept with the text it was
/// parsed from, or the display text of the parse error.
#[verifier::external_body]
pub(crate) fn yaml_document_from_str(text: &str) -> (r: Result<YamlDocument, String>)
    ensures
        r is Ok <==> yaml_parse_error(text@) is None,
        r matches Ok(d) ==> d@ == text@,
        r matches Err(m) ==> yaml_parse_error(text@) == Some(m@),
{
    match Document::from_str(text) {
        Ok(doc) => Ok(YamlDocument { doc, text: text.to_owned() }),
        Err(error) => Err(error.to_string()),
    }
}

/// `yaml_edit::Document::as_mapping`: the root mapping of the document, kept with
/// the document's text, when the root is a mapping.
#[verifier::external_body]
pub(crate) fn yaml_as_mapping(document: &YamlDocument) -> (r: Option<YamlMapping>)
    ensures
        r is Some <==> yaml_root_is_mapping(document@),
        r matches Some(m) ==> m@ == document@,
{
    match document.doc.as_mapping() {
        Some(mapping) => Some(YamlMapping { mapping, text: document.text.clone() }),
        None => None,
    }
}

/// `yaml_edit::Mapping::get`: the value the root mapping holds for the key, kept
/// with the text and the key, when there is one.
#[verifier::external_body]
pub(crate) fn yaml_mapping_get(mapping: &YamlMapping, key: &str) -> (r: Option<YamlValue>)
    ensures
        r is Some <==> yaml_key_present(mapping@, key@),
        r matches Some(v) ==> v@ == (mapping@, key@),
{
    match mapping.mapping.get(key) {
        Some(node) => Some(YamlValue { node, text: mapping.text.clone(), key: key.to_owned() }),
        None => None,
    }
}

/// `yaml_edit::YamlNode::as_scalar`: whether the value is a scalar node.
#[verifier::external_body]
pub(crate) fn yaml_node_is_scalar(value: &YamlValue) -> (r: bool)
    ensures
        r == yaml_key_is_scalar(value@.0, value@.1),
{
    value.node.as_scalar().is_some()
}

} // verus!
