use vstd::prelude::*;
use crate::io::yaml::YamlValue;

verus! {

/// The document type of `serde_yaml`. The library reads it only by moving it into its
/// own model, `YamlValue`.
#[verifier::external_type_specification]
#[verifier::external_body]
pub struct ExYamlDocument(serde_yaml::Value);

/// What `serde_yaml::from_str` makes of the text `text`, moved into this library's
/// model of a document: the document, or the text of the error.
pub uninterp spec fn yaml_document(text: Seq<char>) -> Result<YamlValue, Seq<char>>;

/// Moves a `serde_yaml` document into this library's model, variant by variant: a tag
/// is dropped for the value it tags (but for a mapping's key, see `from_key`), and a number is kept as the text that
/// `serde_yaml` writes for it. Nothing is stated of the result, since Verus does not
/// see inside a `serde_yaml::Value`.
#[verifier::external_body]
fn from_document(value: serde_yaml::Value) -> YamlValue {
    match value {
        serde_yaml::Value::Null => YamlValue::Null,
        serde_yaml::Value::Bool(b) => YamlValue::Bool(b),
        serde_yaml::Value::Number(n) => YamlValue::Number(n.to_string()),
        serde_yaml::Value::String(s) => YamlValue::Text(s),
        serde_yaml::Value::Sequence(items) => YamlValue::Sequence(items.into_iter().map(from_document).collect()),
        serde_yaml::Value::Mapping(entries) => {
            YamlValue::Mapping(entries.into_iter().map(|(k, v)| (from_key(k), from_document(v))).collect())
        },
        serde_yaml::Value::Tagged(tagged) => from_document(tagged.value),
    }
}

/// Moves the key of a `serde_yaml` mapping into this library's model as
/// `from_document` does, but keeps the mark of a tag: a tagged key becomes a
/// `TaggedKey` around its value. Nothing is stated of the result.
#[verifier::external_body]
fn from_key(key: serde_yaml::Value) -> YamlValue {
    match key {
        serde_yaml::Value::Tagged(tagged) => YamlValue::TaggedKey(Box::new(from_document(tagged.value))),
        other => from_document(other),
    }
}

/// Calls `serde_yaml::from_str` to read `text` as a YAML document, and moves the
/// document into this library's model. The contract claims only that the outcome is a
/// function of the text, named `yaml_document`: what a YAML parser makes of a text is
/// not stated.
#[verifier::external_body]
pub(crate) fn parse_document(text: &str) -> (r: Result<YamlValue, String>)
    ensures
        match r {
            Ok(d) => yaml_document(text@) == Ok::<YamlValue, Seq<char>>(d),
            Err(e) => yaml_document(text@) == Err::<YamlValue, Seq<char>>(e@),
        },
{
    match serde_yaml::from_str::<serde_yaml::Value>(text) {
        Ok(value) => Ok(from_document(value)),
        Err(error) => Err(error.to_string()),
    }
}

} // verus!
