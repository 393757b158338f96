//! The TOML documents of the data section, read with the `toml` crate.
use vstd::prelude::*;
use toml::Value as TomlValue;

verus! {

/// A declaration of the value type of the `toml` crate.
#[verifier::external_type_specification]
#[verifier::external_body]
pub struct ExTomlValue(TomlValue);

/// The message of the error `toml::from_str` gives for a text, or `None`
/// where the text is a TOML document.
pub uninterp spec fn toml_parse_error(text: Seq<char>) -> Option<Seq<char>>;

/// The document `toml::from_str` reads from a text that is a TOML document.
pub uninterp spec fn toml_document(text: Seq<char>) -> TomlValue;

/// `toml::from_str` into a `toml::Value`: the document, or the message of
/// its error. Both depend on the text alone.
#[verifier::external_body]
pub(crate) fn toml_from_str(text: &str) -> (r: Result<TomlValue, String>)
    ensures
        match r {
            Ok(v) => toml_parse_error(text@) is None && v == toml_document(text@),
            Err(m) => toml_parse_error(text@) == Some(m@),
        },
{
    match toml::from_str::<TomlValue>(text) {
        Ok(v) => Ok(v),
        Err(e) => Err(e.to_string()),
    }
}

/// An empty TOML table (`toml::Value::Table(toml::map::Map::new())`).
#[verifier::external_body]
pub(crate) fn empty_toml_table() -> TomlValue {
    TomlValue::Table(toml::map::Map::new())
}

} // verus!
