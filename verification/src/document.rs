use vstd::prelude::*;

verus! {

/// A generic configuration value: the nested payloads carried under an
/// object's `spec.config` and `spec.exports` fields.
///
/// The synchronizer never interprets these payloads; it only needs to carry
/// them and to tell whether one is present and whether it is map-like.
/// Scalars that are numeric in the wire format are carried by their literal
/// rendering, so that the payload stays a plain value.
#[derive(Debug, PartialEq)]
pub enum Document {
    Unit,
    Bool(bool),
    Number(String),
    Text(String),
    Sequence(Vec<Document>),
    Mapping(Vec<(String, Document)>),
}

impl Document {
    /// Whether the value is structurally map-like, the one distinction the
    /// synchronizer is allowed to draw from a payload.
    pub fn is_mapping(&self) -> (r: bool)
        ensures
            r == (self matches Document::Mapping(_)),
    {
        match self {
            Document::Mapping(_) => true,
            _ => false,
        }
    }
}

} // verus!
