use vstd::prelude::*;

use crate::document::Document;

verus! {

/// The identifying metadata of a declarative object: only its declared name.
#[derive(Debug, PartialEq)]
pub struct ObjectMeta {
    pub name: String,
}

/// An addressing expression into another object, opaque to the synchronizer
/// beyond its structure.
#[derive(Debug, PartialEq)]
pub struct ImportSpec {
    pub source_type: String,
    pub name: String,
    pub select: String,
}

/// Whether a name-keyed collection keeps each name once: the well-formedness
/// that decoding establishes for `imports` and `exports`.
pub open spec fn unique_names<T>(entries: Seq<(String, T)>) -> bool {
    forall|i: int, j: int| 0 <= i < j < entries.len() ==> entries[i].0@ != entries[j].0@
}

/// The desired-state part of a declarative object. Every field is optional in
/// the wire format; `imports` and `exports` are name-keyed collections, and a
/// well-formed value keeps each name once (`wf`).
#[derive(Debug, PartialEq)]
pub struct ComponentSpec {
    pub ctype: Option<String>,
    pub config: Option<Document>,
    pub imports: Option<Vec<(String, ImportSpec)>>,
    pub exports: Option<Vec<(String, Document)>>,
}

impl ComponentSpec {
    /// Well-formedness: each import and export name occurs once. Decoding
    /// yields well-formed values; the synchronizer itself never reads these
    /// collections and preserves them unchanged.
    pub open spec fn wf(&self) -> bool {
        &&& (self.imports matches Some(es) ==> unique_names(es@))
        &&& (self.exports matches Some(es) ==> unique_names(es@))
    }
}

/// A declarative object as decoded from one file: apiVersion, kind, metadata
/// and spec. Immutable once constructed; the synchronizer replaces whole
/// values, never edits them in place.
#[derive(Debug, PartialEq)]
pub struct Component {
    pub api_version: String,
    pub kind: String,
    pub metadata: ObjectMeta,
    pub spec: ComponentSpec,
}

impl Component {
    /// Well-formedness of a decoded object: its spec's name-keyed
    /// collections keep each name once.
    pub open spec fn wf(&self) -> bool {
        self.spec.wf()
    }
}

} // verus!
