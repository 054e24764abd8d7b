//! A package of the graph, as the path search sees it.

use crate::manifest::Span;
use vstd::prelude::*;
use vstd::std_specs::cmp::PartialEqSpecImpl;

verus! {

/// A package of the graph together with the span of its declaration in the
/// manifest. The span is `None` for a package that is present only
/// transitively. Two packages are the same when their identities agree.
#[derive(Debug, Clone, Copy)]
pub struct Package {
    pub id: usize,
    pub span_in_manifest: Option<Span>,
}

impl Package {
    pub fn new(id: usize, span_in_manifest: Option<Span>) -> (package: Package)
        ensures
            package.id == id,
            package.span_in_manifest == span_in_manifest,
    {
        Package { id, span_in_manifest }
    }

    /// The user wrote this package into the manifest.
    pub open spec fn declared(&self) -> bool {
        self.span_in_manifest is Some
    }

    /// Whether the user wrote this package into the manifest.
    pub fn is_declared(&self) -> (declared: bool)
        ensures
            declared == self.declared(),
    {
        self.span_in_manifest.is_some()
    }
}

impl PartialEq for Package {
    fn eq(&self, other: &Package) -> (equal: bool) {
        self.id == other.id
    }
}

impl Eq for Package {

}

impl PartialEqSpecImpl for Package {
    open spec fn obeys_eq_spec() -> bool {
        true
    }

    open spec fn eq_spec(&self, other: &Package) -> bool {
        self.id == other.id
    }
}

} // verus!
