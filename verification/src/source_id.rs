//! Identity of a package's origin.

use vstd::prelude::*;

verus! {

/// The kind of origin a package comes from.
#[derive(Clone, Copy, PartialEq, Eq, Structural, Debug)]
pub enum SourceKind {
    /// A local filesystem path.
    Path,
    /// A remote registry coordinate.
    Registry,
    /// A version-control reference.
    Vcs,
}

/// Identifies a package origin: a kind together with a location string.
/// Equality is by (kind, location); a `SourceId` never changes once created.
#[derive(Debug)]
pub struct SourceId {
    pub kind: SourceKind,
    pub location: String,
}

impl SourceId {
    /// The mathematical identity of this source: its kind and the
    /// characters of its location.
    pub open spec fn spec_id(&self) -> (SourceKind, Seq<char>) {
        (self.kind, self.location@)
    }

    /// Builds the path-kind source id for a local directory.
    pub fn for_path(path: &str) -> (r: SourceId)
        ensures
            r.kind == SourceKind::Path,
            r.location@ == path@,
    {
        SourceId { kind: SourceKind::Path, location: path.to_owned() }
    }
}

impl Clone for SourceId {
    fn clone(&self) -> (r: SourceId)
        ensures
            r == *self,
    {
        SourceId { kind: self.kind, location: self.location.clone() }
    }
}

impl PartialEq for SourceId {
    fn eq(&self, other: &SourceId) -> (r: bool) {
        self.kind == other.kind && self.location == other.location
    }
}

impl vstd::std_specs::cmp::PartialEqSpecImpl for SourceId {
    open spec fn obeys_eq_spec() -> bool {
        true
    }

    open spec fn eq_spec(&self, other: &SourceId) -> bool {
        self.kind == other.kind && self.location@ == other.location@
    }
}

/// Whether the sequence `ids` contains a source with the same identity as `s`.
pub open spec fn contains_source(ids: Seq<SourceId>, s: SourceId) -> bool {
    exists|i: int| 0 <= i < ids.len() && ids[i].spec_id() == s.spec_id()
}

/// Linear membership test against a list of source ids.
pub fn source_in_list(ids: &Vec<SourceId>, s: &SourceId) -> (r: bool)
    ensures
        r == contains_source(ids@, *s),
{
    let mut i: usize = 0;
    while i < ids.len()
        invariant
            0 <= i <= ids.len(),
            forall|j: int| 0 <= j < i ==> ids@[j].spec_id() != s.spec_id(),
        decreases ids.len() - i,
    {
        if ids[i].kind == s.kind && ids[i].location == s.location {
            assert(ids@[i as int].spec_id() == s.spec_id());
            return true;
        }
        i += 1;
    }
    false
}

} // verus!
