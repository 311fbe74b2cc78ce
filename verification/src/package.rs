//! Packages, declared dependencies, and resolved identities.

use vstd::prelude::*;
use crate::source_id::SourceId;

verus! {

/// A constraint on the version of a dependency.
#[derive(Clone, Copy, PartialEq, Eq, Structural, Debug)]
pub enum VersionReq {
    /// Any version is acceptable.
    Any,
    /// Exactly this version.
    Exact(u64),
    /// This version or any later one.
    AtLeast(u64),
}

impl VersionReq {
    /// Whether version `v` satisfies this constraint.
    pub open spec fn spec_matches(self, v: u64) -> bool {
        match self {
            VersionReq::Any => true,
            VersionReq::Exact(w) => v == w,
            VersionReq::AtLeast(w) => v >= w,
        }
    }

    /// Executable constraint check.
    pub fn matches(&self, v: u64) -> (r: bool)
        ensures
            r == self.spec_matches(v),
    {
        match *self {
            VersionReq::Any => true,
            VersionReq::Exact(w) => v == w,
            VersionReq::AtLeast(w) => v >= w,
        }
    }
}

/// A dependency declared by a package manifest: a package name, a version
/// constraint, and the source the dependency should come from.  Immutable.
#[derive(Debug)]
pub struct Dependency {
    pub name: String,
    pub req: VersionReq,
    pub source: SourceId,
}

impl Clone for Dependency {
    fn clone(&self) -> (r: Dependency)
        ensures
            r == *self,
    {
        Dependency { name: self.name.clone(), req: self.req, source: self.source.clone() }
    }
}

/// A concrete (name, version, source) chosen by the resolver to satisfy one
/// or more dependencies.
#[derive(Debug)]
pub struct ResolvedId {
    pub name: String,
    pub version: u64,
    pub source: SourceId,
}

impl Clone for ResolvedId {
    fn clone(&self) -> (r: ResolvedId)
        ensures
            r == *self,
    {
        ResolvedId { name: self.name.clone(), version: self.version, source: self.source.clone() }
    }
}

/// A concrete package: its manifest identity, its ordered dependency list,
/// and the source it came from.  Read-only after construction.
#[derive(Debug)]
pub struct Package {
    pub name: String,
    pub version: u64,
    pub dependencies: Vec<Dependency>,
    pub source_id: SourceId,
}

/// Clones a dependency list element for element.
pub fn clone_dependencies(deps: &Vec<Dependency>) -> (r: Vec<Dependency>)
    ensures
        r@ == deps@,
{
    let mut r: Vec<Dependency> = Vec::new();
    let mut i: usize = 0;
    while i < deps.len()
        invariant
            0 <= i <= deps.len(),
            r@ == deps@.subrange(0, i as int),
        decreases deps.len() - i,
    {
        r.push(deps[i].clone());
        assert(r@ =~= deps@.subrange(0, i + 1 as int));
        i += 1;
    }
    assert(r@ =~= deps@);
    r
}

impl Clone for Package {
    fn clone(&self) -> (r: Package)
        ensures
            r.name == self.name,
            r.version == self.version,
            r.dependencies@ == self.dependencies@,
            r.source_id == self.source_id,
    {
        Package {
            name: self.name.clone(),
            version: self.version,
            dependencies: clone_dependencies(&self.dependencies),
            source_id: self.source_id.clone(),
        }
    }
}

impl Package {
    /// The package's ordered dependency list.
    pub fn get_dependencies(&self) -> (r: &Vec<Dependency>)
        ensures
            r == &self.dependencies,
    {
        &self.dependencies
    }

    /// The source ids applicable to this package: its own origin followed
    /// by the source of each declared dependency, in declaration order and
    /// without deduplication.
    pub fn get_source_ids(&self) -> (r: Vec<SourceId>)
        ensures
            r@.len() == 1 + self.dependencies@.len(),
            r@[0] == self.source_id,
            forall|i: int| 0 <= i < self.dependencies@.len()
                ==> r@[i + 1] == self.dependencies@[i].source,
    {
        let mut r: Vec<SourceId> = Vec::new();
        r.push(self.source_id.clone());
        let mut i: usize = 0;
        while i < self.dependencies.len()
            invariant
                0 <= i <= self.dependencies.len(),
                r@.len() == 1 + i,
                r@[0] == self.source_id,
                forall|j: int| 0 <= j < i ==> r@[j + 1] == self.dependencies@[j].source,
            decreases self.dependencies.len() - i,
        {
            r.push(self.dependencies[i].source.clone());
            i += 1;
        }
        r
    }
}

/// Whether some resolved id in `ids` satisfies dependency `d`: same package
/// name and a version matching the constraint.
pub open spec fn dep_satisfied(d: Dependency, ids: Seq<ResolvedId>) -> bool {
    exists|i: int| 0 <= i < ids.len()
        && ids[i].name@ == d.name@
        && d.req.spec_matches(ids[i].version)
}

/// Whether the names of `ids` are pairwise distinct.
pub open spec fn names_unique(ids: Seq<ResolvedId>) -> bool {
    forall|i: int, j: int| 0 <= i < j < ids.len() ==> ids[i].name@ != ids[j].name@
}

} // verus!
