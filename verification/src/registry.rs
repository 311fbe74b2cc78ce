//! The package registry: the lookup authority over package sources.
//!
//! The registry aggregates the base source ids (declared by the root
//! package) and the override source ids (locally configured paths) into a
//! catalog of available packages, and turns resolved ids into concrete
//! packages.  Listing a source is an external affair: the available
//! packages are handed in as plain values via [`PackageRegistry::publish`],
//! and failures surface only when a package is actually looked up.

use vstd::prelude::*;
use crate::errors::CargoError;
use crate::package::{Package, ResolvedId};
use crate::source_id::{contains_source, SourceId};

verus! {

/// Aggregates known sources and their available packages.
pub struct PackageRegistry {
    /// Sources declared by the root package.
    pub base: Vec<SourceId>,
    /// Locally configured override sources; consulted before `base`.
    pub overrides: Vec<SourceId>,
    /// Every package the known sources offer, in publication order.
    pub catalog: Vec<Package>,
}

/// Whether package `p` can stand for resolved id `id`: same name, same
/// version, same source identity.
pub open spec fn matches_id(p: Package, id: ResolvedId) -> bool {
    p.name@ == id.name@ && p.version == id.version && p.source_id.spec_id()
        == id.source.spec_id()
}

/// Whether `p` and `q` carry the same package data.
pub open spec fn pkg_equiv(p: Package, q: Package) -> bool {
    p.name@ == q.name@ && p.version == q.version && p.dependencies@ == q.dependencies@
        && p.source_id.spec_id() == q.source_id.spec_id()
}

impl PackageRegistry {
    /// Whether the catalog offers `name` from an override source.
    pub open spec fn has_override_candidate(self, name: Seq<char>) -> bool {
        exists|k: int|
            0 <= k < self.catalog@.len() && (#[trigger] self.catalog@[k]).name@ == name
                && contains_source(self.overrides@, self.catalog@[k].source_id)
    }

    /// Whether catalog entry `p` is a candidate for `name`.  Override
    /// sources supersede base sources: as soon as any override source
    /// offers the name, only override-sourced entries are candidates.
    pub open spec fn is_candidate(self, name: Seq<char>, p: Package) -> bool {
        p.name@ == name && if self.has_override_candidate(name) {
            contains_source(self.overrides@, p.source_id)
        } else {
            contains_source(self.base@, p.source_id)
        }
    }

    /// Whether `p` carries the data of some catalog entry.
    pub open spec fn from_catalog(self, p: Package) -> bool {
        exists|k: int| 0 <= k < self.catalog@.len() && pkg_equiv(#[trigger] self.catalog@[k], p)
    }

    /// Whether some catalog entry can stand for `id`.
    pub open spec fn id_available(self, id: ResolvedId) -> bool {
        exists|k: int| 0 <= k < self.catalog@.len() && matches_id(#[trigger] self.catalog@[k], id)
    }

    /// Builds a registry over the given base and override sources.  The
    /// construction itself never fails; the catalog starts empty.
    pub fn new(base: Vec<SourceId>, overrides: Vec<SourceId>) -> (r: PackageRegistry)
        ensures
            r.base == base,
            r.overrides == overrides,
            r.catalog@.len() == 0,
    {
        PackageRegistry { base, overrides, catalog: Vec::new() }
    }

    /// Records that a source offers `pkg`.
    pub fn publish(&mut self, pkg: Package)
        ensures
            final(self).base == old(self).base,
            final(self).overrides == old(self).overrides,
            final(self).catalog@ == old(self).catalog@.push(pkg),
    {
        self.catalog.push(pkg);
    }

    /// All candidate catalog indices for `name`, in ascending order.
    pub fn query(&self, name: &String) -> (r: Vec<usize>)
        ensures
            forall|i: int|
                0 <= i < r@.len() ==> (#[trigger] r@[i]) < self.catalog@.len()
                    && self.is_candidate(name@, self.catalog@[r@[i] as int]),
            forall|k: int|
                0 <= k < self.catalog@.len() && self.is_candidate(
                    name@,
                    #[trigger] self.catalog@[k],
                ) ==> exists|t: int| 0 <= t < r@.len() && (#[trigger] r@[t]) as int == k,
            forall|a: int, b: int| 0 <= a < b < r@.len() ==> r@[a] < r@[b],
    {
        let use_overrides = self.scan_override(name);
        let mut r: Vec<usize> = Vec::new();
        let mut k: usize = 0;
        while k < self.catalog.len()
            invariant
                use_overrides == self.has_override_candidate(name@),
                forall|i: int|
                    0 <= i < r@.len() ==> (#[trigger] r@[i]) < k && self.is_candidate(
                        name@,
                        self.catalog@[r@[i] as int],
                    ),
                forall|j: int|
                    0 <= j < k && self.is_candidate(name@, #[trigger] self.catalog@[j])
                        ==> exists|t: int| 0 <= t < r@.len() && (#[trigger] r@[t]) as int == j,
                forall|a: int, b: int| 0 <= a < b < r@.len() ==> r@[a] < r@[b],
                0 <= k <= self.catalog@.len(),
            decreases self.catalog@.len() - k,
        {
            let matched = if self.catalog[k].name == *name {
                if use_overrides {
                    crate::source_id::source_in_list(&self.overrides, &self.catalog[k].source_id)
                } else {
                    crate::source_id::source_in_list(&self.base, &self.catalog[k].source_id)
                }
            } else {
                false
            };
            if matched {
                let ghost old_r = r@;
                r.push(k);
                proof {
                    assert(r@[r@.len() - 1] == k);
                    assert forall|j: int|
                        0 <= j <= k && self.is_candidate(name@, #[trigger] self.catalog@[j])
                    implies exists|t: int| 0 <= t < r@.len() && (#[trigger] r@[t]) as int
                        == j by {
                        if j < k {
                            let t = choose|t: int|
                                0 <= t < old_r.len() && (#[trigger] old_r[t]) as int == j;
                            assert(r@[t] as int == j);
                        } else {
                            assert(r@[r@.len() - 1] as int == j);
                        }
                    }
                }
            }
            k += 1;
        }
        r
    }

    /// Whether any override source offers `name`.
    fn scan_override(&self, name: &String) -> (r: bool)
        ensures
            r == self.has_override_candidate(name@),
    {
        let mut k: usize = 0;
        while k < self.catalog.len()
            invariant
                0 <= k <= self.catalog@.len(),
                forall|j: int|
                    0 <= j < k ==> !((#[trigger] self.catalog@[j]).name@ == name@
                        && contains_source(self.overrides@, self.catalog@[j].source_id)),
            decreases self.catalog@.len() - k,
        {
            if self.catalog[k].name == *name {
                if crate::source_id::source_in_list(&self.overrides, &self.catalog[k].source_id) {
                    assert(self.catalog@[k as int].name@ == name@);
                    return true;
                }
            }
            k += 1;
        }
        false
    }

    /// Materializes every resolved id into its concrete package.
    ///
    /// Succeeds exactly when every id has a matching catalog entry; the
    /// result then carries, id for id, the data of the first matching
    /// entry.  The first id that no catalog entry matches turns into a
    /// source error naming that package.
    pub fn get(&self, ids: &Vec<ResolvedId>) -> (r: Result<Vec<Package>, CargoError>)
        ensures
            r is Ok <==> forall|i: int|
                0 <= i < ids@.len() ==> self.id_available(#[trigger] ids@[i]),
            r matches Ok(pkgs) ==> pkgs@.len() == ids@.len(),
            r matches Ok(pkgs) ==> forall|i: int|
                0 <= i < ids@.len() ==> matches_id(#[trigger] pkgs@[i], ids@[i]),
            r matches Ok(pkgs) ==> forall|i: int|
                0 <= i < ids@.len() ==> self.from_catalog(#[trigger] pkgs@[i]),
            r matches Err(e) ==> e is Source,
    {
        let mut pkgs: Vec<Package> = Vec::new();
        let mut i: usize = 0;
        while i < ids.len()
            invariant
                0 <= i <= ids@.len(),
                pkgs@.len() == i,
                forall|j: int|
                    0 <= j < i ==> self.id_available(#[trigger] ids@[j]),
                forall|j: int|
                    0 <= j < i ==> matches_id(#[trigger] pkgs@[j], ids@[j]) && self.from_catalog(
                        pkgs@[j],
                    ),
            decreases ids.len() - i,
        {
            match self.find_package(&ids[i]) {
                Some(p) => {
                    pkgs.push(p);
                },
                None => {
                    return Err(CargoError::Source {
                        name: ids[i].name.clone(),
                        version: ids[i].version,
                        detail: "no known source offers this package".to_owned(),
                    });
                },
            }
            i += 1;
        }
        Ok(pkgs)
    }

    /// Finds the first catalog entry matching `id` and hands back a copy.
    fn find_package(&self, id: &ResolvedId) -> (r: Option<Package>)
        ensures
            r is Some <==> self.id_available(*id),
            r matches Some(p) ==> matches_id(p, *id) && self.from_catalog(p),
    {
        let mut k: usize = 0;
        while k < self.catalog.len()
            invariant
                0 <= k <= self.catalog@.len(),
                forall|j: int| 0 <= j < k ==> !matches_id(#[trigger] self.catalog@[j], *id),
            decreases self.catalog@.len() - k,
        {
            let entry = &self.catalog[k];
            if entry.name == id.name && entry.version == id.version && entry.source_id
                == id.source {
                assert(matches_id(self.catalog@[k as int], *id));
                return Some(entry.clone());
            }
            k += 1;
        }
        None
    }
}

} // verus!
