//! The dependency resolver.
//!
//! Given the root package's direct dependencies and a registry of available
//! packages, `resolve` computes one concrete (name, version, source) per
//! required package name such that every constraint, direct or transitive,
//! is satisfied, a single version per name is shared by all dependents, and
//! the resulting graph is acyclic.  The successful result is listed in
//! dependency order: every id is preceded by the ids it depends on.
//!
//! The search is deterministic: dependencies are examined in declaration
//! order, and for each name the highest version satisfying every
//! constraint collected so far is chosen (override sources first).  When a
//! later constraint rejects an already chosen version but a common choice
//! still exists, the constraint is recorded and the selection restarts
//! under the joined constraint set, so compatible dependents share one
//! version; a version conflict is reported only when some collected
//! constraints on one name admit no common candidate at all.

use vstd::prelude::*;
use vstd::seq_lib::*;
use vstd::set_lib::*;
use crate::errors::{CargoError, ResolveError};
use crate::order;
use crate::order::{lemma_distinct_bounded, lemma_permutation_hits};
use crate::package::{
    clone_dependencies, dep_satisfied, names_unique, Dependency, Package, ResolvedId, VersionReq,
};
use crate::registry::{matches_id, pkg_equiv, PackageRegistry};

verus! {

/// Dependency `d` is satisfied by an id standing strictly before position `i`.
pub open spec fn dep_satisfied_before(d: Dependency, ids: Seq<ResolvedId>, i: int) -> bool {
    exists|j: int|
        0 <= j < i && (#[trigger] ids[j]).name@ == d.name@ && d.req.spec_matches(ids[j].version)
}

/// Every dependency in `deps` is satisfied by an id standing strictly
/// before position `i`.
pub open spec fn deps_resolved_before(deps: Seq<Dependency>, ids: Seq<ResolvedId>, i: int) -> bool {
    forall|d: int| 0 <= d < deps.len() ==> dep_satisfied_before(#[trigger] deps[d], ids, i)
}

/// Some dependency of package `p` names `name`.
pub open spec fn pkg_demands(p: Package, name: Seq<char>) -> bool {
    exists|d: int| 0 <= d < p.dependencies@.len() && (#[trigger] p.dependencies@[d]).name@ == name
}

/// A dependency value that the inputs or the catalog actually declare:
/// it is one of the root's direct dependencies, or a dependency of some
/// package the registry offers.
pub open spec fn demanded_dep(deps: Seq<Dependency>, catalog: Seq<Package>, dd: Dependency) -> bool {
    deps.contains(dd) || exists|k: int|
        0 <= k < catalog.len() && (#[trigger] catalog[k]).dependencies@.contains(dd)
}

/// Every constraint in `cs` that speaks of `name` admits version `v`.
pub open spec fn all_cs_ok(cs: Seq<Dependency>, name: Seq<char>, v: u64) -> bool {
    forall|t: int|
        0 <= t < cs.len() ==> ((#[trigger] cs[t]).name@ == name ==> cs[t].req.spec_matches(v))
}

/// A set of declared constraints on `name` that no candidate the registry
/// offers for that name satisfies in full: a genuine version conflict.
pub open spec fn jointly_unsatisfiable(
    deps: Seq<Dependency>,
    reg: PackageRegistry,
    name: Seq<char>,
    cs: Seq<Dependency>,
) -> bool {
    (forall|t: int| 0 <= t < cs.len() ==> demanded_dep(deps, reg.catalog@, #[trigger] cs[t])) && (
    forall|k: int|
        0 <= k < reg.catalog@.len() && reg.is_candidate(name, #[trigger] reg.catalog@[k])
            ==> exists|t: int|
            0 <= t < cs.len() && (#[trigger] cs[t]).name@ == name && !cs[t].req.spec_matches(
                reg.catalog@[k].version,
            ))
}

/// Some set of declared constraints on `name` admits no common candidate.
pub open spec fn conflict_reported(deps: Seq<Dependency>, reg: PackageRegistry, name: Seq<char>) -> bool {
    exists|cs: Seq<Dependency>| #[trigger] jointly_unsatisfiable(deps, reg, name, cs)
}

/// Every dependency any catalog package declares, in catalog order.
pub open spec fn all_catalog_deps(cat: Seq<Package>) -> Seq<Dependency>
    decreases cat.len(),
{
    if cat.len() == 0 {
        Seq::empty()
    } else {
        all_catalog_deps(cat.drop_last()) + cat.last().dependencies@
    }
}

/// A catalog package's dependency is in the pool of all catalog
/// dependencies.
proof fn lemma_catalog_dep_in_pool(cat: Seq<Package>, k: int, t: int)
    requires
        0 <= k < cat.len(),
        0 <= t < cat[k].dependencies@.len(),
    ensures
        all_catalog_deps(cat).contains(cat[k].dependencies@[t]),
    decreases cat.len(),
{
    if k == cat.len() - 1 {
        let pre = all_catalog_deps(cat.drop_last());
        assert(all_catalog_deps(cat)[pre.len() + t] == cat[k].dependencies@[t]);
    } else {
        lemma_catalog_dep_in_pool(cat.drop_last(), k, t);
        assert(cat.drop_last()[k] == cat[k]);
        let pool = all_catalog_deps(cat.drop_last());
        let j = choose|j: int|
            0 <= j < pool.len() && pool[j] == cat.drop_last()[k].dependencies@[t];
        assert(all_catalog_deps(cat)[j] == pool[j]);
    }
}

/// A demanded dependency is in the combined pool of the inputs and all
/// catalog dependencies.
proof fn lemma_demanded_in_pool(deps: Seq<Dependency>, cat: Seq<Package>, dd: Dependency)
    requires
        demanded_dep(deps, cat, dd),
    ensures
        (deps + all_catalog_deps(cat)).contains(dd),
{
    let uni = deps + all_catalog_deps(cat);
    if deps.contains(dd) {
        let j = choose|j: int| 0 <= j < deps.len() && deps[j] == dd;
        assert(uni[j] == dd);
    } else {
        let k = choose|k: int|
            0 <= k < cat.len() && (#[trigger] cat[k]).dependencies@.contains(dd);
        let t = choose|t: int| 0 <= t < cat[k].dependencies@.len() && cat[k].dependencies@[t] == dd;
        lemma_catalog_dep_in_pool(cat, k, t);
        let j = choose|j: int|
            0 <= j < all_catalog_deps(cat).len() && all_catalog_deps(cat)[j] == dd;
        assert(uni[deps.len() + j] == dd);
    }
}

/// Pairwise distinct values drawn from a finite pool number at most the
/// pool's length.
proof fn lemma_distinct_in_pool(s: Seq<Dependency>, u: Seq<Dependency>)
    requires
        forall|a: int, b: int| 0 <= a < b < s.len() ==> s[a] != s[b],
        forall|i: int| 0 <= i < s.len() ==> u.contains(#[trigger] s[i]),
    ensures
        s.len() <= u.len(),
{
    let idx = Seq::new(s.len(), |i: int| choose|j: int| 0 <= j < u.len() && u[j] == s[i]);
    assert forall|i: int| 0 <= i < s.len() implies 0 <= #[trigger] idx[i] < u.len() as int
        && u[idx[i]] == s[i] by {
        assert(u.contains(s[i]));
        let j = choose|j: int| 0 <= j < u.len() && u[j] == s[i];
        assert(idx[i] == j);
    }
    assert forall|a: int, b: int| 0 <= a < b < idx.len() implies idx[a] != idx[b] by {
        if idx[a] == idx[b] {
            assert(u[idx[a]] == s[a]);
            assert(u[idx[b]] == s[b]);
        }
    }
    lemma_distinct_bounded(idx, u.len() as int);
}

/// The id at position `i` answers an actual demand: a direct dependency
/// names it, or the catalog package backing another resolved id does.  A
/// resolution with this property carries no package nobody asked for.
pub open spec fn name_demanded(
    deps: Seq<Dependency>,
    reg: PackageRegistry,
    ids: Seq<ResolvedId>,
    i: int,
) -> bool {
    (exists|d: int| 0 <= d < deps.len() && (#[trigger] deps[d]).name@ == ids[i].name@) || (exists|
        j: int,
        k: int,
    |
        0 <= j < ids.len() && j != i && 0 <= k < reg.catalog@.len() && matches_id(
            #[trigger] reg.catalog@[k],
            #[trigger] ids[j],
        ) && pkg_demands(reg.catalog@[k], ids[i].name@))
}

/// A dependency whose name the inputs or the chosen packages demand.
spec fn dep_name_sourced(x: Dependency, deps: Seq<Dependency>, pkgs: Seq<Package>) -> bool {
    (exists|d: int| 0 <= d < deps.len() && (#[trigger] deps[d]).name@ == x.name@) || (exists|
        jj: int,
    |
        0 <= jj < pkgs.len() && pkg_demands(#[trigger] pkgs[jj], x.name@))
}

/// A chosen id whose name the inputs or another chosen package demands.
spec fn chosen_name_sourced(
    deps: Seq<Dependency>,
    pkgs: Seq<Package>,
    chosen: Seq<ResolvedId>,
    i: int,
) -> bool {
    (exists|d: int| 0 <= d < deps.len() && (#[trigger] deps[d]).name@ == chosen[i].name@) || (
    exists|jj: int|
        0 <= jj < pkgs.len() && jj != i && pkg_demands(#[trigger] pkgs[jj], chosen[i].name@))
}

/// Being demanded is stable as the chosen package list grows.
proof fn lemma_sourced_push(x: Dependency, deps: Seq<Dependency>, pkgs: Seq<Package>, p: Package)
    requires
        dep_name_sourced(x, deps, pkgs),
    ensures
        dep_name_sourced(x, deps, pkgs.push(p)),
{
    if exists|jj: int| 0 <= jj < pkgs.len() && pkg_demands(#[trigger] pkgs[jj], x.name@) {
        let jj = choose|jj: int| 0 <= jj < pkgs.len() && pkg_demands(#[trigger] pkgs[jj], x.name@);
        assert(pkgs.push(p)[jj] == pkgs[jj]);
    }
}

/// The id at position `i` is backed by a catalog package whose own
/// dependencies are all satisfied by ids standing strictly before `i`.
pub open spec fn id_backed(reg: PackageRegistry, ids: Seq<ResolvedId>, i: int) -> bool {
    exists|k: int|
        #![trigger reg.catalog@[k]]
        0 <= k < reg.catalog@.len() && matches_id(reg.catalog@[k], ids[i])
            && deps_resolved_before(reg.catalog@[k].dependencies@, ids, i)
}

/// The resolution is transitively closed and acyclic: every id is backed
/// by a catalog package whose own dependencies are satisfied by ids
/// standing strictly earlier in the list.  A list with this property is a
/// reverse topological order of the resolved graph, hence a valid compile
/// order, and its existence rules out a cycle among the resolved packages.
pub open spec fn resolution_closed(reg: PackageRegistry, ids: Seq<ResolvedId>) -> bool {
    forall|i: int| 0 <= i < ids.len() ==> #[trigger] id_backed(reg, ids, i)
}

/// Satisfaction of a dependency is stable as the chosen list grows.
proof fn lemma_satisfied_push(d: Dependency, ids: Seq<ResolvedId>, x: ResolvedId)
    requires
        dep_satisfied(d, ids),
    ensures
        dep_satisfied(d, ids.push(x)),
{
    let j = choose|j: int|
        0 <= j < ids.len() && (#[trigger] ids[j]).name@ == d.name@ && d.req.spec_matches(
            ids[j].version,
        );
    assert(ids.push(x)[j].name@ == d.name@);
}

/// Looks `name` up among the already chosen ids.
fn find_chosen(chosen: &Vec<ResolvedId>, name: &String) -> (r: Option<usize>)
    ensures
        r matches Some(i) ==> i < chosen@.len() && chosen@[i as int].name@ == name@,
        r is None ==> forall|j: int| 0 <= j < chosen@.len() ==> (#[trigger] chosen@[j]).name@ != name@,
{
    let mut i: usize = 0;
    while i < chosen.len()
        invariant
            0 <= i <= chosen@.len(),
            forall|j: int| 0 <= j < i ==> (#[trigger] chosen@[j]).name@ != name@,
        decreases chosen@.len() - i,
    {
        if chosen[i].name == *name {
            return Some(i);
        }
        i += 1;
    }
    None
}

/// Whether version `v` satisfies every collected constraint on `name`.
fn cs_allow(cs: &Vec<Dependency>, name: &String, v: u64) -> (r: bool)
    ensures
        r == all_cs_ok(cs@, name@, v),
{
    let mut t: usize = 0;
    while t < cs.len()
        invariant
            0 <= t <= cs@.len(),
            forall|e: int|
                0 <= e < t ==> ((#[trigger] cs@[e]).name@ == name@ ==> cs@[e].req.spec_matches(v)),
        decreases cs@.len() - t,
    {
        if cs[t].name == *name {
            if !cs[t].req.matches(v) {
                assert(cs@[t as int].name@ == name@ && !cs@[t as int].req.spec_matches(v));
                return false;
            }
        }
        t += 1;
    }
    true
}

/// Picks the catalog index of the best candidate for `name` under `req`
/// and every collected constraint on that name: the highest version
/// satisfying all of them (override sources first, earliest catalog entry
/// on a version tie).
fn pick_best(reg: &PackageRegistry, name: &String, req: VersionReq, cs: &Vec<Dependency>) -> (r:
    Option<usize>)
    ensures
        r matches Some(ci) ==> ci < reg.catalog@.len() && reg.is_candidate(
            name@,
            reg.catalog@[ci as int],
        ) && req.spec_matches(reg.catalog@[ci as int].version) && all_cs_ok(
            cs@,
            name@,
            reg.catalog@[ci as int].version,
        ),
        r is None ==> forall|k: int|
            0 <= k < reg.catalog@.len() && reg.is_candidate(name@, #[trigger] reg.catalog@[k])
                ==> !(req.spec_matches(reg.catalog@[k].version) && all_cs_ok(
                cs@,
                name@,
                reg.catalog@[k].version,
            )),
{
    let cands = reg.query(name);
    let mut best: Option<usize> = None;
    let mut i: usize = 0;
    while i < cands.len()
        invariant
            forall|t: int|
                0 <= t < cands@.len() ==> (#[trigger] cands@[t]) < reg.catalog@.len()
                    && reg.is_candidate(name@, reg.catalog@[cands@[t] as int]),
            forall|k: int|
                0 <= k < reg.catalog@.len() && reg.is_candidate(name@, #[trigger] reg.catalog@[k])
                    ==> exists|t: int| 0 <= t < cands@.len() && (#[trigger] cands@[t]) as int == k,
            0 <= i <= cands@.len(),
            best matches Some(ci) ==> ci < reg.catalog@.len() && reg.is_candidate(
                name@,
                reg.catalog@[ci as int],
            ) && req.spec_matches(reg.catalog@[ci as int].version) && all_cs_ok(
                cs@,
                name@,
                reg.catalog@[ci as int].version,
            ),
            best is None ==> forall|t: int|
                0 <= t < i ==> !(req.spec_matches(
                    reg.catalog@[(#[trigger] cands@[t]) as int].version,
                ) && all_cs_ok(cs@, name@, reg.catalog@[cands@[t] as int].version)),
        decreases cands@.len() - i,
    {
        let ci = cands[i];
        let v = reg.catalog[ci].version;
        if req.matches(v) && cs_allow(cs, name, v) {
            match best {
                None => {
                    best = Some(ci);
                },
                Some(b) => {
                    if v > reg.catalog[b].version {
                        best = Some(ci);
                    }
                },
            }
        }
        i += 1;
    }
    proof {
        if best is None {
            assert forall|k: int|
                0 <= k < reg.catalog@.len() && reg.is_candidate(name@, #[trigger] reg.catalog@[k])
            implies !(req.spec_matches(reg.catalog@[k].version) && all_cs_ok(
                cs@,
                name@,
                reg.catalog@[k].version,
            )) by {
                let t = choose|t: int|
                    0 <= t < cands@.len() && (#[trigger] cands@[t]) as int == k;
                assert(!(req.spec_matches(reg.catalog@[cands@[t] as int].version) && all_cs_ok(
                    cs@,
                    name@,
                    reg.catalog@[cands@[t] as int].version,
                )));
            }
        }
    }
    best
}

/// When no candidate for `name` satisfies both the new constraint and
/// every collected constraint on that name, the collected set extended by
/// the new constraint witnesses a genuine version conflict.
proof fn lemma_conflict_witness(
    deps: Seq<Dependency>,
    reg: PackageRegistry,
    cs: Seq<Dependency>,
    d: Dependency,
)
    requires
        forall|t: int| 0 <= t < cs.len() ==> demanded_dep(deps, reg.catalog@, #[trigger] cs[t]),
        demanded_dep(deps, reg.catalog@, d),
        forall|k: int|
            0 <= k < reg.catalog@.len() && reg.is_candidate(d.name@, #[trigger] reg.catalog@[k])
                ==> !(d.req.spec_matches(reg.catalog@[k].version) && all_cs_ok(
                cs,
                d.name@,
                reg.catalog@[k].version,
            )),
    ensures
        conflict_reported(deps, reg, d.name@),
{
    let w = cs.push(d);
    assert forall|t: int| 0 <= t < w.len() implies demanded_dep(
        deps,
        reg.catalog@,
        #[trigger] w[t],
    ) by {
        if t < cs.len() {
            assert(w[t] == cs[t]);
        } else {
            assert(w[t] == d);
        }
    }
    assert forall|k: int|
        0 <= k < reg.catalog@.len() && reg.is_candidate(d.name@, #[trigger] reg.catalog@[k])
    implies exists|t: int|
        0 <= t < w.len() && (#[trigger] w[t]).name@ == d.name@ && !w[t].req.spec_matches(
            reg.catalog@[k].version,
        ) by {
        let v = reg.catalog@[k].version;
        if d.req.spec_matches(v) {
            assert(!all_cs_ok(cs, d.name@, v));
            let t = choose|t: int|
                0 <= t < cs.len() && (#[trigger] cs[t]).name@ == d.name@
                    && !cs[t].req.spec_matches(v);
            assert(w[t] == cs[t]);
        } else {
            assert(w[w.len() - 1] == d);
        }
    }
    assert(jointly_unsatisfiable(deps, reg, d.name@, w));
}

/// Computes a consistent assignment of versions and sources for the full
/// transitive dependency graph rooted at `deps`.
///
/// On success the result lists exactly one id per required package name,
/// in dependency order: every direct dependency is satisfied by some id,
/// and each id is backed by a catalog package all of whose dependencies
/// are satisfied by ids standing strictly earlier — so the resolved graph
/// is acyclic and the list itself is a valid compile order.  The
/// assignment is minimal: every id answers a demand of the inputs or of
/// another resolved package.  An empty dependency list always resolves to
/// an empty assignment.  Every failure
/// is a resolution error: an unsatisfiable constraint, a version conflict
/// between dependents of one name, or a dependency cycle.
#[verifier::rlimit(100)]
#[verifier::spinoff_prover]
pub fn resolve(deps: &Vec<Dependency>, reg: &PackageRegistry) -> (r: Result<
    Vec<ResolvedId>,
    CargoError,
>)
    ensures
        r matches Ok(ids) ==> names_unique(ids@),
        r matches Ok(ids) ==> forall|i: int|
            0 <= i < deps@.len() ==> dep_satisfied(#[trigger] deps@[i], ids@),
        r matches Ok(ids) ==> resolution_closed(*reg, ids@),
        r matches Ok(ids) ==> forall|i: int|
            0 <= i < ids@.len() ==> #[trigger] name_demanded(deps@, *reg, ids@, i),
        r matches Err(e) ==> e is Resolution,
        r matches Err(CargoError::Resolution { kind: ResolveError::Unsatisfiable { name } })
            ==> exists|dd: Dependency|
            demanded_dep(deps@, reg.catalog@, dd) && dd.name@ == name@ && (forall|k: int|
                0 <= k < reg.catalog@.len() && reg.is_candidate(name@, #[trigger] reg.catalog@[k])
                    ==> !dd.req.spec_matches(reg.catalog@[k].version)),
        r matches Err(CargoError::Resolution { kind: ResolveError::Incompatible { name } })
            ==> conflict_reported(deps@, *reg, name@),
        r matches Err(CargoError::Resolution { kind: ResolveError::Cycle }) ==> exists|
            sub: Seq<Package>,
        |
            (forall|i: int| 0 <= i < sub.len() ==> #[trigger] reg.from_catalog(sub[i])) && !(
            #[trigger] order::orderable(sub)),
        deps@.len() == 0 ==> (r matches Ok(ids) && ids@.len() == 0),
{
    let ghost n = reg.catalog@.len() as int;
    let ghost uni = deps@ + all_catalog_deps(reg.catalog@);
    let mut constraints: Vec<Dependency> = Vec::new();
    let mut chosen: Vec<ResolvedId> = Vec::new();
    let mut pkgs: Vec<Package> = Vec::new();
    let ghost mut cat_idx: Seq<int> = Seq::empty();
    let mut selected = false;
    while !selected
        invariant
            n == reg.catalog@.len(),
            uni == deps@ + all_catalog_deps(reg.catalog@),
            forall|t: int|
                0 <= t < constraints@.len() ==> demanded_dep(
                    deps@,
                    reg.catalog@,
                    #[trigger] constraints@[t],
                ),
            forall|t1: int, t2: int|
                0 <= t1 < t2 < constraints@.len() ==> constraints@[t1] != constraints@[t2],
            constraints@.len() <= uni.len(),
            selected ==> chosen@.len() == pkgs@.len() && cat_idx.len() == chosen@.len(),
            selected ==> names_unique(chosen@),
            selected ==> forall|i: int|
                0 <= i < chosen@.len() ==> matches_id(#[trigger] pkgs@[i], chosen@[i]),
            selected ==> forall|i: int|
                0 <= i < chosen@.len() ==> 0 <= #[trigger] cat_idx[i] < n && pkg_equiv(
                    reg.catalog@[cat_idx[i]],
                    pkgs@[i],
                ),
            selected ==> forall|i: int|
                0 <= i < deps@.len() ==> dep_satisfied(#[trigger] deps@[i], chosen@),
            selected ==> forall|i: int, d: int|
                0 <= i < pkgs@.len() && 0 <= d < pkgs@[i].dependencies@.len() ==> dep_satisfied(
                    (#[trigger] pkgs@[i].dependencies@[d]),
                    chosen@,
                ),
            selected ==> forall|i: int|
                0 <= i < chosen@.len() ==> #[trigger] chosen_name_sourced(
                    deps@,
                    pkgs@,
                    chosen@,
                    i,
                ),
            selected && deps@.len() == 0 ==> chosen@.len() == 0,
        decreases (if selected { 0int } else { 1int }), uni.len() + 1 - constraints@.len(),
    {
    let mut pending: Vec<Dependency> = clone_dependencies(deps);
    chosen = Vec::new();
    pkgs = Vec::new();
    proof {
        cat_idx = Seq::empty();
    }
    let mut restart_with: Option<Dependency> = None;
    proof {
        assert forall|t: int| 0 <= t < pending@.len() implies dep_name_sourced(
            #[trigger] pending@[t],
            deps@,
            pkgs@,
        ) && demanded_dep(deps@, reg.catalog@, pending@[t]) by {
            assert(deps@[t].name@ == pending@[t].name@);
            assert(deps@[t] == pending@[t]);
            assert(deps@.contains(pending@[t]));
        }
    }
    while pending.len() > 0 && restart_with.is_none()
        invariant
            n == reg.catalog@.len(),
            forall|t: int|
                0 <= t < constraints@.len() ==> demanded_dep(
                    deps@,
                    reg.catalog@,
                    #[trigger] constraints@[t],
                ),
            forall|i: int|
                0 <= i < chosen@.len() ==> all_cs_ok(
                    constraints@,
                    (#[trigger] chosen@[i]).name@,
                    chosen@[i].version,
                ),
            restart_with matches Some(rd) ==> demanded_dep(deps@, reg.catalog@, rd) && (forall|
                t: int,
            |
                0 <= t < constraints@.len() ==> #[trigger] constraints@[t] != rd),
            chosen@.len() == pkgs@.len(),
            cat_idx.len() == chosen@.len(),
            names_unique(chosen@),
            forall|i: int|
                0 <= i < chosen@.len() ==> matches_id(#[trigger] pkgs@[i], chosen@[i]),
            forall|i: int|
                0 <= i < chosen@.len() ==> 0 <= #[trigger] cat_idx[i] < n && pkg_equiv(
                    reg.catalog@[cat_idx[i]],
                    pkgs@[i],
                ),
            restart_with is None ==> forall|i: int|
                0 <= i < deps@.len() ==> dep_satisfied(#[trigger] deps@[i], chosen@)
                    || pending@.contains(deps@[i]),
            restart_with is None ==> forall|i: int, d: int|
                0 <= i < pkgs@.len() && 0 <= d < pkgs@[i].dependencies@.len() ==> dep_satisfied(
                    (#[trigger] pkgs@[i].dependencies@[d]),
                    chosen@,
                ) || pending@.contains(pkgs@[i].dependencies@[d]),
            forall|t: int|
                0 <= t < pending@.len() ==> dep_name_sourced(#[trigger] pending@[t], deps@, pkgs@),
            forall|t: int|
                0 <= t < pending@.len() ==> demanded_dep(
                    deps@,
                    reg.catalog@,
                    #[trigger] pending@[t],
                ),
            forall|i: int|
                0 <= i < chosen@.len() ==> #[trigger] chosen_name_sourced(
                    deps@,
                    pkgs@,
                    chosen@,
                    i,
                ),
            deps@.len() == 0 ==> pending@.len() == 0 && chosen@.len() == 0,
        decreases n - chosen@.len(), pending@.len(),
    {
        let ghost old_pending = pending@;
        let d = pending.pop().unwrap();
        proof {
            assert(d == old_pending.last());
            assert(dep_name_sourced(d, deps@, pkgs@));
            assert(demanded_dep(deps@, reg.catalog@, d));
            assert(pending@ == old_pending.drop_last());
            assert forall|t: int| 0 <= t < pending@.len() implies dep_name_sourced(
                #[trigger] pending@[t],
                deps@,
                pkgs@,
            ) && demanded_dep(deps@, reg.catalog@, pending@[t]) by {
                assert(pending@[t] == old_pending[t]);
            }
            assert forall|x: Dependency| old_pending.contains(x) && x != d implies pending@.contains(
                x,
            ) by {
                let t = choose|t: int| 0 <= t < old_pending.len() && old_pending[t] == x;
                assert(t < old_pending.len() - 1);
                assert(pending@[t] == x);
            }
        }
        match find_chosen(&chosen, &d.name) {
            Some(idx) => {
                if d.req.matches(chosen[idx].version) {
                    proof {
                        assert(dep_satisfied(d, chosen@));
                        assert forall|i2: int, dd2: int|
                            0 <= i2 < pkgs@.len() && 0 <= dd2
                                < pkgs@[i2].dependencies@.len() implies dep_satisfied(
                            (#[trigger] pkgs@[i2].dependencies@[dd2]),
                            chosen@,
                        ) || pending@.contains(pkgs@[i2].dependencies@[dd2]) by {
                            let x = pkgs@[i2].dependencies@[dd2];
                            if !dep_satisfied(x, chosen@) {
                                assert(old_pending.contains(x));
                                if x != d {
                                    assert(pending@.contains(x));
                                }
                            }
                        }
                        assert forall|i2: int|
                            0 <= i2 < deps@.len() && !dep_satisfied(
                                #[trigger] deps@[i2],
                                chosen@,
                            ) implies pending@.contains(deps@[i2]) by {
                            assert(old_pending.contains(deps@[i2]));
                            assert(deps@[i2] != d);
                        }
                    }
                } else {
                    let no_cs: Vec<Dependency> = Vec::new();
                    if pick_best(reg, &d.name, d.req, &no_cs).is_none() {
                        proof {
                            assert(demanded_dep(deps@, reg.catalog@, d) && d.name@ == d.name@ && (
                            forall|k: int|
                                0 <= k < reg.catalog@.len() && reg.is_candidate(
                                    d.name@,
                                    #[trigger] reg.catalog@[k],
                                ) ==> !d.req.spec_matches(reg.catalog@[k].version)));
                        }
                        return Err(CargoError::Resolution {
                            kind: ResolveError::Unsatisfiable { name: d.name },
                        });
                    }
                    if pick_best(reg, &d.name, d.req, &constraints).is_none() {
                        proof {
                            lemma_conflict_witness(deps@, *reg, constraints@, d);
                        }
                        return Err(CargoError::Resolution {
                            kind: ResolveError::Incompatible { name: d.name },
                        });
                    }
                    // a common choice still exists: record the constraint
                    // and restart the selection under the joined set
                    proof {
                        assert forall|t: int|
                            0 <= t < constraints@.len() implies #[trigger] constraints@[t]
                            != d by {
                            if constraints@[t].name@ == d.name@ {
                                assert(all_cs_ok(
                                    constraints@,
                                    chosen@[idx as int].name@,
                                    chosen@[idx as int].version,
                                ));
                                assert(constraints@[t].req.spec_matches(
                                    chosen@[idx as int].version,
                                ));
                            }
                        }
                    }
                    restart_with = Some(d);
                }
            },
            None => {
                match pick_best(reg, &d.name, d.req, &constraints) {
                    None => {
                        let no_cs: Vec<Dependency> = Vec::new();
                        if pick_best(reg, &d.name, d.req, &no_cs).is_none() {
                            proof {
                                assert(demanded_dep(deps@, reg.catalog@, d) && d.name@ == d.name@
                                    && (forall|k: int|
                                    0 <= k < reg.catalog@.len() && reg.is_candidate(
                                        d.name@,
                                        #[trigger] reg.catalog@[k],
                                    ) ==> !d.req.spec_matches(reg.catalog@[k].version)));
                            }
                            return Err(CargoError::Resolution {
                                kind: ResolveError::Unsatisfiable { name: d.name },
                            });
                        }
                        proof {
                            lemma_conflict_witness(deps@, *reg, constraints@, d);
                        }
                        return Err(CargoError::Resolution {
                            kind: ResolveError::Incompatible { name: d.name },
                        });
                    },
                    Some(ci) => {
                        let p = reg.catalog[ci].clone();
                        let new_id = ResolvedId {
                            name: p.name.clone(),
                            version: p.version,
                            source: p.source_id.clone(),
                        };
                        let ghost old_chosen = chosen@;
                        let ghost old_pkgs = pkgs@;
                        proof {
                            // The new name is distinct from every chosen
                            // name, so the one-version-per-name count can
                            // still grow within the catalog's bound.
                            assert(p.name@ == d.name@);
                            let ext = cat_idx.push(ci as int);
                            assert forall|a: int, b: int| 0 <= a < b < ext.len() implies ext[a]
                                != ext[b] by {
                                if b < ext.len() - 1 {
                                    assert(pkg_equiv(reg.catalog@[cat_idx[a]], old_pkgs[a]));
                                } else {
                                    assert(ext[b] == ci as int);
                                    assert(pkg_equiv(reg.catalog@[cat_idx[a]], old_pkgs[a]));
                                    assert(old_pkgs[a].name@ == old_chosen[a].name@);
                                    assert(reg.catalog@[ci as int].name@ == d.name@);
                                }
                            }
                            assert forall|i: int| 0 <= i < ext.len() implies 0 <= #[trigger] ext[i]
                                < n by {}
                            lemma_distinct_bounded(ext, n);
                        }
                        chosen.push(new_id);
                        pkgs.push(p);
                        proof {
                            cat_idx = cat_idx.push(ci as int);
                        }
                        let mut t: usize = 0;
                        let deps_of_p = clone_dependencies(&pkgs[pkgs.len() - 1].dependencies);
                        let ghost base_pending = pending@;
                        while t < deps_of_p.len()
                            invariant
                                0 <= t <= deps_of_p@.len(),
                                pending@ == base_pending + deps_of_p@.subrange(0, t as int),
                            decreases deps_of_p@.len() - t,
                        {
                            let ghost before = pending@;
                            pending.push(deps_of_p[t].clone());
                            proof {
                                assert(pending@ =~= base_pending + deps_of_p@.subrange(
                                    0,
                                    t + 1 as int,
                                ));
                            }
                            t += 1;
                        }
                        proof {
                            assert(deps_of_p@.subrange(0, deps_of_p@.len() as int)
                                =~= deps_of_p@);
                            let newc = chosen@;
                            assert(newc == old_chosen.push(new_id));
                            assert(newc[newc.len() - 1] == new_id);
                            assert(new_id.name@ == d.name@ && d.req.spec_matches(new_id.version));
                            assert(dep_satisfied(d, newc));
                            assert forall|i2: int| 0 <= i2 < chosen@.len() implies all_cs_ok(
                                constraints@,
                                (#[trigger] chosen@[i2]).name@,
                                chosen@[i2].version,
                            ) by {
                                if i2 < old_chosen.len() {
                                    assert(chosen@[i2] == old_chosen[i2]);
                                } else {
                                    assert(chosen@[i2] == new_id);
                                }
                            }
                            // stability of earlier satisfactions
                            assert forall|i: int|
                                0 <= i < deps@.len() && dep_satisfied(
                                    #[trigger] deps@[i],
                                    old_chosen,
                                ) implies dep_satisfied(deps@[i], newc) by {
                                lemma_satisfied_push(deps@[i], old_chosen, new_id);
                            }
                            assert forall|i: int, dd: int|
                                0 <= i < old_pkgs.len() && 0 <= dd
                                    < old_pkgs[i].dependencies@.len() && dep_satisfied(
                                    (#[trigger] old_pkgs[i].dependencies@[dd]),
                                    old_chosen,
                                ) implies dep_satisfied(old_pkgs[i].dependencies@[dd], newc) by {
                                lemma_satisfied_push(old_pkgs[i].dependencies@[dd], old_chosen, new_id);
                            }
                            // pending still covers everything not yet satisfied
                            assert forall|x: Dependency|
                                base_pending.contains(x) implies pending@.contains(x) by {
                                let u = choose|u: int|
                                    0 <= u < base_pending.len() && base_pending[u] == x;
                                assert(pending@[u] == x);
                            }
                            // provenance: old pending items keep their
                            // source, the new package's dependencies are
                            // demanded by it, and the new id answers the
                            // demand that the popped dependency carried
                            assert forall|t: int| 0 <= t < pending@.len() implies dep_name_sourced(
                                (#[trigger] pending@[t]),
                                deps@,
                                pkgs@,
                            ) by {
                                if t < base_pending.len() {
                                    assert(pending@[t] == base_pending[t]);
                                    assert(dep_name_sourced(base_pending[t], deps@, old_pkgs));
                                    lemma_sourced_push(
                                        base_pending[t],
                                        deps@,
                                        old_pkgs,
                                        pkgs@[pkgs@.len() - 1],
                                    );
                                    assert(pkgs@ =~= old_pkgs.push(pkgs@[pkgs@.len() - 1]));
                                } else {
                                    let dd = t - base_pending.len();
                                    assert(pending@[t] == deps_of_p@[dd]);
                                    assert(deps_of_p@ == pkgs@[pkgs@.len() - 1].dependencies@);
                                    assert(pkg_demands(pkgs@[pkgs@.len() - 1], pending@[t].name@));
                                }
                            }
                            assert forall|i2: int| 0 <= i2 < chosen@.len() implies
                                #[trigger] chosen_name_sourced(deps@, pkgs@, chosen@, i2) by {
                                if i2 < old_chosen.len() {
                                    assert(chosen@[i2] == old_chosen[i2]);
                                    assert(chosen_name_sourced(deps@, old_pkgs, old_chosen, i2));
                                    if exists|jj: int|
                                        0 <= jj < old_pkgs.len() && jj != i2 && pkg_demands(
                                            #[trigger] old_pkgs[jj],
                                            old_chosen[i2].name@,
                                        ) {
                                        let jj = choose|jj: int|
                                            0 <= jj < old_pkgs.len() && jj != i2 && pkg_demands(
                                                #[trigger] old_pkgs[jj],
                                                old_chosen[i2].name@,
                                            );
                                        assert(pkgs@[jj] == old_pkgs[jj]);
                                    }
                                } else {
                                    assert(chosen@[i2] == new_id);
                                    assert(new_id.name@ == d.name@);
                                    assert(dep_name_sourced(d, deps@, old_pkgs));
                                    if exists|jj: int|
                                        0 <= jj < old_pkgs.len() && pkg_demands(
                                            #[trigger] old_pkgs[jj],
                                            d.name@,
                                        ) {
                                        let jj = choose|jj: int|
                                            0 <= jj < old_pkgs.len() && pkg_demands(
                                                #[trigger] old_pkgs[jj],
                                                d.name@,
                                            );
                                        assert(pkgs@[jj] == old_pkgs[jj]);
                                        assert(jj != i2);
                                    }
                                }
                            }
                            // the new package's own dependencies are all pending
                            assert forall|dd: int|
                                0 <= dd < pkgs@[pkgs@.len() - 1].dependencies@.len() implies pending@.contains(
                                (#[trigger] pkgs@[pkgs@.len() - 1].dependencies@[dd]),
                            ) by {
                                assert(deps_of_p@ == pkgs@[pkgs@.len() - 1].dependencies@);
                                assert(pending@[base_pending.len() + dd]
                                    == deps_of_p@[dd]);
                            }
                            assert forall|t: int|
                                0 <= t < pending@.len() implies demanded_dep(
                                deps@,
                                reg.catalog@,
                                #[trigger] pending@[t],
                            ) by {
                                if t < base_pending.len() {
                                    assert(pending@[t] == base_pending[t]);
                                } else {
                                    let dd = t - base_pending.len();
                                    assert(pending@[t] == deps_of_p@[dd]);
                                    let k = cat_idx[cat_idx.len() - 1];
                                    assert(pkg_equiv(
                                        reg.catalog@[k],
                                        pkgs@[pkgs@.len() - 1],
                                    ));
                                    assert(reg.catalog@[k].dependencies@
                                        == pkgs@[pkgs@.len() - 1].dependencies@);
                                    assert(reg.catalog@[k].dependencies@.contains(pending@[t]));
                                }
                            }
                            assert forall|i2: int, dd2: int|
                                0 <= i2 < pkgs@.len() && 0 <= dd2
                                    < pkgs@[i2].dependencies@.len() implies dep_satisfied(
                                (#[trigger] pkgs@[i2].dependencies@[dd2]),
                                chosen@,
                            ) || pending@.contains(pkgs@[i2].dependencies@[dd2]) by {
                                let x = pkgs@[i2].dependencies@[dd2];
                                if i2 < old_pkgs.len() {
                                    assert(pkgs@[i2] == old_pkgs[i2]);
                                    assert(old_pkgs[i2].dependencies@[dd2] == x);
                                    if dep_satisfied(x, old_chosen) {
                                        lemma_satisfied_push(x, old_chosen, new_id);
                                    } else {
                                        assert(old_pending.contains(x));
                                        if x == d {
                                            assert(dep_satisfied(d, newc));
                            assert forall|i2: int| 0 <= i2 < chosen@.len() implies all_cs_ok(
                                constraints@,
                                (#[trigger] chosen@[i2]).name@,
                                chosen@[i2].version,
                            ) by {
                                if i2 < old_chosen.len() {
                                    assert(chosen@[i2] == old_chosen[i2]);
                                } else {
                                    assert(chosen@[i2] == new_id);
                                }
                            }
                                        } else {
                                            assert(base_pending.contains(x));
                                        }
                                    }
                                }
                            }
                            assert forall|i2: int|
                                0 <= i2 < deps@.len() && !dep_satisfied(
                                    #[trigger] deps@[i2],
                                    newc,
                                ) implies pending@.contains(deps@[i2]) by {
                                assert(!dep_satisfied(deps@[i2], old_chosen));
                                assert(old_pending.contains(deps@[i2]));
                                assert(deps@[i2] != d);
                                assert(base_pending.contains(deps@[i2]));
                            }
                        }
                    },
                }
            },
        }
    }
    match restart_with {
        Some(rd) => {
            proof {
                lemma_demanded_in_pool(deps@, reg.catalog@, rd);
            }
            let ghost oldc = constraints@;
            constraints.push(rd);
            proof {
                assert(constraints@ =~= oldc.push(rd));
                assert forall|t1: int, t2: int|
                    0 <= t1 < t2 < constraints@.len() implies constraints@[t1]
                    != constraints@[t2] by {
                    if t2 < constraints@.len() - 1 {
                        assert(constraints@[t1] == oldc[t1] && constraints@[t2] == oldc[t2]);
                    } else {
                        assert(constraints@[t2] == rd);
                        assert(constraints@[t1] == oldc[t1]);
                    }
                }
                assert forall|t: int| 0 <= t < constraints@.len() implies demanded_dep(
                    deps@,
                    reg.catalog@,
                    #[trigger] constraints@[t],
                ) by {
                    if t < constraints@.len() - 1 {
                        assert(constraints@[t] == oldc[t]);
                    } else {
                        assert(constraints@[t] == rd);
                    }
                }
                assert forall|i: int| 0 <= i < constraints@.len() implies uni.contains(
                    #[trigger] constraints@[i],
                ) by {
                    if i < constraints@.len() - 1 {
                        assert(constraints@[i] == oldc[i]);
                        lemma_demanded_in_pool(deps@, reg.catalog@, constraints@[i]);
                    } else {
                        assert(constraints@[i] == rd);
                    }
                }
                lemma_distinct_in_pool(constraints@, uni);
            }
        },
        None => {
            selected = true;
        },
    }
    }
    // Selection is complete: order the chosen packages along their edges.
    let ord = match order::topo_order(&pkgs) {
        Ok(ord) => ord,
        Err(e) => {
            proof {
                assert forall|i: int| 0 <= i < pkgs@.len() implies #[trigger] reg.from_catalog(
                    pkgs@[i],
                ) by {
                    let k = cat_idx[i];
                    assert(pkg_equiv(reg.catalog@[k], pkgs@[i]));
                }
                assert(!order::orderable(pkgs@));
                assert(exists|sub: Seq<Package>|
                    (forall|i: int| 0 <= i < sub.len() ==> #[trigger] reg.from_catalog(sub[i]))
                        && !(#[trigger] order::orderable(sub)));
            }
            return Err(e);
        },
    };
    let mut out: Vec<ResolvedId> = Vec::new();
    let mut a: usize = 0;
    while a < ord.len()
        invariant
            order::is_permutation(ord@, pkgs@.len() as nat),
            chosen@.len() == pkgs@.len(),
            0 <= a <= ord@.len(),
            out@.len() == a,
            forall|b: int| 0 <= b < a ==> #[trigger] out@[b] == chosen@[ord@[b] as int],
        decreases ord@.len() - a,
    {
        let idx = ord[a];
        out.push(chosen[idx].clone());
        a += 1;
    }
    proof {
        let outs = out@;
        let ords = ord@;
        let m = chosen@.len() as int;
        // distinct names carry over through the permutation
        assert forall|i: int, j: int| 0 <= i < j < outs.len() implies outs[i].name@
            != outs[j].name@ by {
            let oi = ords[i] as int;
            let oj = ords[j] as int;
            assert(oi != oj);
            if oi < oj {
                assert(chosen@[oi].name@ != chosen@[oj].name@);
            } else {
                assert(chosen@[oj].name@ != chosen@[oi].name@);
            }
        }
        // every direct dependency stays satisfied in the permuted list
        assert forall|i: int|
            0 <= i < deps@.len() implies dep_satisfied(#[trigger] deps@[i], outs) by {
            assert(dep_satisfied(deps@[i], chosen@));
            let j = choose|j: int|
                0 <= j < chosen@.len() && (#[trigger] chosen@[j]).name@ == deps@[i].name@
                    && deps@[i].req.spec_matches(chosen@[j].version);
            lemma_permutation_hits(ords, m, j);
            let b = choose|b: int| 0 <= b < ords.len() && ords[b] == j as usize;
            assert(outs[b] == chosen@[j]);
        }
        // transitive closure in dependency order
        assert forall|i: int| 0 <= i < outs.len() implies #[trigger] id_backed(
            *reg,
            outs,
            i,
        ) by {
            let oi = ords[i] as int;
            let k = cat_idx[oi];
            assert(pkg_equiv(reg.catalog@[k], pkgs@[oi]));
            assert(matches_id(pkgs@[oi], chosen@[oi]));
            assert(outs[i] == chosen@[oi]);
            assert(matches_id(reg.catalog@[k], outs[i]));
            assert(reg.catalog@[k].dependencies@ == pkgs@[oi].dependencies@);
            assert forall|dd: int|
                0 <= dd < reg.catalog@[k].dependencies@.len() implies dep_satisfied_before(
                (#[trigger] reg.catalog@[k].dependencies@[dd]),
                outs,
                i,
            ) by {
                assert(reg.catalog@[k].dependencies@[dd] == pkgs@[oi].dependencies@[dd]);
                let dep = pkgs@[oi].dependencies@[dd];
                assert(dep_satisfied(dep, chosen@));
                let j = choose|j: int|
                    0 <= j < chosen@.len() && (#[trigger] chosen@[j]).name@ == dep.name@
                        && dep.req.spec_matches(chosen@[j].version);
                // the topological order placed that name strictly earlier
                assert(order::deps_precede(pkgs@, ords));
                assert(order::pkg_at(pkgs@, ords, i) == pkgs@[oi]);
                assert(order::dep_placed_before(pkgs@, ords, i, dep.name@));
                assert(order::name_present(pkgs@, dep.name@)) by {
                    assert(pkgs@[j].name@ == chosen@[j].name@);
                }
                let b = choose|b: int|
                    0 <= b < i && order::pkg_at(pkgs@, ords, b).name@ == dep.name@;
                let ob = ords[b] as int;
                assert(pkgs@[ob].name@ == dep.name@);
                assert(chosen@[ob].name@ == dep.name@);
                if ob != j {
                    if ob < j {
                        assert(chosen@[ob].name@ != chosen@[j].name@);
                    } else {
                        assert(chosen@[j].name@ != chosen@[ob].name@);
                    }
                    assert(false);
                }
                assert(outs[b] == chosen@[j]);
            }
            assert(deps_resolved_before(reg.catalog@[k].dependencies@, outs, i));
        }
        // minimality: every id answers a demand
        assert forall|i: int| 0 <= i < outs.len() implies #[trigger] name_demanded(
            deps@,
            *reg,
            outs,
            i,
        ) by {
            let oi = ords[i] as int;
            assert(outs[i] == chosen@[oi]);
            assert(chosen_name_sourced(deps@, pkgs@, chosen@, oi));
            if exists|dd: int|
                0 <= dd < deps@.len() && (#[trigger] deps@[dd]).name@ == chosen@[oi].name@ {
                let dd = choose|dd: int|
                    0 <= dd < deps@.len() && (#[trigger] deps@[dd]).name@ == chosen@[oi].name@;
                assert(deps@[dd].name@ == outs[i].name@);
            } else {
                let jj = choose|jj: int|
                    0 <= jj < pkgs@.len() && jj != oi && pkg_demands(
                        #[trigger] pkgs@[jj],
                        chosen@[oi].name@,
                    );
                lemma_permutation_hits(ords, m, jj);
                let b = choose|b: int| 0 <= b < ords.len() && ords[b] == jj as usize;
                assert(outs[b] == chosen@[jj]);
                assert(b != i);
                let k = cat_idx[jj];
                assert(pkg_equiv(reg.catalog@[k], pkgs@[jj]));
                assert(matches_id(pkgs@[jj], chosen@[jj]));
                assert(matches_id(reg.catalog@[k], outs[b]));
                assert(reg.catalog@[k].dependencies@ == pkgs@[jj].dependencies@);
                let di = choose|di: int|
                    0 <= di < pkgs@[jj].dependencies@.len() && (#[trigger] pkgs@[jj].dependencies@[di]).name@
                        == chosen@[oi].name@;
                assert(reg.catalog@[k].dependencies@[di].name@ == outs[i].name@);
                assert(pkg_demands(reg.catalog@[k], outs[i].name@));
            }
        }
        assert(names_unique(outs));
        assert(resolution_closed(*reg, outs));
    }
    Ok(out)
}

} // verus!
