//! The build orchestrator.
//!
//! `plan_build` turns the materialized package set and the root package
//! into a compile plan: a list of packages in which every dependency
//! stands strictly before its dependents, the root standing after the
//! whole set.  `BuildState` then walks the plan one external compiler
//! invocation at a time: each step hands out the package to compile
//! together with the artifact locations of its already-built
//! dependencies, and the first recorded failure stops the walk for good,
//! identifying the failing package.
//!
//! Running the compiler is an external affair: the caller performs the
//! invocation that a [`CompileRequest`] describes and records the outcome.

use vstd::prelude::*;
use crate::errors::{CargoError, ResolveError};
use crate::order;
use crate::package::{Dependency, Package};
use crate::registry::pkg_equiv;
use crate::source_id::SourceId;

verus! {

/// The finalized, immutable collection of concrete packages to build.
pub struct PackageSet {
    pub packages: Vec<Package>,
}

impl PackageSet {
    /// Wraps the materialized packages; the set is read-only afterwards.
    pub fn new(packages: Vec<Package>) -> (r: PackageSet)
        ensures
            r.packages == packages,
    {
        PackageSet { packages }
    }
}

/// Whether a dependency on `name` is discharged before position `a` of
/// `list`: a package of that name stands strictly earlier, or no package
/// of the list is named so.
pub open spec fn dep_built_before(list: Seq<Package>, a: int, name: Seq<char>) -> bool {
    (exists|b: int| 0 <= b < a && list[b].name@ == name) || !order::name_present(list, name)
}

/// The compile-schedule property over a package list: every dependency
/// edge points at a package standing strictly earlier in the list.
pub open spec fn build_order_ok(list: Seq<Package>) -> bool {
    forall|a: int, d: int|
        0 <= a < list.len() && 0 <= d < list[a].dependencies@.len() ==> dep_built_before(
            list,
            a,
            (#[trigger] list[a].dependencies@[d]).name@,
        )
}

/// An ordered compile plan: the packages of one build, dependencies first.
#[derive(Debug)]
pub struct BuildPlan {
    pub order: Vec<Package>,
}

/// One external compiler invocation: which package to compile and the
/// artifact locations of its already-built dependencies, to be handed to
/// the compiler as library search locations.
#[derive(Debug)]
pub struct CompileRequest {
    pub name: String,
    pub version: u64,
    pub source: SourceId,
    pub dep_dirs: Vec<String>,
}

/// The position of the first package named `name` among the first `upto`
/// entries of `list`, if any.
pub open spec fn first_named(list: Seq<Package>, upto: int, name: Seq<char>) -> Option<int>
    decreases upto,
{
    if upto <= 0 {
        None
    } else if first_named(list, upto - 1, name) is Some {
        first_named(list, upto - 1, name)
    } else if list[upto - 1].name@ == name {
        Some(upto - 1)
    } else {
        None
    }
}

/// The artifact directories owed to the first `count` dependencies of a
/// package standing at position `built` of the plan: for each dependency,
/// in declaration order, the artifact of the earliest step of that name.
pub open spec fn dirs_for_deps(
    deps: Seq<Dependency>,
    list: Seq<Package>,
    arts: Seq<String>,
    built: int,
) -> Seq<String>
    decreases deps.len(),
{
    if deps.len() == 0 {
        Seq::empty()
    } else {
        dirs_for_deps(deps.drop_last(), list, arts, built) + match first_named(
            list,
            built,
            deps.last().name@,
        ) {
            Some(b) => seq![arts[b]],
            None => Seq::empty(),
        }
    }
}

/// Whether `p` carries the data of some package in `set`.
pub open spec fn from_set(set: Seq<Package>, p: Package) -> bool {
    exists|k: int| 0 <= k < set.len() && pkg_equiv(#[trigger] set[k], p)
}

/// Whether the package at index `k` of `set` appears among the plan's
/// entries before the last position.
pub open spec fn in_plan_head(set: Seq<Package>, k: int, lists: Seq<Package>) -> bool {
    exists|a: int| 0 <= a < lists.len() - 1 && pkg_equiv(set[k], #[trigger] lists[a])
}

/// Whether the set plus the root admits a valid order that compiles the
/// root last: a permutation of the combined list in which every dependency
/// precedes its dependents and the root stands at the very end.
#[verifier::opaque]
pub open spec fn root_last_orderable(set: Seq<Package>, root: Package) -> bool {
    exists|vord: Seq<usize>|
        order::is_permutation(vord, (set.len() + 1) as nat) && #[trigger] order::deps_precede(
            set + seq![root],
            vord,
        ) && vord[vord.len() - 1] == set.len() as usize
}

/// A dependency-free root over an empty set always has the trivial
/// root-last schedule: the root alone.
pub proof fn lemma_trivial_root_last(root: Package)
    requires
        root.dependencies@.len() == 0,
    ensures
        root_last_orderable(Seq::empty(), root),
{
    reveal(root_last_orderable);
    let vord = seq![0usize];
    let l0 = Seq::<Package>::empty() + seq![root];
    assert(l0.len() == 1);
    assert(l0[0] == root);
    assert(order::is_permutation(vord, 1nat));
    assert(order::deps_precede(l0, vord)) by {
        assert forall|a: int, dd: int|
            0 <= a < vord.len() && 0 <= dd < order::pkg_at(l0, vord, a).dependencies@.len()
        implies order::dep_placed_before(
            l0,
            vord,
            a,
            (#[trigger] order::pkg_at(l0, vord, a).dependencies@[dd]).name@,
        ) by {
            assert(order::pkg_at(l0, vord, a) == root);
            assert(false);
        }
    }
    assert(vord[vord.len() - 1] == 0usize);
}

/// Whether some dependency of some package in `pkgs` names `name`.
fn names_dep_on(pkgs: &Vec<Package>, name: &String) -> (r: bool)
    ensures
        r == exists|x: int, d: int|
            0 <= x < pkgs@.len() && 0 <= d < pkgs@[x].dependencies@.len() && (
            #[trigger] pkgs@[x].dependencies@[d]).name@ == name@,
{
    let mut x: usize = 0;
    while x < pkgs.len()
        invariant
            0 <= x <= pkgs@.len(),
            forall|j: int, d: int|
                0 <= j < x && 0 <= d < pkgs@[j].dependencies@.len() ==> (
                #[trigger] pkgs@[j].dependencies@[d]).name@ != name@,
        decreases pkgs@.len() - x,
    {
        let mut d: usize = 0;
        while d < pkgs[x].dependencies.len()
            invariant
                x < pkgs@.len(),
                0 <= d <= pkgs@[x as int].dependencies@.len(),
                forall|e: int|
                    0 <= e < d ==> (#[trigger] pkgs@[x as int].dependencies@[e]).name@ != name@,
            decreases pkgs@[x as int].dependencies@.len() - d,
        {
            if pkgs[x].dependencies[d].name == *name {
                assert(pkgs@[x as int].dependencies@[d as int].name@ == name@);
                return true;
            }
            d += 1;
        }
        x += 1;
    }
    false
}

/// Whether some dependency in `deps` names `name`.
fn deps_contain_name(deps: &Vec<Dependency>, name: &String) -> (r: bool)
    ensures
        r == exists|d: int|
            0 <= d < deps@.len() && (#[trigger] deps@[d]).name@ == name@,
{
    let mut d: usize = 0;
    while d < deps.len()
        invariant
            0 <= d <= deps@.len(),
            forall|e: int| 0 <= e < d ==> (#[trigger] deps@[e]).name@ != name@,
        decreases deps@.len() - d,
    {
        if deps[d].name == *name {
            assert(deps@[d as int].name@ == name@);
            return true;
        }
        d += 1;
    }
    false
}

/// Computes the compile plan for `root` over the materialized `set`: a
/// topological order of the set's packages along their dependency edges,
/// the root standing last.
///
/// On success the plan satisfies the schedule property — every dependency
/// edge within the plan points backwards, so compiling the list front to
/// back builds every package after all of its dependencies — it holds
/// exactly the set's packages followed by the root, and the root is
/// compiled last.  The cycle resolution error comes exactly when no such
/// root-last schedule exists at all; the resolver is contracted to prevent
/// that, so this guard only catches a defective registry.
#[verifier::rlimit(100)]
#[verifier::spinoff_prover]
pub fn plan_build(root: &Package, set: &PackageSet) -> (r: Result<BuildPlan, CargoError>)
    ensures
        r matches Ok(plan) ==> build_order_ok(plan.order@),
        r matches Ok(plan) ==> plan.order@.len() == set.packages@.len() + 1,
        r matches Ok(plan) ==> pkg_equiv(plan.order@[plan.order@.len() - 1], *root),
        r matches Ok(plan) ==> forall|a: int|
            0 <= a < plan.order@.len() - 1 ==> from_set(set.packages@, #[trigger] plan.order@[a]),
        r matches Ok(plan) ==> forall|k: int|
            0 <= k < set.packages@.len() ==> #[trigger] in_plan_head(
                set.packages@,
                k,
                plan.order@,
            ),
        r matches Err(e) ==> e is Resolution && !root_last_orderable(set.packages@, *root),
{
    let ghost l0 = set.packages@ + seq![*root];
    let ghost m = set.packages@.len() as int;
    proof {
        assert(l0.len() == m + 1);
        assert(l0[m] == *root);
        assert(forall|j: int| 0 <= j < m ==> l0[j] == set.packages@[j]);
    }
    let mut base: Vec<Package> = Vec::new();
    let mut k: usize = 0;
    while k < set.packages.len()
        invariant
            0 <= k <= set.packages@.len(),
            base@.len() == k,
            forall|j: int| 0 <= j < k ==> pkg_equiv(#[trigger] base@[j], set.packages@[j]),
        decreases set.packages@.len() - k,
    {
        base.push(set.packages[k].clone());
        k += 1;
    }
    let root_name_in_set = order::name_in_packages(&base, &root.name);
    proof {
        if root_name_in_set {
            let j = choose|j: int| 0 <= j < base@.len() && base@[j].name@ == root.name@;
            assert(set.packages@[j].name@ == root.name@);
        } else {
            assert forall|j: int| 0 <= j < m implies (#[trigger] set.packages@[j]).name@
                != root.name@ by {
                assert(pkg_equiv(base@[j], set.packages@[j]));
            }
        }
    }
    if !root_name_in_set {
        // no edge may point at the root: a set package or the root itself
        // depending on the root's name has no root-last schedule
        if names_dep_on(&base, &root.name) {
            proof {
                let (x, d) = choose|x: int, d: int|
                    0 <= x < base@.len() && 0 <= d < base@[x].dependencies@.len() && (
                    #[trigger] base@[x].dependencies@[d]).name@ == root.name@;
                lemma_no_root_last_set_edge(set.packages@, *root, x, d);
            }
            return Err(CargoError::Resolution { kind: ResolveError::Cycle });
        }
        if deps_contain_name(&root.dependencies, &root.name) {
            proof {
                let d = choose|d: int|
                    0 <= d < root.dependencies@.len() && (#[trigger] root.dependencies@[d]).name@
                        == root.name@;
                lemma_no_root_last_self_edge(set.packages@, *root, d);
            }
            return Err(CargoError::Resolution { kind: ResolveError::Cycle });
        }
    }
    let ghost bases = base@;
    let ord = match order::topo_order(&base) {
        Ok(ord) => ord,
        Err(e) => {
            proof {
                lemma_no_root_last_when_unorderable(set.packages@, *root, bases);
            }
            return Err(e);
        },
    };
    let mut list: Vec<Package> = Vec::new();
    let mut a: usize = 0;
    while a < ord.len()
        invariant
            order::is_permutation(ord@, base@.len() as nat),
            base@ == bases,
            base@.len() == set.packages@.len(),
            forall|j: int| 0 <= j < base@.len() ==> pkg_equiv(#[trigger] base@[j], set.packages@[j]),
            0 <= a <= ord@.len(),
            list@.len() == a,
            forall|b: int| 0 <= b < a ==> pkg_equiv(#[trigger] list@[b], base@[ord@[b] as int]),
        decreases ord@.len() - a,
    {
        let idx = ord[a];
        list.push(base[idx].clone());
        a += 1;
    }
    list.push(root.clone());
    proof {
        lemma_plan_ok(set.packages@, *root, bases, ord@, list@);
    }
    Ok(BuildPlan { order: list })
}


/// The mapped list — the set's packages in topological order followed by
/// the root — is a valid compile schedule and holds exactly the set plus
/// the root.
#[verifier::rlimit(100)]
#[verifier::spinoff_prover]
proof fn lemma_plan_ok(
    set: Seq<Package>,
    root: Package,
    bases: Seq<Package>,
    ords: Seq<usize>,
    lists: Seq<Package>,
)
    requires
        bases.len() == set.len(),
        set.len() <= usize::MAX,
        forall|j: int| 0 <= j < bases.len() ==> pkg_equiv(#[trigger] bases[j], set[j]),
        order::is_permutation(ords, bases.len() as nat),
        order::deps_precede(bases, ords),
        lists.len() == set.len() + 1,
        forall|b: int| 0 <= b < set.len() ==> pkg_equiv(#[trigger] lists[b], bases[ords[b] as int]),
        pkg_equiv(lists[lists.len() - 1], root),
        lists[lists.len() - 1].dependencies@ == root.dependencies@,
        order::name_present(bases, root.name@) || ((forall|x: int, d: int|
            0 <= x < bases.len() && 0 <= d < bases[x].dependencies@.len() ==> (
            #[trigger] bases[x].dependencies@[d]).name@ != root.name@) && (forall|d: int|
            0 <= d < root.dependencies@.len() ==> (#[trigger] root.dependencies@[d]).name@
                != root.name@)),
    ensures
        build_order_ok(lists),
        forall|a: int| 0 <= a < lists.len() - 1 ==> from_set(set, #[trigger] lists[a]),
        forall|k: int| 0 <= k < set.len() ==> #[trigger] in_plan_head(set, k, lists),
{
    let m = set.len() as int;
        assert(lists.len() == m + 1);
        assert(pkg_equiv(lists[m], root));
        // membership both ways between the set part and the set
        assert forall|x: int| 0 <= x < m implies from_set(set, #[trigger] lists[x]) by {
            let ox = ords[x] as int;
            assert(pkg_equiv(lists[x], bases[ox]));
            assert(pkg_equiv(bases[ox], set[ox]));
            assert(pkg_equiv(set[ox], lists[x]));
        }
        assert forall|kk: int| 0 <= kk < set.len() implies #[trigger] in_plan_head(
            set,
            kk,
            lists,
        ) by {
            order::lemma_permutation_hits(ords, m, kk);
            let x = choose|x: int| 0 <= x < ords.len() && ords[x] == kk as usize;
            assert(pkg_equiv(lists[x], bases[kk]));
            assert(pkg_equiv(bases[kk], set[kk]));
            assert(pkg_equiv(set[kk], lists[x]));
        }
        // the schedule property over the full plan
        assert forall|x: int, d: int|
            0 <= x < lists.len() && 0 <= d < lists[x].dependencies@.len() implies dep_built_before(
            lists,
            x,
            (#[trigger] lists[x].dependencies@[d]).name@,
        ) by {
            let nm = lists[x].dependencies@[d].name@;
            if x < m {
                let ox = ords[x] as int;
                assert(pkg_equiv(lists[x], bases[ox]));
                assert(bases[ox].dependencies@[d].name@ == nm);
                assert(order::deps_precede(bases, ords));
                assert(order::pkg_at(bases, ords, x) == bases[ox]);
                assert(order::pkg_at(bases, ords, x).dependencies@[d].name@ == nm);
                assert(order::dep_placed_before(bases, ords, x, nm));
                if exists|b: int| 0 <= b < x && order::pkg_at(bases, ords, b).name@ == nm {
                    let b = choose|b: int|
                        0 <= b < x && order::pkg_at(bases, ords, b).name@ == nm;
                    assert(pkg_equiv(lists[b], bases[ords[b] as int]));
                    assert(lists[b].name@ == nm);
                } else {
                    assert(!order::name_present(bases, nm));
                    // the name cannot be the root's: a set package naming
                    // the root was already rejected unless the set holds
                    // the name itself
                    assert(nm != root.name@);
                    if order::name_present(lists, nm) {
                        let b = choose|b: int| 0 <= b < lists.len() && lists[b].name@ == nm;
                        if b < m {
                            assert(pkg_equiv(lists[b], bases[ords[b] as int]));
                            assert(bases[ords[b] as int].name@ == nm);
                        } else {
                            assert(lists[b].name@ == root.name@);
                        }
                        assert(false);
                    }
                }
            } else {
                // the root's own dependencies: anything present in the set
                // stands before the last position
                assert(lists[m].dependencies@ == root.dependencies@);
                if order::name_present(bases, nm) {
                    let j = choose|j: int| 0 <= j < bases.len() && bases[j].name@ == nm;
                    order::lemma_permutation_hits(ords, m, j);
                    let b = choose|b: int| 0 <= b < ords.len() && ords[b] == j as usize;
                    assert(pkg_equiv(lists[b], bases[j]));
                    assert(lists[b].name@ == nm);
                } else {
                    assert(nm != root.name@);
                    if order::name_present(lists, nm) {
                        let b = choose|b: int| 0 <= b < lists.len() && lists[b].name@ == nm;
                        if b < m {
                            assert(pkg_equiv(lists[b], bases[ords[b] as int]));
                            assert(bases[ords[b] as int].name@ == nm);
                        } else {
                            assert(lists[b].name@ == root.name@);
                        }
                        assert(false);
                    }
                }
            }
        }
}

/// A set package with a dependency on the root's name, where no set
/// package carries that name, rules out every root-last schedule: the
/// dependency could only be discharged by the root itself, which stands
/// last.
proof fn lemma_no_root_last_set_edge(set: Seq<Package>, root: Package, x: int, d: int)
    requires
        set.len() <= usize::MAX,
        0 <= x < set.len(),
        0 <= d < set[x].dependencies@.len(),
        set[x].dependencies@[d].name@ == root.name@,
        forall|j: int| 0 <= j < set.len() ==> (#[trigger] set[j]).name@ != root.name@,
    ensures
        !root_last_orderable(set, root),
{
    reveal(root_last_orderable);
    let m = set.len() as int;
    let l0 = set + seq![root];
    assert forall|vord: Seq<usize>|
        !(order::is_permutation(vord, (set.len() + 1) as nat) && #[trigger] order::deps_precede(
            l0,
            vord,
        ) && vord[vord.len() - 1] == set.len() as usize) by {
        if order::is_permutation(vord, (set.len() + 1) as nat) && order::deps_precede(l0, vord)
            && vord[vord.len() - 1] == set.len() as usize {
            order::lemma_permutation_hits(vord, m + 1, x);
            let p = choose|b: int| 0 <= b < vord.len() && vord[b] == x as usize;
            assert(p != vord.len() - 1);
            assert(order::pkg_at(l0, vord, p) == set[x]);
            assert(order::pkg_at(l0, vord, p).dependencies@[d].name@ == root.name@);
            assert(order::dep_placed_before(l0, vord, p, root.name@));
            assert(order::name_present(l0, root.name@)) by {
                assert(l0[m].name@ == root.name@);
            }
            let b = choose|b: int| 0 <= b < p && order::pkg_at(l0, vord, b).name@ == root.name@;
            assert(vord[b] as int != m);
            assert(l0[vord[b] as int].name@ != root.name@);
            assert(false);
        }
    }
}

/// A root that depends on its own name, absent from the set, rules out
/// every root-last schedule the same way.
proof fn lemma_no_root_last_self_edge(set: Seq<Package>, root: Package, d: int)
    requires
        set.len() <= usize::MAX,
        0 <= d < root.dependencies@.len(),
        root.dependencies@[d].name@ == root.name@,
        forall|j: int| 0 <= j < set.len() ==> (#[trigger] set[j]).name@ != root.name@,
    ensures
        !root_last_orderable(set, root),
{
    reveal(root_last_orderable);
    let m = set.len() as int;
    let l0 = set + seq![root];
    assert forall|vord: Seq<usize>|
        !(order::is_permutation(vord, (set.len() + 1) as nat) && #[trigger] order::deps_precede(
            l0,
            vord,
        ) && vord[vord.len() - 1] == set.len() as usize) by {
        if order::is_permutation(vord, (set.len() + 1) as nat) && order::deps_precede(l0, vord)
            && vord[vord.len() - 1] == set.len() as usize {
            let p = vord.len() - 1;
            assert(order::pkg_at(l0, vord, p) == root);
            assert(order::pkg_at(l0, vord, p).dependencies@[d].name@ == root.name@);
            assert(order::dep_placed_before(l0, vord, p, root.name@));
            assert(order::name_present(l0, root.name@)) by {
                assert(l0[m].name@ == root.name@);
            }
            let b = choose|b: int| 0 <= b < p && order::pkg_at(l0, vord, b).name@ == root.name@;
            assert(vord[b] as int != m);
            assert(l0[vord[b] as int].name@ != root.name@);
            assert(false);
        }
    }
}

/// When the set itself admits no valid order, no root-last schedule of the
/// combined list exists either: the set positions of such a schedule would
/// form one.
proof fn lemma_no_root_last_when_unorderable(set: Seq<Package>, root: Package, base: Seq<Package>)
    requires
        base.len() == set.len(),
        set.len() <= usize::MAX,
        forall|j: int| 0 <= j < base.len() ==> pkg_equiv(#[trigger] base[j], set[j]),
        !order::orderable(base),
    ensures
        !root_last_orderable(set, root),
{
    reveal(root_last_orderable);
    reveal(order::orderable);
    let m = set.len() as int;
    let l0 = set + seq![root];
    assert forall|vord: Seq<usize>|
        !(order::is_permutation(vord, (set.len() + 1) as nat) && #[trigger] order::deps_precede(
            l0,
            vord,
        ) && vord[vord.len() - 1] == set.len() as usize) by {
        if order::is_permutation(vord, (set.len() + 1) as nat) && order::deps_precede(l0, vord)
            && vord[vord.len() - 1] == set.len() as usize {
            let vp = vord.subrange(0, m);
            assert forall|b: int| 0 <= b < m implies (#[trigger] vp[b]) < set.len() by {
                assert(vp[b] == vord[b]);
                assert(vord[b] != vord[vord.len() - 1]);
            }
            assert forall|a: int, b: int| 0 <= a < b < m implies vp[a] != vp[b] by {
                assert(vp[a] == vord[a] && vp[b] == vord[b]);
            }
            assert forall|a: int, d: int|
                0 <= a < vp.len() && 0 <= d < order::pkg_at(base, vp, a).dependencies@.len() implies order::dep_placed_before(
                base,
                vp,
                a,
                (#[trigger] order::pkg_at(base, vp, a).dependencies@[d]).name@,
            ) by {
                let oa = vp[a] as int;
                assert(pkg_equiv(base[oa], set[oa]));
                assert(l0[oa] == set[oa]);
                let nm = order::pkg_at(base, vp, a).dependencies@[d].name@;
                assert(order::pkg_at(l0, vord, a) == set[oa]);
                assert(order::pkg_at(l0, vord, a).dependencies@[d].name@ == nm);
                assert(order::dep_placed_before(l0, vord, a, nm));
                if exists|b: int| 0 <= b < a && order::pkg_at(l0, vord, b).name@ == nm {
                    let b = choose|b: int|
                        0 <= b < a && order::pkg_at(l0, vord, b).name@ == nm;
                    assert(vord[b] as int != m);
                    assert(l0[vord[b] as int] == set[vord[b] as int]);
                    assert(order::pkg_at(base, vp, b).name@ == nm) by {
                        assert(pkg_equiv(base[vord[b] as int], set[vord[b] as int]));
                    }
                } else {
                    assert(!order::name_present(l0, nm));
                    if order::name_present(base, nm) {
                        let j = choose|j: int| 0 <= j < base.len() && base[j].name@ == nm;
                        assert(l0[j].name@ == nm);
                        assert(false);
                    }
                }
            }
            assert(order::is_permutation(vp, base.len() as nat));
            assert(order::deps_precede(base, vp));
            assert(order::orderable(base));
            assert(false);
        }
    }
}

/// The walking state of one build/// The walking state of one build: how many steps are complete, the
/// artifact directory each produced, and the first failure if one came.
pub struct BuildState {
    pub plan: BuildPlan,
    pub artifacts: Vec<String>,
    pub failure: Option<CargoError>,
}

impl BuildState {
    /// The state is consistent: one artifact per completed step.
    pub open spec fn inv(self) -> bool {
        self.artifacts@.len() <= self.plan.order@.len()
    }

    /// How many steps have completed.
    pub open spec fn built(self) -> int {
        self.artifacts@.len() as int
    }

    /// Starts a build at the beginning of the plan.
    pub fn start(plan: BuildPlan) -> (s: BuildState)
        ensures
            s.inv(),
            s.plan == plan,
            s.built() == 0,
            s.failure is None,
    {
        BuildState { plan, artifacts: Vec::new(), failure: None }
    }

    /// Hands out the next compiler invocation, if any is owed.
    ///
    /// After a recorded failure, and likewise once the plan is exhausted,
    /// there is no next invocation: the first failure aborts the rest of
    /// the build.  Otherwise the request names the package at the current
    /// position and carries, for each of its dependencies in declaration
    /// order, the artifact directory of the step that built it.
    pub fn next_request(&self) -> (r: Option<CompileRequest>)
        requires
            self.inv(),
        ensures
            self.failure is Some ==> r is None,
            self.built() >= self.plan.order@.len() ==> r is None,
            (self.failure is None && self.built() < self.plan.order@.len()) ==> (r matches Some(
                req,
            ) && req.name@ == self.plan.order@[self.built()].name@ && req.version
                == self.plan.order@[self.built()].version && req.source.spec_id()
                == self.plan.order@[self.built()].source_id.spec_id() && req.dep_dirs@
                == dirs_for_deps(
                self.plan.order@[self.built()].dependencies@,
                self.plan.order@,
                self.artifacts@,
                self.built(),
            )),
    {
        if self.failure.is_some() {
            return None;
        }
        let built = self.artifacts.len();
        if built >= self.plan.order.len() {
            return None;
        }
        let pkg = &self.plan.order[built];
        let mut dep_dirs: Vec<String> = Vec::new();
        let mut t: usize = 0;
        while t < pkg.dependencies.len()
            invariant
                self.inv(),
                built == self.artifacts@.len(),
                built < self.plan.order@.len(),
                pkg == &self.plan.order@[built as int],
                0 <= t <= pkg.dependencies@.len(),
                dep_dirs@ == dirs_for_deps(
                    pkg.dependencies@.subrange(0, t as int),
                    self.plan.order@,
                    self.artifacts@,
                    built as int,
                ),
            decreases pkg.dependencies@.len() - t,
        {
            let ghost pre = pkg.dependencies@.subrange(0, t as int);
            let ghost cur = pkg.dependencies@.subrange(0, t + 1 as int);
            proof {
                assert(cur.drop_last() =~= pre);
                assert(cur.last() == pkg.dependencies@[t as int]);
            }
            let name = &pkg.dependencies[t].name;
            match Self::find_first(&self.plan.order, built, name) {
                Some(b) => {
                    dep_dirs.push(self.artifacts[b].clone());
                },
                None => {},
            }
            t += 1;
        }
        proof {
            assert(pkg.dependencies@.subrange(0, pkg.dependencies@.len() as int)
                =~= pkg.dependencies@);
        }
        Some(
            CompileRequest {
                name: pkg.name.clone(),
                version: pkg.version,
                source: pkg.source_id.clone(),
                dep_dirs,
            },
        )
    }

    /// The earliest of the first `upto` plan entries named `name`.
    fn find_first(list: &Vec<Package>, upto: usize, name: &String) -> (r: Option<usize>)
        requires
            upto <= list@.len(),
        ensures
            r matches Some(b) ==> b < upto && first_named(list@, upto as int, name@) == Some(
                b as int,
            ),
            r is None ==> first_named(list@, upto as int, name@) is None,
    {
        let mut b: usize = 0;
        while b < upto
            invariant
                upto <= list@.len(),
                0 <= b <= upto,
                first_named(list@, b as int, name@) is None,
            decreases upto - b,
        {
            if list[b].name == *name {
                proof {
                    lemma_first_named_extend(list@, b as int, upto as int, name@);
                }
                return Some(b);
            }
            b += 1;
        }
        None
    }

    /// Records the outcome of the invocation last handed out.
    ///
    /// A success stores the produced artifact directory and moves to the
    /// next step.  A failure stops the build for good: the stored error
    /// identifies the failing package and wraps the cause, and from then
    /// on no further invocation is handed out.
    pub fn record(&mut self, outcome: Result<String, CargoError>)
        requires
            old(self).inv(),
            old(self).failure is None,
            old(self).built() < old(self).plan.order@.len(),
        ensures
            final(self).inv(),
            final(self).plan == old(self).plan,
            outcome matches Ok(dir) ==> final(self).artifacts@ == old(self).artifacts@.push(dir)
                && final(self).failure is None,
            outcome matches Err(e) ==> final(self).artifacts@ == old(self).artifacts@ && (
            final(self).failure matches Some(f) && (f matches CargoError::CompileFailed {
                name,
                version,
                cause,
            } && name@ == old(self).plan.order@[old(self).built()].name@ && version
                == old(self).plan.order@[old(self).built()].version && *cause == e)),
    {
        match outcome {
            Ok(dir) => {
                self.artifacts.push(dir);
            },
            Err(e) => {
                let built = self.artifacts.len();
                let pkg = &self.plan.order[built];
                self.failure = Some(
                    CargoError::CompileFailed {
                        name: pkg.name.clone(),
                        version: pkg.version,
                        cause: Box::new(e),
                    },
                );
            },
        }
    }
}

/// Extending the scanned prefix past a first hit keeps the same hit.
proof fn lemma_first_named_extend(list: Seq<Package>, b: int, upto: int, name: Seq<char>)
    requires
        0 <= b < upto <= list.len(),
        first_named(list, b, name) is None,
        list[b].name@ == name,
    ensures
        first_named(list, upto, name) == Some(b),
    decreases upto,
{
    if upto == b + 1 {
    } else {
        lemma_first_named_extend(list, b, upto - 1, name);
    }
}

} // verus!
