//! The compile pipeline.
//!
//! `compile` wires the stages together over plain values: collect the
//! override source ids from the loaded configuration, build the registry
//! over the root package's sources and the catalog of available packages,
//! resolve the dependency graph, materialize the resolved packages, and
//! compute the compile plan.  Each stage short-circuits on its first
//! failure, wrapping it with stage-identifying context; the caller drives
//! the returned plan with the external compiler.

use vstd::prelude::*;
use crate::config::{source_ids_from_config, spec_find_config, ConfigValue};
use crate::errors::CargoError;
use crate::orchestrate::{build_order_ok, in_plan_head, plan_build, BuildPlan, PackageSet};
use crate::package::{dep_satisfied, Dependency, Package};
use crate::registry::{matches_id, pkg_equiv, PackageRegistry};
use crate::resolver::resolve;

verus! {

/// Whether `p` carries the data of one of the available packages.
pub open spec fn from_available(available: Seq<Package>, p: Package) -> bool {
    exists|k: int| 0 <= k < available.len() && pkg_equiv(#[trigger] available[k], p)
}

/// Whether a plan entry before the final (root) position satisfies
/// dependency `d`: same name, and a version the constraint admits.
pub open spec fn satisfied_in_plan(list: Seq<Package>, d: Dependency) -> bool {
    exists|a: int|
        0 <= a < list.len() - 1 && (#[trigger] list[a]).name@ == d.name@ && d.req.spec_matches(
            list[a].version,
        )
}

/// Runs the pipeline for `root`: configuration overrides, registry
/// construction over `available`, resolution, materialization, and the
/// compile plan.
///
/// A `"paths"` configuration entry holding a single string stops the
/// pipeline with a configuration error before anything else happens, and
/// a configuration error comes only from that cause.  On success the plan
/// schedules every dependency before its dependents, holds only packages
/// drawn from `available` below its final entry, ends with the root, and
/// satisfies each of the root's direct dependencies — by version — at
/// some earlier entry.  Every failure is staged: a configuration error, a
/// resolution failure wrapped as "unable to resolve dependencies", a
/// materialization failure wrapped as "unable to get packages from
/// source", or the orchestrator's cycle guard wrapped as "unable to plan
/// the build".
pub fn compile(root: &Package, configs: &Vec<(String, ConfigValue)>, available: Vec<Package>) -> (r:
    Result<BuildPlan, CargoError>)
    ensures
        (spec_find_config(configs@, "paths"@) matches Some(v) && v is Str) ==> (r matches Err(e)
            && e is Config),
        (r matches Err(e) && e is Config) ==> (spec_find_config(configs@, "paths"@) matches Some(
            v,
        ) && v is Str),
        r matches Ok(plan) ==> build_order_ok(plan.order@) && plan.order@.len() >= 1,
        r matches Ok(plan) ==> pkg_equiv(plan.order@[plan.order@.len() - 1], *root),
        r matches Ok(plan) ==> forall|a: int|
            0 <= a < plan.order@.len() - 1 ==> from_available(
                available@,
                #[trigger] plan.order@[a],
            ),
        r matches Ok(plan) ==> forall|i: int|
            0 <= i < root.dependencies@.len() ==> #[trigger] satisfied_in_plan(
                plan.order@,
                root.dependencies@[i],
            ),
        (root.dependencies@.len() == 0 && !(spec_find_config(configs@, "paths"@) matches Some(
            v,
        ) && v is Str)) ==> (r matches Ok(plan) && plan.order@.len() == 1),
        r matches Err(e) ==> e is Config || (e matches CargoError::Wrapped { context, cause } && (
        (context@ == "unable to resolve dependencies"@ && (*cause) is Resolution) || (context@
            == "unable to get packages from source"@ && (*cause) is Source) || (context@
            == "unable to plan the build"@ && (*cause) is Resolution))),
{
    let override_ids = match source_ids_from_config(configs) {
        Ok(ids) => ids,
        Err(e) => {
            return Err(e);
        },
    };
    let mut registry = PackageRegistry::new(root.get_source_ids(), override_ids);
    let mut i: usize = 0;
    while i < available.len()
        invariant
            0 <= i <= available@.len(),
            registry.catalog@.len() == i,
            forall|j: int|
                0 <= j < i ==> pkg_equiv(#[trigger] registry.catalog@[j], available@[j]),
        decreases available@.len() - i,
    {
        registry.publish(available[i].clone());
        i += 1;
    }
    let resolved = match resolve(root.get_dependencies(), &registry) {
        Ok(ids) => ids,
        Err(e) => {
            return Err(e.wrap("unable to resolve dependencies".to_owned()));
        },
    };
    let packages = match registry.get(&resolved) {
        Ok(pkgs) => pkgs,
        Err(e) => {
            return Err(e.wrap("unable to get packages from source".to_owned()));
        },
    };
    let ghost pkgss = packages@;
    let set = PackageSet::new(packages);
    let plan = match plan_build(root, &set) {
        Ok(plan) => plan,
        Err(e) => {
            proof {
                if root.dependencies@.len() == 0 {
                    assert(set.packages@.len() == 0);
                    assert(set.packages@ =~= Seq::<Package>::empty());
                    crate::orchestrate::lemma_trivial_root_last(*root);
                    assert(false);
                }
            }
            return Err(e.wrap("unable to plan the build".to_owned()));
        },
    };
    proof {
        let lists = plan.order@;
        assert(set.packages@ == pkgss);
        // every non-root entry descends from an available package
        assert forall|a: int| 0 <= a < lists.len() - 1 implies from_available(
            available@,
            #[trigger] lists[a],
        ) by {
            assert(crate::orchestrate::from_set(set.packages@, lists[a]));
            let k = choose|k: int|
                0 <= k < set.packages@.len() && pkg_equiv(#[trigger] set.packages@[k], lists[a]);
            assert(registry.from_catalog(pkgss[k]));
            let kc = choose|kc: int|
                0 <= kc < registry.catalog@.len() && pkg_equiv(
                    #[trigger] registry.catalog@[kc],
                    pkgss[k],
                );
            assert(pkg_equiv(registry.catalog@[kc], available@[kc]));
            assert(pkg_equiv(available@[kc], lists[a]));
        }
        // each direct dependency of the root is satisfied, by version, at
        // an earlier plan entry
        assert forall|i2: int| 0 <= i2 < root.dependencies@.len() implies
            #[trigger] satisfied_in_plan(lists, root.dependencies@[i2]) by {
            let d = root.dependencies@[i2];
            assert(dep_satisfied(d, resolved@));
            let j = choose|j: int|
                0 <= j < resolved@.len() && (#[trigger] resolved@[j]).name@ == d.name@
                    && d.req.spec_matches(resolved@[j].version);
            assert(matches_id(pkgss[j], resolved@[j]));
            assert(in_plan_head(set.packages@, j, lists));
            let a = choose|a: int|
                0 <= a < lists.len() - 1 && pkg_equiv(set.packages@[j], #[trigger] lists[a]);
            assert(lists[a].name@ == d.name@);
            assert(lists[a].version == resolved@[j].version);
        }
    }
    Ok(plan)
}

} // verus!
